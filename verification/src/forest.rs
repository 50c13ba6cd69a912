//! The forest: the single gateway between tree nodes and the block store.
//! It encodes, seals and persists nodes, and loads, unseals and decodes
//! them back, consulting a bounded branch cache first. Its ghost state is
//! the map from persisted links to the nodes they denote.

use vstd::prelude::*;
use crate::types::{Link, Error, Node, NodeModel, Secrets, copy_node};
use crate::codec::{enc_node, node_m_wf, encode_node, decode_node, lemma_enc_node_size,
    lemma_enc_node_inj};
use crate::crypto::{spec_seal, seal_bytes, lemma_seal_involution, lemma_seal_injective, SEAL_MAX};
use crate::digest::link_of;
use crate::store::MemStore;
use crate::semantics::map_incl;

verus! {

/// A bounded cache of decoded branch nodes, evicting the oldest entry.
pub struct BranchCache {
    cap: usize,
    links: Vec<Link>,
    cached: Vec<Node>,
}

impl BranchCache {
    /// Entries are consistent with the store: each cached node's sealed
    /// encoding under the given key and nonce is the block stored under
    /// its link.
    pub closed spec fn ok_for(&self, store: Map<Link, Seq<u8>>, key: Seq<u8>, nonce: Seq<u8>)
        -> bool {
        &&& self.links@.len() == self.cached@.len()
        &&& forall|i: int|
            0 <= i < self.links@.len() ==> store.dom().contains(#[trigger] self.links@[i])
                && store[self.links@[i]] == spec_seal(
                key,
                nonce,
                enc_node(self.cached@[i]@),
            ) && node_m_wf(self.cached@[i]@)
    }

    /// An empty cache holding at most `cap` decoded branches.
    pub fn new(cap: usize) -> (r: BranchCache)
        ensures
            forall|store: Map<Link, Seq<u8>>, key: Seq<u8>, nonce: Seq<u8>|
                r.ok_for(store, key, nonce),
    {
        BranchCache { cap, links: Vec::new(), cached: Vec::new() }
    }

    /// Look a link up; a hit returns a copy of the decoded node.
    fn lookup(
        &self,
        l: Link,
        Ghost(store): Ghost<Map<Link, Seq<u8>>>,
        Ghost(key): Ghost<Seq<u8>>,
        Ghost(nonce): Ghost<Seq<u8>>,
    ) -> (r: Option<Node>)
        requires
            self.ok_for(store, key, nonce),
        ensures
            r matches Some(n) ==> store.dom().contains(l) && store[l] == spec_seal(
                key,
                nonce,
                enc_node(n@),
            ) && node_m_wf(n@),
    {
        let mut i: usize = 0;
        while i < self.links.len()
            invariant
                self.ok_for(store, key, nonce),
                i <= self.links@.len(),
            decreases self.links@.len() - i,
        {
            if self.links[i] == l {
                return Some(copy_node(&self.cached[i]));
            }
            i = i + 1;
        }
        None
    }

    /// Remember a decoded node, evicting the oldest entry when full.
    fn insert(
        &mut self,
        l: Link,
        n: Node,
        Ghost(store): Ghost<Map<Link, Seq<u8>>>,
        Ghost(key): Ghost<Seq<u8>>,
        Ghost(nonce): Ghost<Seq<u8>>,
    )
        requires
            old(self).ok_for(store, key, nonce),
            store.dom().contains(l),
            store[l] == spec_seal(key, nonce, enc_node(n@)),
            node_m_wf(n@),
        ensures
            final(self).ok_for(store, key, nonce),
    {
        if self.cap == 0 {
            return;
        }
        if self.links.len() >= self.cap {
            self.links.remove(0);
            self.cached.remove(0);
        }
        self.links.push(l);
        self.cached.push(n);
    }

    /// Entries stay consistent when the store grows without rebinding.
    pub proof fn lemma_mono(
        &self,
        s1: Map<Link, Seq<u8>>,
        s2: Map<Link, Seq<u8>>,
        key: Seq<u8>,
        nonce: Seq<u8>,
    )
        requires
            self.ok_for(s1, key, nonce),
            forall|l: Link|
                #[trigger] s1.dom().contains(l) ==> s2.dom().contains(l) && s1[l] == s2[l],
        ensures
            self.ok_for(s2, key, nonce),
    {
    }
}

/// The decode/encode/seal gateway between tree nodes and the block store.
/// Owns the store, the branch cache, the secrets and the tree family's
/// 24-byte nonce.
pub struct Forest {
    store: MemStore,
    cache: BranchCache,
    secrets: Secrets,
    nonce: Vec<u8>,
    nodes: Ghost<Map<Link, NodeModel>>,
}

impl Forest {
    /// The map from persisted links to the nodes they denote.
    pub closed spec fn node_map(&self) -> Map<Link, NodeModel> {
        self.nodes@
    }

    /// The sealed form a node takes in this forest's store.
    pub closed spec fn sealed_of(&self, m: NodeModel) -> Seq<u8> {
        spec_seal(self.secrets.key@, self.nonce@, enc_node(m))
    }

    /// Well-formedness: every known link stores the sealed encoding of its
    /// node, and the cache agrees with the store byte for byte. The store
    /// may hold further blocks this forest did not write.
    pub closed spec fn wf(&self) -> bool {
        &&& self.store.wf()
        &&& self.secrets.wf()
        &&& self.nonce@.len() == 24
        &&& forall|l: Link|
            #[trigger] self.nodes@.dom().contains(l) ==> self.store@.dom().contains(l)
                && node_m_wf(self.nodes@[l]) && self.store@[l] == self.sealed_of(
                self.nodes@[l],
            )
        &&& self.cache.ok_for(self.store@, self.secrets.key@, self.nonce@)
    }

    /// Keys of the secrets bound at creation.
    pub closed spec fn secret_key(&self) -> Seq<u8> {
        self.secrets.key@
    }

    /// The nonce bound at creation.
    pub closed spec fn nonce_view(&self) -> Seq<u8> {
        self.nonce@
    }

    /// Whether the given secrets are the ones this forest was bound to.
    pub fn secrets_match(&self, s: &Secrets) -> (r: bool)
        ensures
            r == (s.key@ == self.secret_key()),
    {
        crate::store::bytes_eq(&s.key, &self.secrets.key)
    }

    /// How many blocks the underlying store holds.
    pub fn store_total(&self) -> (r: usize)
        ensures
            r == self.store_size(),
    {
        self.store.block_total()
    }

    /// Spec-level count of stored blocks.
    pub closed spec fn store_size(&self) -> nat {
        self.store.size()
    }

    /// Whether the store holds a block under `l`.
    pub closed spec fn has_block(&self, l: Link) -> bool {
        self.store@.dom().contains(l)
    }

    /// The raw store model.
    pub closed spec fn store_map(&self) -> Map<Link, Seq<u8>> {
        self.store@
    }

    /// A genuine digest collision: the store already holds, under the
    /// link this forest would assign to `m`, a block other than `m`'s
    /// sealed encoding. This is the one condition under which a write
    /// may be refused.
    pub open spec fn collision_on(&self, m: NodeModel) -> bool {
        &&& self.has_block(link_of(self.sealed_of(m)))
        &&& self.store_map()[link_of(self.sealed_of(m))] != self.sealed_of(m)
    }

    /// Bind a store, a branch cache, secrets and a nonce. Does not touch
    /// the store, whose existing blocks (if any) become loadable.
    pub fn new(store: MemStore, cache: BranchCache, secrets: Secrets, nonce: Vec<u8>) -> (r:
        Forest)
        requires
            store.wf(),
            cache.ok_for(store@, secrets.key@, nonce@),
            secrets.wf(),
            nonce@.len() == 24,
        ensures
            r.wf(),
            r.node_map() == Map::<Link, NodeModel>::empty(),
            r.secret_key() == secrets.key@,
            r.nonce_view() == nonce@,
            r.store_size() == store.size(),
            r.store_map() == store@,
    {
        Forest {
            store,
            cache,
            secrets,
            nonce,
            nodes: Ghost(Map::empty()),
        }
    }

    /// Encode, seal and store a node; returns its content link, which is
    /// the digest of the sealed encoding. Identical content yields the
    /// same link and no second store entry. The write fails exactly when
    /// the store already holds a different block under that link: a
    /// digest collision caught by self-verification, and nothing else.
    pub fn persist(&mut self, n: &Node) -> (r: Result<Link, Error>)
        requires
            old(self).wf(),
            node_m_wf(n@),
        ensures
            final(self).wf(),
            final(self).secret_key() == old(self).secret_key(),
            final(self).nonce_view() == old(self).nonce_view(),
            map_incl(old(self).node_map(), final(self).node_map()),
            r matches Ok(l) <==> !old(self).collision_on(n@),
            match r {
                Ok(l) => {
                    &&& l == link_of(old(self).sealed_of(n@))
                    &&& final(self).node_map() == old(self).node_map().insert(l, n@)
                    &&& final(self).store_map() == old(self).store_map().insert(
                        l,
                        old(self).sealed_of(n@),
                    )
                    &&& (old(self).has_block(l) ==> final(self).store_size() == old(
                        self,
                    ).store_size())
                    &&& (!old(self).has_block(l) ==> final(self).store_size() == old(
                        self,
                    ).store_size() + 1)
                    &&& final(self).has_block(l)
                },
                Err(e) => {
                    &&& e == Error::StoreFailure
                    &&& old(self).collision_on(n@)
                    &&& final(self).collision_on(n@)
                    &&& final(self).node_map() == old(self).node_map()
                    &&& final(self).store_map() == old(self).store_map()
                    &&& final(self).store_size() == old(self).store_size()
                },
            },
    {
        let bytes = encode_node(n);
        proof {
            lemma_enc_node_size(n@);
        }
        let sealed = seal_bytes(&self.secrets, &self.nonce, &bytes);
        let ghost sealed_bytes = sealed@;
        let put_r = self.store.put(sealed);
        match put_r {
            Ok(l) => {
                proof {
                    if self.nodes@.dom().contains(l) {
                        let old_m = self.nodes@[l];
                        assert(old(self).store@[l] == old(self).sealed_of(old_m));
                        assert(old(self).store@[l] == sealed_bytes);
                        lemma_seal_injective(
                            self.secrets.key@,
                            self.nonce@,
                            enc_node(old_m),
                            enc_node(n@),
                        );
                        lemma_enc_node_inj(old_m, n@);
                        assert(old_m == n@);
                    }
                    self.cache.lemma_mono(
                        old(self).store@,
                        self.store@,
                        self.secrets.key@,
                        self.nonce@,
                    );
                }
                proof {
                    self.nodes@ = self.nodes@.insert(l, n@);
                }
                proof {
                    assert forall|k: Link| #[trigger] self.nodes@.dom().contains(k) implies
                        self.store@.dom().contains(k) && node_m_wf(self.nodes@[k])
                            && self.store@[k] == self.sealed_of(self.nodes@[k]) by {
                        if k == l {
                        } else {
                            assert(old(self).nodes@.dom().contains(k));
                        }
                    }
                }
                Ok(l)
            },
            Err(e) => Err(e),
        }
    }

    /// Whether the store holds, under `l`, the sealed canonical encoding
    /// of some node for this forest's secrets and nonce: the exact
    /// condition under which a load of `l` returns a node.
    pub open spec fn decodable(&self, l: Link) -> bool {
        &&& self.has_block(l)
        &&& exists|m: NodeModel|
            node_m_wf(m) && self.store_map()[l] == self.sealed_of(m)
    }

    /// Load the node stored under `l`: cache first, then fetch, unseal
    /// and decode. Fails with `NotFound` exactly when the store lacks the
    /// block, and with `Corrupt` exactly when the block is not the sealed
    /// canonical encoding of any node under this forest's secrets and
    /// nonce (wrong secrets, tampered bytes, or foreign content). A link
    /// this forest persisted returns exactly the node persisted under it.
    pub fn load(&mut self, l: Link) -> (r: Result<Node, Error>)
        requires
            old(self).wf(),
        ensures
            final(self).wf(),
            final(self).node_map() == old(self).node_map(),
            final(self).store_map() == old(self).store_map(),
            final(self).secret_key() == old(self).secret_key(),
            final(self).nonce_view() == old(self).nonce_view(),
            final(self).store_size() == old(self).store_size(),
            r matches Ok(n) <==> old(self).decodable(l),
            match r {
                Ok(n) => node_m_wf(n@) && old(self).store_map()[l] == old(self).sealed_of(
                    n@,
                ) && (old(self).node_map().dom().contains(l) ==> n@ == old(
                    self,
                ).node_map()[l]),
                Err(e) => {
                    &&& (e == Error::NotFound <==> !old(self).has_block(l))
                    &&& (e == Error::Corrupt <==> old(self).has_block(l) && !old(
                        self,
                    ).decodable(l))
                    &&& !old(self).node_map().dom().contains(l)
                },
            },
    {
        proof {
            if self.nodes@.dom().contains(l) {
                assert(self.store@.dom().contains(l));
                assert(self.decodable(l));
            }
        }
        let hit = self.cache.lookup(
            l,
            Ghost(self.store@),
            Ghost(self.secrets.key@),
            Ghost(self.nonce@),
        );
        match hit {
            Some(n) => {
                proof {
                    self.lemma_same_sealed_same_node(l, n@);
                }
                return Ok(n);
            },
            None => {
            },
        }
        let got = self.store.get(l);
        let sealed = match got {
            Ok(sealed) => sealed,
            Err(_) => {
                return Err(Error::NotFound);
            },
        };
        proof {
            assert(self.store@.dom().contains(l));
            if self.decodable(l) {
                let m = choose|m: NodeModel|
                    node_m_wf(m) && self.store@[l] == self.sealed_of(m);
                lemma_enc_node_size(m);
                lemma_seal_involution(self.secrets.key@, self.nonce@, enc_node(m));
            }
        }
        if sealed.len() > SEAL_MAX {
            proof {
                assert(!self.decodable(l));
            }
            return Err(Error::Corrupt);
        }
        let plain = seal_bytes(&self.secrets, &self.nonce, &sealed);
        let ghost wm: Option<NodeModel> = if self.decodable(l) {
            Option::Some(
                choose|m: NodeModel| node_m_wf(m) && self.store@[l] == self.sealed_of(m),
            )
        } else {
            Option::None
        };
        let decoded = decode_node(&plain, Ghost(wm));
        match decoded {
            Some(n) => {
                proof {
                    lemma_seal_involution(self.secrets.key@, self.nonce@, sealed@);
                    assert(spec_seal(self.secrets.key@, self.nonce@, plain@) == sealed@);
                    assert(self.store@[l] == self.sealed_of(n@));
                    assert(self.decodable(l));
                    self.lemma_same_sealed_same_node(l, n@);
                }
                let keep = match &n {
                    Node::Branch { .. } => true,
                    Node::Leaf { .. } => false,
                };
                if keep {
                    let copy = copy_node(&n);
                    self.cache.insert(
                        l,
                        copy,
                        Ghost(self.store@),
                        Ghost(self.secrets.key@),
                        Ghost(self.nonce@),
                    );
                }
                Ok(n)
            },
            None => {
                proof {
                    assert(!self.decodable(l));
                }
                Err(Error::Corrupt)
            },
        }
    }

    /// A node whose sealed encoding is the block under `l` agrees with
    /// whatever this forest persisted under `l`.
    proof fn lemma_same_sealed_same_node(&self, l: Link, m: NodeModel)
        requires
            self.wf(),
            node_m_wf(m),
            self.store@.dom().contains(l),
            self.store@[l] == self.sealed_of(m),
        ensures
            self.nodes@.dom().contains(l) ==> m == self.nodes@[l],
    {
        if self.nodes@.dom().contains(l) {
            assert(self.store@[l] == self.sealed_of(self.nodes@[l]));
            lemma_seal_injective(
                self.secrets.key@,
                self.nonce@,
                enc_node(m),
                enc_node(self.nodes@[l]),
            );
            lemma_enc_node_inj(m, self.nodes@[l]);
        }
    }

    /// Tear the forest down to its store, for rebinding to a new forest.
    pub fn into_store(self) -> (r: MemStore)
        requires
            self.wf(),
        ensures
            r.wf(),
            r@ == self.store_map(),
    {
        let Forest { store, .. } = self;
        store
    }
}

/// Sealing depends only on the bound secrets and nonce.
pub proof fn lemma_sealed_stable(f1: &Forest, f2: &Forest, m: NodeModel)
    requires
        f1.secret_key() == f2.secret_key(),
        f1.nonce_view() == f2.nonce_view(),
    ensures
        f1.sealed_of(m) == f2.sealed_of(m),
{
}

} // verus!
