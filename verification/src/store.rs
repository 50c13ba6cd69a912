//! The in-memory content-addressed block store: `put` stores bytes under
//! their digest link (deduplicating identical content and catching digest
//! collisions by self-verification), `get` returns them by link.

use vstd::prelude::*;
use crate::types::{Link, Error};
use crate::digest::{link_of, digest_link};

verus! {

/// An in-memory block store. Its model is the map from links to block
/// bytes; every stored block sits under the digest link of its bytes, and
/// links are pairwise distinct.
pub struct MemStore {
    links: Vec<Link>,
    blocks: Vec<Vec<u8>>,
}

impl MemStore {
    /// The store map restricted to the first `n` blocks.
    pub closed spec fn map_upto(&self, n: int) -> Map<Link, Seq<u8>>
        decreases n,
    {
        if n <= 0 {
            Map::empty()
        } else {
            self.map_upto(n - 1).insert(self.links@[n - 1], self.blocks@[n - 1]@)
        }
    }

    /// Well-formedness: parallel columns, content-addressed links,
    /// pairwise-distinct links.
    pub closed spec fn wf(&self) -> bool {
        &&& self.links@.len() == self.blocks@.len()
        &&& forall|i: int|
            0 <= i < self.links@.len() ==> #[trigger] self.links@[i] == link_of(
                self.blocks@[i]@,
            )
        &&& forall|i: int, j: int|
            0 <= i < j < self.links@.len() ==> self.links@[i] != self.links@[j]
    }

    /// How many distinct blocks the store holds.
    pub fn block_total(&self) -> (r: usize)
        ensures
            r == self.size(),
    {
        self.links.len()
    }

    /// Spec-level count of stored blocks.
    pub closed spec fn size(&self) -> nat {
        self.links@.len()
    }

    proof fn lemma_map_upto_entry(&self, n: int, i: int)
        requires
            self.wf(),
            0 <= i < n <= self.links@.len(),
        ensures
            self.map_upto(n).dom().contains(self.links@[i]),
            self.map_upto(n)[self.links@[i]] == self.blocks@[i]@,
        decreases n,
    {
        if i < n - 1 {
            self.lemma_map_upto_entry(n - 1, i);
        }
    }

    proof fn lemma_map_upto_dom(&self, n: int, l: Link)
        requires
            0 <= n <= self.links@.len(),
            self.map_upto(n).dom().contains(l),
        ensures
            exists|i: int| 0 <= i < n && self.links@[i] == l,
        decreases n,
    {
        if n > 0 {
            if self.links@[n - 1] == l {
            } else {
                self.lemma_map_upto_dom(n - 1, l);
            }
        }
    }

    /// An absent link (no row carries it) is absent from the model.
    proof fn lemma_absent(&self, l: Link)
        requires
            forall|i: int| 0 <= i < self.links@.len() ==> self.links@[i] != l,
        ensures
            !self@.dom().contains(l),
    {
        if self@.dom().contains(l) {
            self.lemma_map_upto_dom(self.links@.len() as int, l);
        }
    }

    /// Create an empty store.
    pub fn new() -> (r: MemStore)
        ensures
            r.wf(),
            r@ == Map::<Link, Seq<u8>>::empty(),
            r.size() == 0,
    {
        MemStore { links: Vec::new(), blocks: Vec::new() }
    }

    /// Fetch the block stored under `l`. Fails with `NotFound` exactly when
    /// the store has no such block.
    pub fn get(&self, l: Link) -> (r: Result<Vec<u8>, Error>)
        requires
            self.wf(),
        ensures
            match r {
                Ok(bb) => self@.dom().contains(l) && bb@ == self@[l],
                Err(e) => e == Error::NotFound && !self@.dom().contains(l),
            },
    {
        let total = self.links.len();
        let mut i: usize = 0;
        while i < total
            invariant
                self.wf(),
                total == self.links@.len(),
                i <= total,
                forall|j: int| 0 <= j < i ==> self.links@[j] != l,
            decreases total - i,
        {
            if self.links[i] == l {
                proof {
                    self.lemma_map_upto_entry(self.links@.len() as int, i as int);
                }
                return Ok(crate::types::copy_bytes(&self.blocks[i]));
            }
            i = i + 1;
        }
        proof {
            self.lemma_absent(l);
        }
        Err(Error::NotFound)
    }

    /// Store a block under the digest link of its bytes. Identical content
    /// is stored once and yields the same link; a digest collision (same
    /// link, different bytes) is caught and refused.
    pub fn put(&mut self, b: Vec<u8>) -> (r: Result<Link, Error>)
        requires
            old(self).wf(),
        ensures
            final(self).wf(),
            match r {
                Ok(l) => {
                    &&& l == link_of(b@)
                    &&& (!old(self)@.dom().contains(l) || old(self)@[l] == b@)
                    &&& final(self)@ == old(self)@.insert(l, b@)
                    &&& (old(self)@.dom().contains(l) ==> final(self).size() == old(
                        self,
                    ).size())
                    &&& (!old(self)@.dom().contains(l) ==> final(self).size() == old(
                        self,
                    ).size() + 1)
                },
                Err(e) => {
                    &&& e == Error::StoreFailure
                    &&& old(self)@.dom().contains(link_of(b@))
                    &&& old(self)@[link_of(b@)] != b@
                    &&& final(self)@ == old(self)@
                    &&& final(self).size() == old(self).size()
                },
            },
    {
        let lk = digest_link(&b);
        let total = self.links.len();
        let mut i: usize = 0;
        while i < total
            invariant
                self.wf(),
                self == old(self),
                total == self.links@.len(),
                i <= total,
                lk == link_of(b@),
                forall|j: int| 0 <= j < i ==> self.links@[j] != lk,
            decreases total - i,
        {
            if self.links[i] == lk {
                proof {
                    self.lemma_map_upto_entry(self.links@.len() as int, i as int);
                }
                if bytes_eq(&self.blocks[i], &b) {
                    proof {
                        assert(self@ =~= old(self)@.insert(lk, b@));
                    }
                    return Ok(lk);
                } else {
                    return Err(Error::StoreFailure);
                }
            }
            i = i + 1;
        }
        proof {
            self.lemma_absent(lk);
        }
        self.links.push(lk);
        self.blocks.push(b);
        proof {
            let n = self.links@.len() as int;
            assert(self.links@[n - 1] == lk);
            assert(forall|j: int| 0 <= j < n - 1 ==> self.links@[j] == old(self).links@[j]);
            assert(forall|j: int| 0 <= j < n - 1 ==> self.blocks@[j] == old(self).blocks@[j]);
            self.lemma_same_prefix_map(*old(self), n - 1);
            assert(self@ == self.map_upto(n));
        }
        Ok(lk)
    }

    /// Two stores agreeing on their first `n` rows have the same partial
    /// model.
    proof fn lemma_same_prefix_map(&self, other: MemStore, n: int)
        requires
            0 <= n <= self.links@.len(),
            n <= other.links@.len(),
            forall|j: int| 0 <= j < n ==> self.links@[j] == other.links@[j],
            forall|j: int| 0 <= j < n ==> self.blocks@[j] == other.blocks@[j],
        ensures
            self.map_upto(n) == other.map_upto(n),
        decreases n,
    {
        if n > 0 {
            self.lemma_same_prefix_map(other, n - 1);
        }
    }
}

impl View for MemStore {
    type V = Map<Link, Seq<u8>>;

    closed spec fn view(&self) -> Map<Link, Seq<u8>> {
        self.map_upto(self.links@.len() as int)
    }
}

/// Byte-string equality.
pub fn bytes_eq(a: &Vec<u8>, b: &Vec<u8>) -> (r: bool)
    ensures
        r == (a@ == b@),
{
    if a.len() != b.len() {
        return false;
    }
    let mut i: usize = 0;
    while i < a.len()
        invariant
            a@.len() == b@.len(),
            i <= a@.len(),
            forall|j: int| 0 <= j < i ==> a@[j] == b@[j],
        decreases a@.len() - i,
    {
        if a[i] != b[i] {
            return false;
        }
        i = i + 1;
    }
    proof {
        assert(a@ =~= b@);
    }
    true
}

} // verus!
