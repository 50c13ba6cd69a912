//! The transaction: the session object through which entries are appended
//! into a builder and trees are read back, in full or pruned by a query.

use vstd::prelude::*;
use crate::types::{Key, Summary, Link, Entry, EntryModel, Node, NodeModel, ChildRef, Error,
    Query, LeafIndex, BranchIndex, copy_bytes, q_matches, q_may_match, lemma_prune_sound};
use crate::forest::Forest;
use crate::builder::{StreamBuilder, Tree, tree_valid, tree_entries, models_of,
    lemma_refs_count_prefix, lemma_refs_count_push, COUNT_MAX};
use crate::semantics::{ref_wf, ref_entries, refs_entries, refs_count, map_incl, with_offsets,
    filter_q, lemma_refs_entries_push, lemma_ref_count, lemma_refs_count, lemma_ref_covers,
    lemma_with_offsets_concat, lemma_filter_q_concat, lemma_filter_q_none, lemma_filter_q_push,
    lemma_skip_concat_low, lemma_skip_concat_high, lemma_with_offsets_skip,
    lemma_ref_nonempty};
use crate::codec::entry_m_wf;

verus! {

/// Output rows agree with model rows: same offsets, keys and value bytes.
pub open spec fn rows_match(rows: Seq<(u64, Key, Vec<u8>)>, items: Seq<(u64, Key, Seq<u8>)>)
    -> bool {
    &&& rows.len() == items.len()
    &&& forall|i: int|
        0 <= i < rows.len() ==> (#[trigger] rows[i]).0 == items[i].0 && rows[i].1
            == items[i].1 && rows[i].2@ == items[i].2
}

/// `post` is `pre` with rows for `items` appended.
pub open spec fn appended_rows(
    pre: Seq<(u64, Key, Vec<u8>)>,
    post: Seq<(u64, Key, Vec<u8>)>,
    items: Seq<(u64, Key, Seq<u8>)>,
) -> bool {
    &&& post.len() == pre.len() + items.len()
    &&& post.subrange(0, pre.len() as int) == pre
    &&& rows_match(post.skip(pre.len() as int), items)
}

/// The read/write session: a forest plus write access to its store.
pub struct Transaction {
    forest: Forest,
}

impl Transaction {
    /// The forest's link-to-node map.
    pub closed spec fn node_map(&self) -> Map<Link, NodeModel> {
        self.forest.node_map()
    }

    /// Session well-formedness.
    pub closed spec fn wf(&self) -> bool {
        self.forest.wf()
    }

    /// The key material the session's forest decrypts with.
    pub closed spec fn secret_key(&self) -> Seq<u8> {
        self.forest.secret_key()
    }

    /// A genuine digest collision in the session's store: the block under
    /// the link the forest would assign to `m` differs from `m`'s sealed
    /// encoding. The one condition under which a write may be refused.
    pub closed spec fn collision_evident(&self, m: NodeModel) -> bool {
        self.forest.collision_on(m)
    }

    /// Open a session over a forest.
    pub fn new(forest: Forest) -> (r: Transaction)
        requires
            forest.wf(),
        ensures
            r.wf(),
            r.node_map() == forest.node_map(),
            r.secret_key() == forest.secret_key(),
    {
        Transaction { forest }
    }

    /// Append entries through the builder; see
    /// [`StreamBuilder::append`] for the exact append semantics. Fails
    /// with `Corrupt` exactly when the builder's secrets are not the
    /// session's, and with `StoreFailure` only on a genuine digest
    /// collision; a failed append keeps every already-sealed node, an
    /// initial part of the entries, and a stale but still valid snapshot
    /// handle.
    pub fn extend(&mut self, builder: &mut StreamBuilder, entries: Vec<Entry>) -> (r: Result<
        (),
        Error,
    >)
        requires
            old(self).wf(),
            old(builder).wf_for(old(self).node_map()),
            forall|i: int| 0 <= i < entries@.len() ==> entry_m_wf(#[trigger] entries@[i]@),
            old(builder).denote(old(self).node_map()).len() + entries@.len() <= COUNT_MAX,
        ensures
            final(self).wf(),
            final(self).secret_key() == old(self).secret_key(),
            map_incl(old(self).node_map(), final(self).node_map()),
            final(builder).config_spec() == old(builder).config_spec(),
            final(builder).secret_key() == old(builder).secret_key(),
            old(builder).secret_key() != old(self).secret_key() ==> r == Err::<(), Error>(
                Error::Corrupt,
            ),
            match r {
                Ok(u) => {
                    &&& final(builder).wf_for(final(self).node_map())
                    &&& final(builder).denote(final(self).node_map()) == old(builder).denote(
                        old(self).node_map(),
                    ) + models_of(entries@)
                },
                Err(e) => {
                    &&& (e == Error::Corrupt || e == Error::StoreFailure)
                    &&& (e == Error::Corrupt ==> old(builder).secret_key()
                        != old(self).secret_key() && *final(builder) == *old(builder)
                        && final(self).node_map() == old(self).node_map())
                    &&& (e == Error::StoreFailure ==> final(builder).core_wf(
                        final(self).node_map(),
                    ) && tree_valid(final(self).node_map(), final(builder).current_tree())
                        && (exists|m: NodeModel| final(self).collision_evident(m)) && (
                    exists|k: int|
                        0 <= k <= entries@.len() && final(builder).denote(
                            final(self).node_map(),
                        ) == old(builder).denote(old(self).node_map()) + models_of(
                            entries@.take(k),
                        )))
                },
            },
    {
        let r = builder.append(&mut self.forest, entries);
        proof {
            match r {
                Ok(u) => {
                },
                Err(e) => {
                    if e == Error::StoreFailure {
                        let m = choose|m: NodeModel| self.forest.collision_on(m);
                        assert(self.collision_evident(m));
                    }
                },
            }
        }
        r
    }

    /// Traverse a tree in order, returning every `(offset, key, value)`
    /// row starting from logical offset 0. For any tree this session's
    /// forest built (a valid handle), the rows are exactly the tree's
    /// entries with offsets `0..count`.
    pub fn iter_from(&mut self, tree: &Tree) -> (r: Result<Vec<(u64, Key, Vec<u8>)>, Error>)
        requires
            old(self).wf(),
        ensures
            final(self).wf(),
            final(self).node_map() == old(self).node_map(),
            final(self).secret_key() == old(self).secret_key(),
            tree_valid(old(self).node_map(), *tree) ==> (r matches Ok(v) && rows_match(
                v@,
                with_offsets(tree_entries(old(self).node_map(), *tree), 0),
            )),
    {
        let ghost nm = self.node_map();
        match tree.root {
            Option::None => {
                let out: Vec<(u64, Key, Vec<u8>)> = Vec::new();
                proof {
                    if tree_valid(nm, *tree) {
                        assert(rows_match(out@, with_offsets(tree_entries(nm, *tree), 0)));
                    }
                }
                Ok(out)
            },
            Option::Some(l) => {
                let ghost gw: Option<ChildRef> = if tree_valid(nm, *tree) {
                    Option::Some(
                        ChildRef {
                            link: l,
                            count: tree.count,
                            level: tree.level,
                            summary: choose|s: Summary|
                                ref_wf(
                                    nm,
                                    ChildRef {
                                        link: l,
                                        count: tree.count,
                                        level: tree.level,
                                        summary: s,
                                    },
                                    tree.level as nat,
                                ),
                        },
                    )
                } else {
                    Option::None
                };
                let mut out: Vec<(u64, Key, Vec<u8>)> = Vec::new();
                let cr = collect_ref(&mut self.forest, l, tree.level, 0, &mut out, Ghost(gw));
                match cr {
                    Ok(u) => {
                        proof {
                            if tree_valid(nm, *tree) {
                                let gr = gw->Some_0;
                                assert(tree_entries(nm, *tree) == ref_entries(
                                    nm,
                                    gr,
                                    tree.level as nat,
                                ));
                                assert(out@.skip(0) =~= out@);
                            }
                        }
                        Ok(out)
                    },
                    Err(e) => {
                        Err(e)
                    },
                }
            },
        }
    }


    /// Traverse a tree in order starting at logical offset `start` (rows
    /// before it are skipped without fetching the subtrees that hold
    /// them, by their cached counts). A `start` past the end yields
    /// nothing. For a valid handle the rows are exactly the full
    /// traversal's rows from `start` on.
    pub fn iter_from_offset(&mut self, tree: &Tree, start: u64) -> (r: Result<
        Vec<(u64, Key, Vec<u8>)>,
        Error,
    >)
        requires
            old(self).wf(),
        ensures
            final(self).wf(),
            final(self).node_map() == old(self).node_map(),
            final(self).secret_key() == old(self).secret_key(),
            tree_valid(old(self).node_map(), *tree) ==> (r matches Ok(v) && rows_match(
                v@,
                with_offsets(tree_entries(old(self).node_map(), *tree), 0).skip(
                    if start <= tree.count {
                        start as int
                    } else {
                        tree.count as int
                    },
                ),
            )),
    {
        let ghost nm = self.node_map();
        let s = if start > tree.count {
            tree.count
        } else {
            start
        };
        match tree.root {
            Option::None => {
                let out: Vec<(u64, Key, Vec<u8>)> = Vec::new();
                proof {
                    if tree_valid(nm, *tree) {
                        assert(tree_entries(nm, *tree) =~= Seq::<EntryModel>::empty());
                        assert(with_offsets(tree_entries(nm, *tree), 0).skip(0) =~= Seq::<(
                            u64,
                            Key,
                            Seq<u8>,
                        )>::empty());
                    }
                }
                Ok(out)
            },
            Option::Some(l) => {
                let ghost gw: Option<ChildRef> = if tree_valid(nm, *tree) {
                    Option::Some(
                        ChildRef {
                            link: l,
                            count: tree.count,
                            level: tree.level,
                            summary: choose|s0: Summary|
                                ref_wf(
                                    nm,
                                    ChildRef {
                                        link: l,
                                        count: tree.count,
                                        level: tree.level,
                                        summary: s0,
                                    },
                                    tree.level as nat,
                                ),
                        },
                    )
                } else {
                    Option::None
                };
                let mut out: Vec<(u64, Key, Vec<u8>)> = Vec::new();
                let cr = collect_skip(&mut self.forest, l, tree.level, 0, s, &mut out, Ghost(
                    gw,
                ));
                match cr {
                    Ok(u) => {
                        proof {
                            if tree_valid(nm, *tree) {
                                let gr = gw->Some_0;
                                let es = ref_entries(nm, gr, tree.level as nat);
                                assert(tree_entries(nm, *tree) == es);
                                lemma_ref_count(nm, gr, tree.level as nat);
                                lemma_with_offsets_skip(es, 0, s as int);
                                assert(out@.skip(0) =~= out@);
                            }
                        }
                        Ok(out)
                    },
                    Err(e) => {
                        Err(e)
                    },
                }
            },
        }
    }

    /// Traverse a tree pruned by a query: a subtree is skipped when the
    /// query rejects its summary, a leaf entry when it rejects its key.
    /// For a valid handle the rows are exactly the full traversal's rows
    /// filtered by the query's key predicate: pruning loses nothing and
    /// adds nothing.
    pub fn iter_filtered(&mut self, tree: &Tree, query: Query) -> (r: Result<
        Vec<(u64, Key, Vec<u8>)>,
        Error,
    >)
        requires
            old(self).wf(),
        ensures
            final(self).wf(),
            final(self).node_map() == old(self).node_map(),
            final(self).secret_key() == old(self).secret_key(),
            tree_valid(old(self).node_map(), *tree) ==> (r matches Ok(v) && rows_match(
                v@,
                filter_q(with_offsets(tree_entries(old(self).node_map(), *tree), 0), query),
            )),
    {
        let ghost nm = self.node_map();
        match tree.root {
            Option::None => {
                let out: Vec<(u64, Key, Vec<u8>)> = Vec::new();
                proof {
                    if tree_valid(nm, *tree) {
                        assert(rows_match(out@, filter_q(with_offsets(tree_entries(nm, *tree), 0),
                            query)));
                    }
                }
                Ok(out)
            },
            Option::Some(l) => {
                let ghost gw: Option<ChildRef> = if tree_valid(nm, *tree) {
                    Option::Some(
                        ChildRef {
                            link: l,
                            count: tree.count,
                            level: tree.level,
                            summary: choose|s: Summary|
                                ref_wf(
                                    nm,
                                    ChildRef {
                                        link: l,
                                        count: tree.count,
                                        level: tree.level,
                                        summary: s,
                                    },
                                    tree.level as nat,
                                ),
                        },
                    )
                } else {
                    Option::None
                };
                let mut out: Vec<(u64, Key, Vec<u8>)> = Vec::new();
                let cr = collect_filtered(
                    &mut self.forest,
                    l,
                    tree.level,
                    0,
                    query,
                    &mut out,
                    Ghost(gw),
                );
                match cr {
                    Ok(u) => {
                        proof {
                            if tree_valid(nm, *tree) {
                                let gr = gw->Some_0;
                                assert(tree_entries(nm, *tree) == ref_entries(
                                    nm,
                                    gr,
                                    tree.level as nat,
                                ));
                                assert(out@.skip(0) =~= out@);
                            }
                        }
                        Ok(out)
                    },
                    Err(e) => {
                        Err(e)
                    },
                }
            },
        }
    }
}

/// Collect every row beneath a subtree, in order, offsets starting at
/// `offset`. The ghost witness carries the subtree's well-formedness; with
/// it, collection cannot fail and is exact.
#[verifier::loop_isolation(false)]
fn collect_ref(
    forest: &mut Forest,
    link: Link,
    level: u64,
    offset: u64,
    out: &mut Vec<(u64, Key, Vec<u8>)>,
    Ghost(w): Ghost<Option<ChildRef>>,
) -> (r: Result<(), Error>)
    requires
        old(forest).wf(),
        w matches Some(g) ==> g.link == link && g.level == level && ref_wf(
            old(forest).node_map(),
            g,
            level as nat,
        ) && offset + g.count <= u64::MAX,
    ensures
        final(forest).wf(),
        final(forest).node_map() == old(forest).node_map(),
        final(forest).store_map() == old(forest).store_map(),
        final(forest).secret_key() == old(forest).secret_key(),
        final(forest).nonce_view() == old(forest).nonce_view(),
        w matches Some(g) ==> (r matches Ok(u) && appended_rows(
            old(out)@,
            final(out)@,
            with_offsets(ref_entries(old(forest).node_map(), g, level as nat), offset as int),
        )),
    decreases level,
{
    let ghost nm = forest.node_map();
    let loaded = forest.load(link);
    let node = match loaded {
        Ok(n) => n,
        Err(e) => {
            proof {
                if let Some(g) = w {
                    assert(false);
                }
            }
            return Err(e);
        },
    };
    proof {
        if let Some(g) = w {
            assert(node@ == nm[link]);
        }
    }
    match node {
        Node::Leaf { entries } => {
            if level != 0 {
                proof {
                    if let Some(g) = w {
                        assert(false);
                    }
                }
                return Err(Error::Corrupt);
            }
            let n = entries.len();
            if n as u64 > u64::MAX - offset {
                proof {
                    if let Some(g) = w {
                        lemma_ref_count(nm, g, 0);
                        assert(false);
                    }
                }
                return Err(Error::Corrupt);
            }
            let ghost ems = entries@.map_values(|e: Entry| e@);
            let ghost base = out@;
            let mut i: usize = 0;
            while i < n
                invariant
                    i <= n,
                    n == entries@.len(),
                    n as u64 <= u64::MAX - offset,
                    ems == entries@.map_values(|e: Entry| e@),
                    out@.len() == base.len() + i,
                    out@.subrange(0, base.len() as int) == base,
                    rows_match(out@.skip(base.len() as int), with_offsets(ems.take(
                        i as int,
                    ), offset as int)),
                decreases n - i,
            {
                let ghost prev = out@;
                out.push(((offset + i as u64), entries[i].key, copy_bytes(&entries[i].value)));
                proof {
                    assert(out@.subrange(0, base.len() as int) =~= base);
                    let got = out@.skip(base.len() as int);
                    let want = with_offsets(ems.take(i as int + 1), offset as int);
                    assert(got.len() == want.len());
                    assert forall|j: int| 0 <= j < got.len() implies (#[trigger] got[j]).0
                        == want[j].0 && got[j].1 == want[j].1 && got[j].2@ == want[j].2 by {
                        if j < i {
                            assert(out@[base.len() as int + j] == prev[base.len() as int + j]);
                            assert(got[j] == prev.skip(base.len() as int)[j]);
                            assert(want[j] == with_offsets(ems.take(i as int), offset as int)[j]);
                        } else {
                            assert(got[j] == out@[out@.len() - 1]);
                            assert(ems[i as int] == entries@[i as int]@);
                        }
                    }
                }
                i = i + 1;
            }
            proof {
                if let Some(g) = w {
                    assert(ems.take(n as int) =~= ems);
                    assert(ref_entries(nm, g, level as nat) == ems);
                }
            }
            Ok(())
        },
        Node::Branch { children } => {
            if level == 0 {
                proof {
                    if let Some(g) = w {
                        assert(false);
                    }
                }
                return Err(Error::Corrupt);
            }
            let ghost cs = children@;
            proof {
                if let Some(g) = w {
                    lemma_refs_count(nm, cs, (level - 1) as nat);
                    lemma_ref_count(nm, g, level as nat);
                }
            }
            let ghost base = out@;
            let mut off = offset;
            let mut i: usize = 0;
            while i < children.len()
                invariant
                    i <= cs.len(),
                    children@ == cs,
                    forest.wf(),
                    forest.node_map() == nm,
                    forest.store_map() == old(forest).store_map(),
                    forest.secret_key() == old(forest).secret_key(),
                    forest.nonce_view() == old(forest).nonce_view(),
                    w matches Some(g) ==> {
                        &&& off == offset + refs_count(cs.take(i as int))
                        &&& off <= offset + g.count
                        &&& offset + g.count <= u64::MAX
                        &&& out@.len() == base.len() + refs_entries(
                            nm,
                            cs.take(i as int),
                            (level - 1) as nat,
                        ).len()
                        &&& out@.subrange(0, base.len() as int) == base
                        &&& rows_match(out@.skip(base.len() as int), with_offsets(
                            refs_entries(nm, cs.take(i as int), (level - 1) as nat),
                            offset as int,
                        ))
                    },
                decreases cs.len() - i,
            {
                let c = children[i];
                if c.level != level - 1 {
                    proof {
                        if let Some(g) = w {
                            assert(ref_wf(nm, cs[i as int], (level - 1) as nat));
                            assert(false);
                        }
                    }
                    return Err(Error::Corrupt);
                }
                if c.count > u64::MAX - off {
                    proof {
                        if let Some(g) = w {
                            lemma_refs_count_push(cs.take(i as int), cs[i as int]);
                            assert(cs.take(i as int).push(cs[i as int]) =~= cs.take(
                                i as int + 1,
                            ));
                            lemma_refs_count_prefix(cs, i as int + 1);
                            crate::builder::lemma_refs_count_nonneg(cs.skip(i as int + 1));
                            assert(false);
                        }
                    }
                    return Err(Error::Corrupt);
                }
                let ghost cw: Option<ChildRef> = if w matches Some(g) {
                    Option::Some(cs[i as int])
                } else {
                    Option::None
                };
                proof {
                    if let Some(g) = w {
                        assert(ref_wf(nm, cs[i as int], (level - 1) as nat));
                        lemma_refs_count_push(cs.take(i as int), cs[i as int]);
                        assert(cs.take(i as int).push(cs[i as int]) =~= cs.take(i as int + 1));
                        lemma_refs_count_prefix(cs, i as int + 1);
                        lemma_ref_count(nm, cs[i as int], (level - 1) as nat);
                    }
                }
                let ghost prev = out@;
                let sub = collect_ref(forest, c.link, c.level, off, out, Ghost(cw));
                match sub {
                    Ok(u) => {
                    },
                    Err(e) => {
                        proof {
                            if let Some(g) = w {
                                assert(false);
                            }
                        }
                        return Err(e);
                    },
                }
                proof {
                    if let Some(g) = w {
                        let pre = refs_entries(nm, cs.take(i as int), (level - 1) as nat);
                        let ce = ref_entries(nm, cs[i as int], (level - 1) as nat);
                        assert forall|j: int|
                            0 <= j < cs.take(i as int).len() implies ref_wf(
                            nm,
                            #[trigger] cs.take(i as int)[j],
                            (level - 1) as nat,
                        ) by {
                            assert(cs.take(i as int)[j] == cs[j]);
                        }
                        lemma_refs_count(nm, cs.take(i as int), (level - 1) as nat);
                        assert(pre.len() == refs_count(cs.take(i as int)));
                        assert(off == offset + pre.len());
                        lemma_refs_entries_push(nm, cs.take(i as int), cs[i as int], (level
                            - 1) as nat);
                        assert(cs.take(i as int).push(cs[i as int]) =~= cs.take(i as int + 1));
                        lemma_with_offsets_concat(pre, ce, offset as int);
                        let got = out@.skip(base.len() as int);
                        let want = with_offsets(refs_entries(nm, cs.take(i as int + 1), (level
                            - 1) as nat), offset as int);
                        assert(out@.subrange(0, base.len() as int) =~= base);
                        assert(prev.len() == base.len() + pre.len());
                        assert(got.len() == want.len());
                        assert forall|j: int| 0 <= j < got.len() implies (#[trigger] got[j]).0
                            == want[j].0 && got[j].1 == want[j].1 && got[j].2@ == want[j].2 by {
                            if j < pre.len() {
                                assert(out@[base.len() as int + j] == out@.subrange(
                                    0,
                                    prev.len() as int,
                                )[base.len() as int + j]);
                                assert(got[j] == prev.skip(base.len() as int)[j]);
                                assert(want[j] == with_offsets(pre, offset as int)[j]);
                            } else {
                                assert(got[j] == out@.skip(prev.len() as int)[j - pre.len()]);
                                assert(want[j] == with_offsets(ce, off as int)[j - pre.len()]);
                            }
                        }
                    }
                }
                off = off + c.count;
                i = i + 1;
            }
            proof {
                if let Some(g) = w {
                    assert(cs.take(cs.len() as int) =~= cs);
                    assert(ref_entries(nm, g, level as nat) == refs_entries(
                        nm,
                        cs,
                        (level - 1) as nat,
                    ));
                }
            }
            Ok(())
        },
    }
}

/// Collect the rows beneath a subtree that the query selects, skipping
/// whole children whose summaries the query rejects.
#[verifier::loop_isolation(false)]
fn collect_filtered(
    forest: &mut Forest,
    link: Link,
    level: u64,
    offset: u64,
    query: Query,
    out: &mut Vec<(u64, Key, Vec<u8>)>,
    Ghost(w): Ghost<Option<ChildRef>>,
) -> (r: Result<(), Error>)
    requires
        old(forest).wf(),
        w matches Some(g) ==> g.link == link && g.level == level && ref_wf(
            old(forest).node_map(),
            g,
            level as nat,
        ) && offset + g.count <= u64::MAX,
    ensures
        final(forest).wf(),
        final(forest).node_map() == old(forest).node_map(),
        final(forest).store_map() == old(forest).store_map(),
        final(forest).secret_key() == old(forest).secret_key(),
        final(forest).nonce_view() == old(forest).nonce_view(),
        w matches Some(g) ==> (r matches Ok(u) && appended_rows(
            old(out)@,
            final(out)@,
            filter_q(
                with_offsets(ref_entries(old(forest).node_map(), g, level as nat), offset as int),
                query,
            ),
        )),
    decreases level,
{
    let ghost nm = forest.node_map();
    let loaded = forest.load(link);
    let node = match loaded {
        Ok(n) => n,
        Err(e) => {
            proof {
                if let Some(g) = w {
                    assert(false);
                }
            }
            return Err(e);
        },
    };
    proof {
        if let Some(g) = w {
            assert(node@ == nm[link]);
        }
    }
    match node {
        Node::Leaf { entries } => {
            if level != 0 {
                proof {
                    if let Some(g) = w {
                        assert(false);
                    }
                }
                return Err(Error::Corrupt);
            }
            let n = entries.len();
            if n as u64 > u64::MAX - offset {
                proof {
                    if let Some(g) = w {
                        lemma_ref_count(nm, g, 0);
                        assert(false);
                    }
                }
                return Err(Error::Corrupt);
            }
            let mut keys: Vec<Key> = Vec::new();
            let mut i: usize = 0;
            while i < n
                invariant
                    i <= n,
                    n == entries@.len(),
                    keys@.len() == i,
                    forall|j: int| 0 <= j < i ==> keys@[j] == entries@[j].key,
                decreases n - i,
            {
                keys.push(entries[i].key);
                i = i + 1;
            }
            let index = LeafIndex { keys };
            let mut flags: Vec<bool> = Vec::new();
            i = 0;
            while i < n
                invariant
                    i <= n,
                    flags@.len() == i,
                decreases n - i,
            {
                flags.push(false);
                i = i + 1;
            }
            query.containing(offset, &index, &mut flags);
            let ghost ems = entries@.map_values(|e: Entry| e@);
            let ghost base = out@;
            i = 0;
            while i < n
                invariant
                    i <= n,
                    n == entries@.len(),
                    n as u64 <= u64::MAX - offset,
                    ems == entries@.map_values(|e: Entry| e@),
                    flags@.len() == n,
                    index.keys@.len() == n,
                    forall|j: int| 0 <= j < n ==> index.keys@[j] == entries@[j].key,
                    forall|j: int|
                        0 <= j < n ==> flags@[j] == q_matches(query, index.keys@[j]),
                    out@.subrange(0, base.len() as int) == base,
                    base.len() <= out@.len(),
                    rows_match(out@.skip(base.len() as int), filter_q(
                        with_offsets(ems.take(i as int), offset as int),
                        query,
                    )),
                decreases n - i,
            {
                proof {
                    let rows = with_offsets(ems.take(i as int + 1), offset as int);
                    assert(rows.drop_last() =~= with_offsets(ems.take(i as int), offset as int));
                    lemma_filter_q_push(
                        with_offsets(ems.take(i as int), offset as int),
                        rows.last(),
                        query,
                    );
                    assert(with_offsets(ems.take(i as int), offset as int).push(rows.last())
                        =~= rows);
                    assert(rows.last().1 == ems[i as int].key);
                }
                if flags[i] {
                    let ghost prev = out@;
                    out.push(((offset + i as u64), entries[i].key, copy_bytes(
                        &entries[i].value,
                    )));
                    proof {
                        assert(out@.subrange(0, base.len() as int) =~= base);
                        let got = out@.skip(base.len() as int);
                        let want = filter_q(with_offsets(ems.take(i as int + 1), offset as int),
                            query);
                        assert(want =~= filter_q(with_offsets(ems.take(i as int), offset
                            as int), query).push(with_offsets(ems.take(i as int + 1), offset
                            as int).last()));
                        assert(got.len() == want.len());
                        assert forall|j: int| 0 <= j < got.len() implies (#[trigger] got[j]).0
                            == want[j].0 && got[j].1 == want[j].1 && got[j].2@ == want[j].2 by {
                            if j < got.len() - 1 {
                                assert(out@[base.len() as int + j] == prev[base.len() as int
                                    + j]);
                                assert(got[j] == prev.skip(base.len() as int)[j]);
                            } else {
                                assert(got[j] == out@[out@.len() - 1]);
                                assert(ems[i as int] == entries@[i as int]@);
                            }
                        }
                    }
                } else {
                }
                i = i + 1;
            }
            proof {
                if let Some(g) = w {
                    assert(ems.take(n as int) =~= ems);
                    assert(ref_entries(nm, g, level as nat) == ems);
                }
            }
            Ok(())
        },
        Node::Branch { children } => {
            if level == 0 {
                proof {
                    if let Some(g) = w {
                        assert(false);
                    }
                }
                return Err(Error::Corrupt);
            }
            let ghost cs = children@;
            proof {
                if let Some(g) = w {
                    lemma_refs_count(nm, cs, (level - 1) as nat);
                    lemma_ref_count(nm, g, level as nat);
                }
            }
            let n = children.len();
            let mut sums: Vec<Summary> = Vec::new();
            let mut i: usize = 0;
            while i < n
                invariant
                    i <= n,
                    n == children@.len(),
                    sums@.len() == i,
                    forall|j: int| 0 <= j < i ==> sums@[j] == children@[j].summary,
                decreases n - i,
            {
                sums.push(children[i].summary);
                i = i + 1;
            }
            let index = BranchIndex { summaries: sums };
            let mut flags: Vec<bool> = Vec::new();
            i = 0;
            while i < n
                invariant
                    i <= n,
                    flags@.len() == i,
                decreases n - i,
            {
                flags.push(false);
                i = i + 1;
            }
            query.intersecting(offset, &index, &mut flags);
            let ghost base = out@;
            let mut off = offset;
            i = 0;
            while i < n
                invariant
                    i <= n,
                    n == children@.len(),
                    children@ == cs,
                    forest.wf(),
                    forest.node_map() == nm,
                    forest.store_map() == old(forest).store_map(),
                    forest.secret_key() == old(forest).secret_key(),
                    forest.nonce_view() == old(forest).nonce_view(),
                    flags@.len() == n,
                    index.summaries@.len() == n,
                    forall|j: int| 0 <= j < n ==> index.summaries@[j] == cs[j].summary,
                    forall|j: int|
                        0 <= j < n ==> flags@[j] == q_may_match(query, index.summaries@[j]),
                    w matches Some(g) ==> {
                        &&& off == offset + refs_count(cs.take(i as int))
                        &&& off <= offset + g.count
                        &&& offset + g.count <= u64::MAX
                        &&& out@.subrange(0, base.len() as int) == base
                        &&& base.len() <= out@.len()
                        &&& rows_match(out@.skip(base.len() as int), filter_q(
                            with_offsets(
                                refs_entries(nm, cs.take(i as int), (level - 1) as nat),
                                offset as int,
                            ),
                            query,
                        ))
                    },
                decreases n - i,
            {
                let c = children[i];
                if c.level != level - 1 {
                    proof {
                        if let Some(g) = w {
                            assert(ref_wf(nm, cs[i as int], (level - 1) as nat));
                            assert(false);
                        }
                    }
                    return Err(Error::Corrupt);
                }
                if c.count > u64::MAX - off {
                    proof {
                        if let Some(g) = w {
                            lemma_refs_count_push(cs.take(i as int), cs[i as int]);
                            assert(cs.take(i as int).push(cs[i as int]) =~= cs.take(
                                i as int + 1,
                            ));
                            lemma_refs_count_prefix(cs, i as int + 1);
                            crate::builder::lemma_refs_count_nonneg(cs.skip(i as int + 1));
                            assert(false);
                        }
                    }
                    return Err(Error::Corrupt);
                }
                proof {
                    if let Some(g) = w {
                        assert(ref_wf(nm, cs[i as int], (level - 1) as nat));
                        lemma_refs_count_push(cs.take(i as int), cs[i as int]);
                        assert(cs.take(i as int).push(cs[i as int]) =~= cs.take(i as int + 1));
                        lemma_refs_count_prefix(cs, i as int + 1);
                        lemma_ref_count(nm, cs[i as int], (level - 1) as nat);
                    }
                }
                let ghost pre = refs_entries(nm, cs.take(i as int), (level - 1) as nat);
                let ghost ce = ref_entries(nm, cs[i as int], (level - 1) as nat);
                let ghost prerows = filter_q(with_offsets(pre, offset as int), query);
                let ghost cerows = filter_q(with_offsets(ce, off as int), query);
                let ghost prev = out@;
                if flags[i] {
                    let ghost cw: Option<ChildRef> = if w matches Some(g) {
                        Option::Some(cs[i as int])
                    } else {
                        Option::None
                    };
                    let sub = collect_filtered(forest, c.link, c.level, off, query, out, Ghost(
                        cw,
                    ));
                    match sub {
                        Ok(u) => {
                        },
                        Err(e) => {
                            proof {
                                if let Some(g) = w {
                                    assert(false);
                                }
                            }
                            return Err(e);
                        },
                    }
                } else {
                    proof {
                        if let Some(g) = w {
                            let rows = with_offsets(ce, off as int);
                            assert forall|j: int| 0 <= j < rows.len() implies !q_matches(
                                query,
                                (#[trigger] rows[j]).1,
                            ) by {
                                lemma_ref_covers(nm, cs[i as int], (level - 1) as nat, j);
                                assert(rows[j].1 == ce[j].key);
                                if q_matches(query, rows[j].1) {
                                    lemma_prune_sound(query, cs[i as int].summary, ce[j].key);
                                }
                            }
                            lemma_filter_q_none(rows, query);
                        }
                    }
                }
                proof {
                    if let Some(g) = w {
                        assert forall|j: int|
                            0 <= j < cs.take(i as int).len() implies ref_wf(
                            nm,
                            #[trigger] cs.take(i as int)[j],
                            (level - 1) as nat,
                        ) by {
                            assert(cs.take(i as int)[j] == cs[j]);
                        }
                        lemma_refs_count(nm, cs.take(i as int), (level - 1) as nat);
                        assert(pre.len() == refs_count(cs.take(i as int)));
                        assert(off == offset + pre.len());
                        lemma_refs_entries_push(nm, cs.take(i as int), cs[i as int], (level
                            - 1) as nat);
                        assert(cs.take(i as int).push(cs[i as int]) =~= cs.take(i as int + 1));
                        lemma_with_offsets_concat(pre, ce, offset as int);
                        lemma_filter_q_concat(
                            with_offsets(pre, offset as int),
                            with_offsets(ce, off as int),
                            query,
                        );
                        let got = out@.skip(base.len() as int);
                        let want = filter_q(with_offsets(refs_entries(nm, cs.take(i as int
                            + 1), (level - 1) as nat), offset as int), query);
                        assert(out@.subrange(0, base.len() as int) =~= base);
                        assert(want =~= prerows + cerows);
                        assert(prev.len() == base.len() + prerows.len());
                        assert(got.len() == want.len());
                        assert forall|j: int| 0 <= j < got.len() implies (#[trigger] got[j]).0
                            == want[j].0 && got[j].1 == want[j].1 && got[j].2@ == want[j].2 by {
                            if j < prerows.len() {
                                assert(out@[base.len() as int + j] == out@.subrange(
                                    0,
                                    prev.len() as int,
                                )[base.len() as int + j]);
                                assert(got[j] == prev.skip(base.len() as int)[j]);
                                assert(want[j] == prerows[j]);
                            } else {
                                assert(got[j] == out@.skip(prev.len() as int)[j
                                    - prerows.len()]);
                                assert(want[j] == cerows[j - prerows.len()]);
                            }
                        }
                    }
                }
                off = off + c.count;
                i = i + 1;
            }
            proof {
                if let Some(g) = w {
                    assert(cs.take(cs.len() as int) =~= cs);
                    assert(ref_entries(nm, g, level as nat) == refs_entries(
                        nm,
                        cs,
                        (level - 1) as nat,
                    ));
                }
            }
            Ok(())
        },
    }
}

/// Collect the rows beneath a subtree from local entry position `skip`
/// on, offsets as if collection had started at `offset`. Whole children
/// that lie before `skip` are passed over by their cached counts without
/// being fetched.
#[verifier::loop_isolation(false)]
fn collect_skip(
    forest: &mut Forest,
    link: Link,
    level: u64,
    offset: u64,
    skip: u64,
    out: &mut Vec<(u64, Key, Vec<u8>)>,
    Ghost(w): Ghost<Option<ChildRef>>,
) -> (r: Result<(), Error>)
    requires
        old(forest).wf(),
        w matches Some(g) ==> g.link == link && g.level == level && ref_wf(
            old(forest).node_map(),
            g,
            level as nat,
        ) && offset + g.count <= u64::MAX && skip <= g.count,
    ensures
        final(forest).wf(),
        final(forest).node_map() == old(forest).node_map(),
        final(forest).store_map() == old(forest).store_map(),
        final(forest).secret_key() == old(forest).secret_key(),
        final(forest).nonce_view() == old(forest).nonce_view(),
        w matches Some(g) ==> (r matches Ok(u) && appended_rows(
            old(out)@,
            final(out)@,
            with_offsets(
                ref_entries(old(forest).node_map(), g, level as nat).skip(skip as int),
                offset + skip,
            ),
        )),
    decreases level,
{
    let ghost nm = forest.node_map();
    let loaded = forest.load(link);
    let node = match loaded {
        Ok(n) => n,
        Err(e) => {
            proof {
                if let Some(g) = w {
                    assert(false);
                }
            }
            return Err(e);
        },
    };
    proof {
        if let Some(g) = w {
            assert(node@ == nm[link]);
            lemma_ref_count(nm, g, level as nat);
        }
    }
    match node {
        Node::Leaf { entries } => {
            if level != 0 {
                proof {
                    if let Some(g) = w {
                        assert(false);
                    }
                }
                return Err(Error::Corrupt);
            }
            let n = entries.len();
            if n as u64 > u64::MAX - offset {
                proof {
                    if let Some(g) = w {
                        assert(false);
                    }
                }
                return Err(Error::Corrupt);
            }
            if skip > n as u64 {
                proof {
                    if let Some(g) = w {
                        assert(false);
                    }
                }
                return Err(Error::Corrupt);
            }
            let ghost ems = entries@.map_values(|e: Entry| e@);
            let ghost base = out@;
            let start_at = skip as usize;
            let mut i: usize = start_at;
            while i < n
                invariant
                    start_at <= i <= n,
                    n == entries@.len(),
                    n as u64 <= u64::MAX - offset,
                    start_at == skip,
                    ems == entries@.map_values(|e: Entry| e@),
                    out@.len() == base.len() + i - start_at,
                    out@.subrange(0, base.len() as int) == base,
                    rows_match(out@.skip(base.len() as int), with_offsets(
                        ems.subrange(start_at as int, i as int),
                        offset + skip,
                    )),
                decreases n - i,
            {
                let ghost prev = out@;
                out.push(((offset + i as u64), entries[i].key, copy_bytes(&entries[i].value)));
                proof {
                    assert(out@.subrange(0, base.len() as int) =~= base);
                    let got = out@.skip(base.len() as int);
                    let want = with_offsets(ems.subrange(start_at as int, i as int + 1), offset
                        + skip);
                    assert(got.len() == want.len());
                    assert forall|j: int| 0 <= j < got.len() implies (#[trigger] got[j]).0
                        == want[j].0 && got[j].1 == want[j].1 && got[j].2@ == want[j].2 by {
                        if j < i - start_at {
                            assert(out@[base.len() as int + j] == prev[base.len() as int + j]);
                            assert(got[j] == prev.skip(base.len() as int)[j]);
                            assert(want[j] == with_offsets(ems.subrange(
                                start_at as int,
                                i as int,
                            ), offset + skip)[j]);
                        } else {
                            assert(got[j] == out@[out@.len() - 1]);
                            assert(ems[i as int] == entries@[i as int]@);
                        }
                    }
                }
                i = i + 1;
            }
            proof {
                if let Some(g) = w {
                    assert(ems.subrange(start_at as int, n as int) =~= ems.skip(skip as int));
                    assert(ref_entries(nm, g, level as nat) == ems);
                }
            }
            Ok(())
        },
        Node::Branch { children } => {
            if level == 0 {
                proof {
                    if let Some(g) = w {
                        assert(false);
                    }
                }
                return Err(Error::Corrupt);
            }
            let ghost cs = children@;
            proof {
                if let Some(g) = w {
                    lemma_refs_count(nm, cs, (level - 1) as nat);
                }
            }
            let ghost base = out@;
            let mut off = offset;
            let mut rem = skip;
            let mut i: usize = 0;
            while i < children.len()
                invariant
                    i <= cs.len(),
                    children@ == cs,
                    forest.wf(),
                    forest.node_map() == nm,
                    forest.store_map() == old(forest).store_map(),
                    forest.secret_key() == old(forest).secret_key(),
                    forest.nonce_view() == old(forest).nonce_view(),
                    w matches Some(g) ==> {
                        &&& off == offset + refs_count(cs.take(i as int))
                        &&& off <= offset + g.count
                        &&& offset + g.count <= u64::MAX
                        &&& skip <= g.count
                        &&& {
                            let done = refs_entries(nm, cs.take(i as int), (level - 1) as nat);
                            let cut = if skip <= done.len() {
                                skip as int
                            } else {
                                done.len() as int
                            };
                            &&& rem == skip - cut
                            &&& out@.subrange(0, base.len() as int) == base
                            &&& base.len() <= out@.len()
                            &&& rows_match(out@.skip(base.len() as int), with_offsets(
                                done.skip(cut),
                                offset + cut,
                            ))
                        }
                    },
                decreases cs.len() - i,
            {
                let c = children[i];
                if c.level != level - 1 {
                    proof {
                        if let Some(g) = w {
                            assert(ref_wf(nm, cs[i as int], (level - 1) as nat));
                            assert(false);
                        }
                    }
                    return Err(Error::Corrupt);
                }
                if c.count > u64::MAX - off {
                    proof {
                        if let Some(g) = w {
                            lemma_refs_count_push(cs.take(i as int), cs[i as int]);
                            assert(cs.take(i as int).push(cs[i as int]) =~= cs.take(
                                i as int + 1,
                            ));
                            lemma_refs_count_prefix(cs, i as int + 1);
                            crate::builder::lemma_refs_count_nonneg(cs.skip(i as int + 1));
                            assert(false);
                        }
                    }
                    return Err(Error::Corrupt);
                }
                proof {
                    if let Some(g) = w {
                        assert(ref_wf(nm, cs[i as int], (level - 1) as nat));
                        lemma_refs_count_push(cs.take(i as int), cs[i as int]);
                        assert(cs.take(i as int).push(cs[i as int]) =~= cs.take(i as int + 1));
                        lemma_refs_count_prefix(cs, i as int + 1);
                        lemma_ref_count(nm, cs[i as int], (level - 1) as nat);
                        lemma_ref_nonempty(nm, cs[i as int], (level - 1) as nat);
                        assert forall|j: int|
                            0 <= j < cs.take(i as int).len() implies ref_wf(
                            nm,
                            #[trigger] cs.take(i as int)[j],
                            (level - 1) as nat,
                        ) by {
                            assert(cs.take(i as int)[j] == cs[j]);
                        }
                        lemma_refs_count(nm, cs.take(i as int), (level - 1) as nat);
                        lemma_refs_entries_push(nm, cs.take(i as int), cs[i as int], (level
                            - 1) as nat);
                    }
                }
                let ghost done = refs_entries(nm, cs.take(i as int), (level - 1) as nat);
                let ghost ce = ref_entries(nm, cs[i as int], (level - 1) as nat);
                let ghost done1 = refs_entries(nm, cs.take(i as int + 1), (level - 1) as nat);
                if rem >= c.count {
                    proof {
                        if let Some(g) = w {
                            assert(done1 == done + ce);
                            assert(rem <= skip);
                            assert(skip >= done.len() + ce.len());
                            assert(done1.skip(done1.len() as int) =~= Seq::<
                                EntryModel,
                            >::empty());
                            assert(out@.skip(base.len() as int) =~= Seq::<(
                                u64,
                                Key,
                                Vec<u8>,
                            )>::empty());
                        }
                    }
                    rem = rem - c.count;
                    off = off + c.count;
                    i = i + 1;
                } else {
                    let ghost cw: Option<ChildRef> = if w matches Some(g) {
                        Option::Some(cs[i as int])
                    } else {
                        Option::None
                    };
                    let ghost prev = out@;
                    let sub = collect_skip(forest, c.link, c.level, off, rem, out, Ghost(cw));
                    match sub {
                        Ok(u) => {
                        },
                        Err(e) => {
                            proof {
                                if let Some(g) = w {
                                    assert(false);
                                }
                            }
                            return Err(e);
                        },
                    }
                    proof {
                        if let Some(g) = w {
                            let cut = if skip <= done.len() {
                                skip as int
                            } else {
                                done.len() as int
                            };
                            assert(done1 == done + ce);
                            let cut1 = cut + rem;
                            assert(cut1 == if skip <= done1.len() {
                                skip as int
                            } else {
                                done1.len() as int
                            });
                            lemma_skip_concat_high(done, ce, rem as int);
                            lemma_skip_concat_low(done, ce, cut);
                            let got = out@.skip(base.len() as int);
                            if cut == skip {
                                assert(done.skip(cut).len() == done.len() - skip);
                                lemma_with_offsets_concat(
                                    done.skip(cut),
                                    ce.skip(rem as int),
                                    offset + cut,
                                );
                                assert(done.skip(cut) + ce.skip(rem as int) =~= done1.skip(
                                    cut1,
                                ));
                                let want = with_offsets(done1.skip(cut1), offset + cut1);
                                assert(rem == 0);
                                assert(prev.len() == base.len() + done.skip(cut).len());
                                assert(got.len() == want.len());
                                assert forall|j: int| 0 <= j < got.len() implies (
                                #[trigger] got[j]).0 == want[j].0 && got[j].1 == want[j].1
                                    && got[j].2@ == want[j].2 by {
                                    if j < done.skip(cut).len() {
                                        assert(out@[base.len() as int + j] == out@.subrange(
                                            0,
                                            prev.len() as int,
                                        )[base.len() as int + j]);
                                        assert(got[j] == prev.skip(base.len() as int)[j]);
                                        assert(want[j] == with_offsets(done.skip(cut), offset
                                            + cut)[j]);
                                    } else {
                                        assert(got[j] == out@.skip(prev.len() as int)[j
                                            - done.skip(cut).len()]);
                                        assert(offset + cut + done.skip(cut).len() == off
                                            + rem);
                                        assert(want[j] == with_offsets(ce.skip(rem as int),
                                            off + rem)[j - done.skip(cut).len()]);
                                    }
                                }
                            } else {
                                assert(cut == done.len());
                                assert(done.skip(cut).len() == 0);
                                assert(prev.len() == base.len());
                                assert(prev =~= base);
                                assert(done1.skip(cut1) =~= ce.skip(rem as int));
                                let want = with_offsets(done1.skip(cut1), offset + cut1);
                                assert(offset + cut1 == off + rem);
                                assert(got.len() == want.len());
                                assert forall|j: int| 0 <= j < got.len() implies (
                                #[trigger] got[j]).0 == want[j].0 && got[j].1 == want[j].1
                                    && got[j].2@ == want[j].2 by {
                                    assert(got[j] == out@.skip(prev.len() as int)[j]);
                                    assert(want[j] == with_offsets(ce.skip(rem as int), off
                                        + rem)[j]);
                                }
                            }
                        }
                    }
                    rem = 0;
                    off = off + c.count;
                    i = i + 1;
                }
            }
            proof {
                if let Some(g) = w {
                    assert(cs.take(cs.len() as int) =~= cs);
                    assert(ref_entries(nm, g, level as nat) == refs_entries(
                        nm,
                        cs,
                        (level - 1) as nat,
                    ));
                    assert(skip <= g.count);
                }
            }
            Ok(())
        },
    }
}

} // verus!
