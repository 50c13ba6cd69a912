//! The stream builder: buffers appended entries, seals full leaves, folds
//! full runs of same-level children into branches, and keeps a complete
//! immutable snapshot handle up to date after every append.

use vstd::prelude::*;
use crate::types::{Key, Summary, Link, Entry, EntryModel, Node, NodeModel, ChildRef, Error,
    Config, Secrets, copy_entry, summarize_keys, summarize_sums};
use crate::codec::{entry_m_wf, node_m_wf, LEAF_CAP, BRANCH_CAP};
use crate::forest::Forest;
use crate::semantics::{ref_wf, ref_entries, refs_entries, refs_count, map_incl,
    lemma_ref_count, lemma_refs_count, lemma_ref_mono, lemma_refs_mono, lemma_ref_nonempty};
use vstd::arithmetic::power2::{pow2, lemma_pow2_unfold, lemma_pow2_strictly_increases,
    lemma2_to64};

verus! {

/// Most entries a builder may accumulate over its lifetime.
pub const COUNT_MAX: u64 = 0xFFFF_FFFF_FFFF_FF00;

/// An immutable snapshot handle: the root link (absent for the empty
/// tree), the root's level and the total entry count.
#[derive(Clone, Copy, Debug, PartialEq, Eq)]
pub struct Tree {
    pub root: Option<Link>,
    pub level: u64,
    pub count: u64,
}

/// A tree handle denotes a well-formed subtree (or is empty).
pub open spec fn tree_valid(nodes: Map<Link, NodeModel>, t: Tree) -> bool {
    match t.root {
        Option::None => t.count == 0 && t.level == 0,
        Option::Some(l) => exists|s: Summary|
            ref_wf(
                nodes,
                ChildRef { link: l, count: t.count, level: t.level, summary: s },
                t.level as nat,
            ),
    }
}

/// The entries a tree handle stands for.
pub open spec fn tree_entries(nodes: Map<Link, NodeModel>, t: Tree) -> Seq<EntryModel> {
    match t.root {
        Option::None => Seq::empty(),
        Option::Some(l) => ref_entries(
            nodes,
            ChildRef { link: l, count: t.count, level: t.level, summary: Summary::Empty },
            t.level as nat,
        ),
    }
}

/// A valid tree carries exactly `count` entries, and validity survives map
/// growth.
pub proof fn lemma_tree_facts(
    n1: Map<Link, NodeModel>,
    n2: Map<Link, NodeModel>,
    t: Tree,
)
    requires
        tree_valid(n1, t),
        map_incl(n1, n2),
    ensures
        tree_valid(n2, t),
        tree_entries(n2, t) == tree_entries(n1, t),
        tree_entries(n1, t).len() == t.count,
{
    match t.root {
        Option::None => {
            assert(tree_entries(n1, t) =~= tree_entries(n2, t));
        },
        Option::Some(l) => {
            let s = choose|s: Summary|
                ref_wf(
                    n1,
                    ChildRef { link: l, count: t.count, level: t.level, summary: s },
                    t.level as nat,
                );
            let r = ChildRef { link: l, count: t.count, level: t.level, summary: s };
            lemma_ref_count(n1, r, t.level as nat);
            lemma_ref_mono(n1, n2, r, t.level as nat);
            let r0 = ChildRef { link: l, count: t.count, level: t.level, summary: Summary::Empty };
            assert(ref_entries(n1, r0, t.level as nat) == ref_entries(n1, r, t.level as nat));
            assert(ref_entries(n2, r0, t.level as nat) == ref_entries(n2, r, t.level as nat));
        },
    }
}

/// Entries beneath a run of children of mixed levels, each read at its own
/// level.
pub open spec fn mixed_entries(nodes: Map<Link, NodeModel>, cs: Seq<ChildRef>) -> Seq<EntryModel>
    decreases cs.len(),
{
    if cs.len() == 0 {
        Seq::empty()
    } else {
        mixed_entries(nodes, cs.drop_last()) + ref_entries(
            nodes,
            cs.last(),
            cs.last().level as nat,
        )
    }
}

pub proof fn lemma_mixed_push(nodes: Map<Link, NodeModel>, cs: Seq<ChildRef>, c: ChildRef)
    ensures
        mixed_entries(nodes, cs.push(c)) == mixed_entries(nodes, cs) + ref_entries(
            nodes,
            c,
            c.level as nat,
        ),
{
    assert(cs.push(c).drop_last() =~= cs);
    assert(cs.push(c).last() == c);
}

pub proof fn lemma_mixed_concat(nodes: Map<Link, NodeModel>, a: Seq<ChildRef>, b: Seq<ChildRef>)
    ensures
        mixed_entries(nodes, a + b) == mixed_entries(nodes, a) + mixed_entries(nodes, b),
    decreases b.len(),
{
    if b.len() == 0 {
        assert(a + b =~= a);
        assert(mixed_entries(nodes, a) + mixed_entries(nodes, b) =~= mixed_entries(nodes, a));
    } else {
        lemma_mixed_concat(nodes, a, b.drop_last());
        assert((a + b).drop_last() =~= a + b.drop_last());
        assert((a + b).last() == b.last());
        let last_part = ref_entries(nodes, b.last(), b.last().level as nat);
        assert(mixed_entries(nodes, a) + (mixed_entries(nodes, b.drop_last()) + last_part)
            =~= (mixed_entries(nodes, a) + mixed_entries(nodes, b.drop_last())) + last_part);
    }
}

/// On a run of uniform level, mixed and uniform readings agree.
pub proof fn lemma_mixed_uniform(nodes: Map<Link, NodeModel>, cs: Seq<ChildRef>, level: nat)
    requires
        forall|i: int| 0 <= i < cs.len() ==> (#[trigger] cs[i]).level == level,
    ensures
        mixed_entries(nodes, cs) == refs_entries(nodes, cs, level),
    decreases cs.len(),
{
    if cs.len() > 0 {
        assert(forall|i: int|
            0 <= i < cs.drop_last().len() ==> (#[trigger] cs.drop_last()[i]).level == level);
        lemma_mixed_uniform(nodes, cs.drop_last(), level);
        assert(cs.last().level == level);
    }
}

/// Mixed entries are stable under map growth.
pub proof fn lemma_mixed_mono(
    n1: Map<Link, NodeModel>,
    n2: Map<Link, NodeModel>,
    cs: Seq<ChildRef>,
)
    requires
        forall|i: int|
            0 <= i < cs.len() ==> ref_wf(n1, #[trigger] cs[i], cs[i].level as nat),
        map_incl(n1, n2),
    ensures
        forall|i: int|
            0 <= i < cs.len() ==> ref_wf(n2, #[trigger] cs[i], cs[i].level as nat),
        mixed_entries(n2, cs) == mixed_entries(n1, cs),
    decreases cs.len(),
{
    if cs.len() > 0 {
        assert(forall|i: int|
            0 <= i < cs.drop_last().len() ==> ref_wf(
                n1,
                #[trigger] cs.drop_last()[i],
                cs.drop_last()[i].level as nat,
            ));
        lemma_mixed_mono(n1, n2, cs.drop_last());
        assert(ref_wf(n1, cs.last(), cs.last().level as nat));
        lemma_ref_mono(n1, n2, cs.last(), cs.last().level as nat);
        assert forall|i: int|
            0 <= i < cs.len() implies ref_wf(n2, #[trigger] cs[i], cs[i].level as nat) by {
            if i < cs.len() - 1 {
                assert(cs.drop_last()[i] == cs[i]);
                assert(ref_wf(n2, cs.drop_last()[i], cs.drop_last()[i].level as nat));
            } else {
                assert(cs[i] == cs.last());
            }
        }
    }
}

/// The models of a buffer of entries.
pub open spec fn models_of(es: Seq<Entry>) -> Seq<EntryModel> {
    es.map_values(|e: Entry| e@)
}

/// The mutable, single-writer accumulator packing entries into sealed
/// nodes. `spine` holds sealed full nodes, newest last; `buf` holds the
/// unsealed trailing entries; `tip` and `tree` describe the complete tree
/// over all of it, rebuilt after every append.
pub struct StreamBuilder {
    config: Config,
    secrets: Secrets,
    buf: Vec<Entry>,
    spine: Vec<ChildRef>,
    tip: Option<ChildRef>,
    tree: Tree,
}

impl StreamBuilder {
    /// The entry sequence the builder stands for.
    pub closed spec fn denote(&self, nodes: Map<Link, NodeModel>) -> Seq<EntryModel> {
        mixed_entries(nodes, self.spine@) + models_of(self.buf@)
    }

    /// The thresholds the builder was configured with.
    pub closed spec fn config_spec(&self) -> Config {
        self.config
    }

    /// The key material the builder seals with.
    pub closed spec fn secret_key(&self) -> Seq<u8> {
        self.secrets.key@
    }

    /// The current snapshot handle.
    pub closed spec fn current_tree(&self) -> Tree {
        self.tree
    }

    /// Structural well-formedness against a node map: bounded buffer of
    /// encodable entries, and a spine of well-formed sealed subtrees.
    pub closed spec fn core_wf(&self, nodes: Map<Link, NodeModel>) -> bool {
        &&& self.config.wf()
        &&& self.secrets.wf()
        &&& self.buf@.len() <= self.config.leaf_max
        &&& forall|i: int| 0 <= i < self.buf@.len() ==> entry_m_wf(#[trigger] self.buf@[i]@)
        &&& forall|i: int|
            0 <= i < self.spine@.len() ==> ref_wf(
                nodes,
                #[trigger] self.spine@[i],
                self.spine@[i].level as nat,
            )
        &&& forall|i: int|
            0 <= i < self.spine@.len() ==> pow2((#[trigger] self.spine@[i]).level as nat)
                <= self.spine@[i].count
        &&& self.denote(nodes).len() <= COUNT_MAX
    }

    /// The snapshot handle matches the denoted entries.
    pub closed spec fn tip_ok(&self, nodes: Map<Link, NodeModel>) -> bool {
        &&& match self.tip {
            Option::None => self.denote(nodes).len() == 0 && self.tree == (Tree {
                root: Option::None,
                level: 0,
                count: 0,
            }),
            Option::Some(r) => {
                &&& ref_wf(nodes, r, r.level as nat)
                &&& ref_entries(nodes, r, r.level as nat) == self.denote(nodes)
                &&& self.tree == (Tree {
                    root: Option::Some(r.link),
                    level: r.level,
                    count: r.count,
                })
            },
        }
    }

    /// Full well-formedness: structure plus an up-to-date snapshot handle.
    pub closed spec fn wf_for(&self, nodes: Map<Link, NodeModel>) -> bool {
        self.core_wf(nodes) && self.tip_ok(nodes)
    }

    /// The snapshot handle names a valid tree over exactly the denoted
    /// entries.
    pub proof fn lemma_snapshot_denotes(&self, nodes: Map<Link, NodeModel>)
        requires
            self.wf_for(nodes),
        ensures
            tree_valid(nodes, self.current_tree()),
            tree_entries(nodes, self.current_tree()) == self.denote(nodes),
            self.current_tree().count == self.denote(nodes).len(),
    {
        match self.tip {
            Option::None => {
                assert(self.denote(nodes) =~= tree_entries(nodes, self.tree));
            },
            Option::Some(r) => {
                assert(ref_wf(
                    nodes,
                    ChildRef {
                        link: r.link,
                        count: self.tree.count,
                        level: self.tree.level,
                        summary: r.summary,
                    },
                    self.tree.level as nat,
                ));
                lemma_ref_count(nodes, r, r.level as nat);
                let r0 = ChildRef {
                    link: r.link,
                    count: self.tree.count,
                    level: self.tree.level,
                    summary: Summary::Empty,
                };
                assert(ref_entries(nodes, r0, self.tree.level as nat) == ref_entries(
                    nodes,
                    r,
                    r.level as nat,
                ));
            },
        }
    }

    /// A fresh builder: nothing buffered, nothing sealed, the empty tree.
    pub fn new(config: Config, secrets: Secrets) -> (r: StreamBuilder)
        requires
            config.wf(),
            secrets.wf(),
        ensures
            forall|nodes: Map<Link, NodeModel>| #[trigger] r.wf_for(nodes) == true,
            forall|nodes: Map<Link, NodeModel>| #[trigger] r.denote(nodes) == Seq::<
                EntryModel,
            >::empty(),
            r.current_tree() == (Tree { root: Option::None, level: 0, count: 0 }),
            r.config_spec() == config,
            r.secret_key() == secrets.key@,
    {
        let r = StreamBuilder {
            config,
            secrets,
            buf: Vec::new(),
            spine: Vec::new(),
            tip: Option::None,
            tree: Tree { root: Option::None, level: 0, count: 0 },
        };
        proof {
            assert forall|nodes: Map<Link, NodeModel>| #[trigger] r.denote(nodes) == Seq::<
                EntryModel,
            >::empty() by {
                assert(r.denote(nodes) =~= Seq::<EntryModel>::empty());
            }
        }
        r
    }

    /// The current snapshot: an immutable handle to the complete tree over
    /// everything appended so far. Calling it twice without an intervening
    /// append yields the identical handle.
    pub fn snapshot(&self) -> (t: Tree)
        ensures
            t == self.current_tree(),
    {
        self.tree
    }
}

/// Count arithmetic over runs of children.
pub proof fn lemma_refs_count_push(cs: Seq<ChildRef>, c: ChildRef)
    ensures
        refs_count(cs.push(c)) == refs_count(cs) + c.count,
{
    assert(cs.push(c).drop_last() =~= cs);
    assert(cs.push(c).last() == c);
}

pub proof fn lemma_refs_count_nonneg(cs: Seq<ChildRef>)
    ensures
        refs_count(cs) >= 0,
    decreases cs.len(),
{
    if cs.len() > 0 {
        lemma_refs_count_nonneg(cs.drop_last());
    }
}

pub proof fn lemma_refs_count_concat(a: Seq<ChildRef>, b: Seq<ChildRef>)
    ensures
        refs_count(a + b) == refs_count(a) + refs_count(b),
    decreases b.len(),
{
    if b.len() == 0 {
        assert(a + b =~= a);
    } else {
        lemma_refs_count_concat(a, b.drop_last());
        assert((a + b).drop_last() =~= a + b.drop_last());
        assert((a + b).last() == b.last());
    }
}

/// A prefix never counts more than the whole run.
pub proof fn lemma_refs_count_prefix(cs: Seq<ChildRef>, i: int)
    requires
        0 <= i <= cs.len(),
    ensures
        refs_count(cs.take(i)) <= refs_count(cs),
{
    assert(cs =~= cs.take(i) + cs.skip(i));
    lemma_refs_count_concat(cs.take(i), cs.skip(i));
    lemma_refs_count_nonneg(cs.skip(i));
}

/// A node whose entry count witnesses fullness at its level sits below
/// level 64.
proof fn lemma_level_bound(level: u64, count: u64)
    requires
        pow2(level as nat) <= count,
    ensures
        level < 64,
{
    if level >= 64 {
        lemma2_to64();
        if level > 64 {
            lemma_pow2_strictly_increases(64, level as nat);
        }
        assert(pow2(level as nat) >= 0x1_0000_0000_0000_0000);
    }
}

/// Two or more children, each counting at least `m`, count at least `2m`
/// together.
proof fn lemma_refs_count_ge_two(cs: Seq<ChildRef>, m: nat)
    requires
        cs.len() >= 2,
        forall|i: int| 0 <= i < cs.len() ==> m <= (#[trigger] cs[i]).count,
    ensures
        refs_count(cs) >= 2 * m,
    decreases cs.len(),
{
    let front = cs.drop_last();
    assert(forall|i: int| 0 <= i < front.len() ==> m <= (#[trigger] front[i]).count);
    if cs.len() == 2 {
        assert(front.len() == 1);
        assert(refs_count(front) == refs_count(front.drop_last()) + front.last().count);
        assert(front.drop_last().len() == 0);
        assert(front.last() == cs[0]);
        assert(cs.last() == cs[1]);
    } else {
        lemma_refs_count_ge_two(front, m);
    }
}

/// A run of well-formed subtrees holds at least one entry per subtree.
proof fn lemma_mixed_ge_len(nodes: Map<Link, NodeModel>, cs: Seq<ChildRef>)
    requires
        forall|i: int|
            0 <= i < cs.len() ==> ref_wf(nodes, #[trigger] cs[i], cs[i].level as nat),
    ensures
        mixed_entries(nodes, cs).len() >= cs.len(),
    decreases cs.len(),
{
    if cs.len() > 0 {
        let front = cs.drop_last();
        assert(forall|i: int|
            0 <= i < front.len() ==> ref_wf(nodes, #[trigger] front[i], front[i].level as nat));
        lemma_mixed_ge_len(nodes, front);
        assert(ref_wf(nodes, cs.last(), cs.last().level as nat));
        lemma_ref_count(nodes, cs.last(), cs.last().level as nat);
        lemma_ref_nonempty(nodes, cs.last(), cs.last().level as nat);
    }
}

/// Seal an ordered run of entries into a persisted leaf.
fn seal_leaf(forest: &mut Forest, entries: Vec<Entry>) -> (r: Result<ChildRef, Error>)
    requires
        old(forest).wf(),
        1 <= entries@.len() <= LEAF_CAP,
        forall|i: int| 0 <= i < entries@.len() ==> entry_m_wf(#[trigger] entries@[i]@),
    ensures
        final(forest).wf(),
        final(forest).secret_key() == old(forest).secret_key(),
        final(forest).nonce_view() == old(forest).nonce_view(),
        map_incl(old(forest).node_map(), final(forest).node_map()),
        r matches Ok(c) <==> !old(forest).collision_on(
            NodeModel::Leaf { entries: models_of(entries@) },
        ),
        match r {
            Ok(c) => {
                &&& c.level == 0
                &&& c.count == entries@.len()
                &&& ref_wf(final(forest).node_map(), c, 0)
                &&& ref_entries(final(forest).node_map(), c, 0) == models_of(entries@)
            },
            Err(e) => {
                &&& e == Error::StoreFailure
                &&& final(forest).node_map() == old(forest).node_map()
                &&& final(forest).collision_on(
                    NodeModel::Leaf { entries: models_of(entries@) },
                )
            },
        },
{
    let count = entries.len() as u64;
    let mut keys: Vec<Key> = Vec::new();
    let mut i: usize = 0;
    while i < entries.len()
        invariant
            i <= entries@.len(),
            keys@.len() == i,
            forall|j: int| 0 <= j < i ==> keys@[j] == entries@[j].key,
        decreases entries@.len() - i,
    {
        keys.push(entries[i].key);
        i = i + 1;
    }
    let summary = summarize_keys(&keys);
    let ghost ems = models_of(entries@);
    proof {
        assert(keys@ =~= ems.map_values(|e: EntryModel| e.key));
    }
    let node = Node::Leaf { entries };
    proof {
        assert(node@ == NodeModel::Leaf { entries: ems });
        assert(node_m_wf(node@));
    }
    let pr = forest.persist(&node);
    match pr {
        Ok(l) => {
            let c = ChildRef { link: l, count, level: 0, summary };
            proof {
                let nm = forest.node_map();
                assert(nm.dom().contains(l));
                assert(nm[l] == node@);
                assert(ref_wf(nm, c, 0));
            }
            Ok(c)
        },
        Err(e) => Err(e),
    }
}

/// Seal an ordered run of same-level children into a persisted branch one
/// level up.
fn seal_branch(forest: &mut Forest, children: Vec<ChildRef>, level: u64) -> (r: Result<
    ChildRef,
    Error,
>)
    requires
        old(forest).wf(),
        1 <= children@.len() <= BRANCH_CAP,
        1 <= level,
        forall|i: int|
            0 <= i < children@.len() ==> ref_wf(
                old(forest).node_map(),
                #[trigger] children@[i],
                (level - 1) as nat,
            ),
        forall|i: int| 0 <= i < children@.len() ==> (#[trigger] children@[i]).level == level
            - 1,
        refs_count(children@) <= COUNT_MAX,
    ensures
        final(forest).wf(),
        final(forest).secret_key() == old(forest).secret_key(),
        final(forest).nonce_view() == old(forest).nonce_view(),
        map_incl(old(forest).node_map(), final(forest).node_map()),
        r matches Ok(c) <==> !old(forest).collision_on(
            NodeModel::Branch { children: children@ },
        ),
        match r {
            Ok(c) => {
                &&& c.level == level
                &&& c.count == refs_count(children@)
                &&& ref_wf(final(forest).node_map(), c, level as nat)
                &&& ref_entries(final(forest).node_map(), c, level as nat) == refs_entries(
                    old(forest).node_map(),
                    children@,
                    (level - 1) as nat,
                )
            },
            Err(e) => {
                &&& e == Error::StoreFailure
                &&& final(forest).node_map() == old(forest).node_map()
                &&& final(forest).collision_on(NodeModel::Branch { children: children@ })
            },
        },
{
    let ghost cseq = children@;
    let ghost nodes0 = forest.node_map();
    let mut total: u64 = 0;
    let mut sums: Vec<Summary> = Vec::new();
    let mut i: usize = 0;
    while i < children.len()
        invariant
            children@ == cseq,
            i <= cseq.len(),
            refs_count(cseq) <= COUNT_MAX,
            total == refs_count(cseq.take(i as int)),
            sums@.len() == i,
            forall|j: int| 0 <= j < i ==> sums@[j] == cseq[j].summary,
        decreases cseq.len() - i,
    {
        proof {
            lemma_refs_count_prefix(cseq, i as int + 1);
            assert(cseq.take(i as int + 1).drop_last() =~= cseq.take(i as int));
            assert(cseq.take(i as int + 1).last() == cseq[i as int]);
            lemma_refs_count_nonneg(cseq.take(i as int));
        }
        total = total + children[i].count;
        sums.push(children[i].summary);
        i = i + 1;
    }
    proof {
        assert(cseq.take(cseq.len() as int) =~= cseq);
    }
    let summary = summarize_sums(&sums);
    proof {
        assert(sums@ =~= cseq.map_values(|c: ChildRef| c.summary));
    }
    let node = Node::Branch { children };
    proof {
        assert(node@ == NodeModel::Branch { children: cseq });
        assert(node_m_wf(node@));
    }
    let pr = forest.persist(&node);
    match pr {
        Ok(l) => {
            let c = ChildRef { link: l, count: total, level, summary };
            proof {
                let nm = forest.node_map();
                lemma_refs_mono(nodes0, nm, cseq, (level - 1) as nat);
                assert(nm.dom().contains(l));
                assert(nm[l] == node@);
                lemma_refs_count_nonneg(cseq);
                assert(ref_wf(nm, c, level as nat));
                assert(ref_entries(nm, c, level as nat) == refs_entries(
                    nm,
                    cseq,
                    (level - 1) as nat,
                ));
            }
            Ok(c)
        },
        Err(e) => Err(e),
    }
}


/// Entries a pending root-fold accumulator stands for.
pub open spec fn tail_entries(nodes: Map<Link, NodeModel>, t: Option<ChildRef>) -> Seq<
    EntryModel,
> {
    match t {
        Option::None => Seq::empty(),
        Option::Some(c) => ref_entries(nodes, c, c.level as nat),
    }
}

/// Well-formedness of a pending root-fold accumulator.
pub open spec fn tail_wf(nodes: Map<Link, NodeModel>, t: Option<ChildRef>) -> bool {
    match t {
        Option::None => true,
        Option::Some(c) => ref_wf(nodes, c, c.level as nat),
    }
}

impl StreamBuilder {
    /// Seal the full buffer into a leaf and push it onto the spine,
    /// folding full runs afterwards. The denoted entries do not change.
    #[verifier::loop_isolation(false)]
    fn flush_leaf(&mut self, forest: &mut Forest) -> (r: Result<(), Error>)
        requires
            old(self).core_wf(old(forest).node_map()),
            old(forest).wf(),
            old(self).buf@.len() == old(self).config_spec().leaf_max,
        ensures
            final(forest).wf(),
            final(forest).secret_key() == old(forest).secret_key(),
            final(forest).nonce_view() == old(forest).nonce_view(),
            map_incl(old(forest).node_map(), final(forest).node_map()),
            final(self).core_wf(final(forest).node_map()),
            final(self).denote(final(forest).node_map()) == old(self).denote(
                old(forest).node_map(),
            ),
            final(self).config_spec() == old(self).config_spec(),
            final(self).secret_key() == old(self).secret_key(),
            final(self).current_tree() == old(self).current_tree(),
            r matches Err(e) ==> e == Error::StoreFailure && (exists|m: NodeModel|
                final(forest).collision_on(m)),
            r matches Ok(u) ==> final(self).buf@.len() == 0,
    {
        let ghost nodes0 = old(forest).node_map();
        let ghost d0 = old(self).denote(nodes0);
        let mut full: Vec<Entry> = Vec::new();
        let mut i: usize = 0;
        while i < self.buf.len()
            invariant
                self == old(self),
                i <= self.buf@.len(),
                full@.len() == i,
                forall|j: int| 0 <= j < i ==> full@[j]@ == self.buf@[j]@,
            decreases self.buf@.len() - i,
        {
            full.push(copy_entry(&self.buf[i]));
            i = i + 1;
        }
        proof {
            assert(models_of(full@) =~= models_of(self.buf@));
        }
        let sealed = seal_leaf(forest, full);
        let c = match sealed {
            Ok(c) => c,
            Err(e) => {
                proof {
                    assert(self.denote(forest.node_map()) =~= d0);
                }
                return Err(e);
            },
        };
        let ghost nodes1 = forest.node_map();
        proof {
            lemma_mixed_mono(nodes0, nodes1, self.spine@);
        }
        self.buf.clear();
        self.spine.push(c);
        proof {
            lemma_mixed_push(nodes1, old(self).spine@, c);
            assert(ref_entries(nodes1, c, c.level as nat) == models_of(old(self).buf@));
            assert(models_of(self.buf@) =~= Seq::<EntryModel>::empty());
            assert(self.denote(nodes1) =~= d0);
            lemma2_to64();
            assert forall|i: int|
                0 <= i < self.spine@.len() implies pow2(
                (#[trigger] self.spine@[i]).level as nat,
            ) <= self.spine@[i].count by {
                if i < old(self).spine@.len() {
                    assert(self.spine@[i] == old(self).spine@[i]);
                } else {
                    assert(self.spine@[i] == c);
                    assert(pow2(0) == 1);
                }
            }
        }
        self.cascade(forest)
    }

    /// Fold every full trailing run of same-level spine children into a
    /// branch one level up. The denoted entries do not change.
    #[verifier::loop_isolation(false)]
    fn cascade(&mut self, forest: &mut Forest) -> (r: Result<(), Error>)
        requires
            old(self).core_wf(old(forest).node_map()),
            old(forest).wf(),
        ensures
            final(forest).wf(),
            final(forest).secret_key() == old(forest).secret_key(),
            final(forest).nonce_view() == old(forest).nonce_view(),
            map_incl(old(forest).node_map(), final(forest).node_map()),
            final(self).core_wf(final(forest).node_map()),
            final(self).denote(final(forest).node_map()) == old(self).denote(
                old(forest).node_map(),
            ),
            final(self).config_spec() == old(self).config_spec(),
            final(self).secret_key() == old(self).secret_key(),
            final(self).current_tree() == old(self).current_tree(),
            final(self).buf@ == old(self).buf@,
            r matches Err(e) ==> e == Error::StoreFailure && (exists|m: NodeModel|
                final(forest).collision_on(m)),
    {
        let ghost nodes0 = old(forest).node_map();
        let ghost d0 = old(self).denote(nodes0);
        loop
            invariant
                self.core_wf(forest.node_map()),
                forest.wf(),
                map_incl(nodes0, forest.node_map()),
                forest.secret_key() == old(forest).secret_key(),
                forest.nonce_view() == old(forest).nonce_view(),
                self.denote(forest.node_map()) == d0,
                self.config_spec() == old(self).config_spec(),
                self.secret_key() == old(self).secret_key(),
                self.current_tree() == old(self).current_tree(),
                self.buf@ == old(self).buf@,
            decreases self.spine@.len(),
        {
            let n = self.spine.len();
            let f = self.config.fanout;
            if n < f {
                return Ok(());
            }
            let lvl = self.spine[n - 1].level;
            let mut uniform = true;
            let mut j: usize = n - f;
            while j < n
                invariant
                    n - f <= j <= n,
                    n == self.spine@.len(),
                    uniform == (forall|k: int|
                        n - f <= k < j ==> (#[trigger] self.spine@[k]).level == lvl),
                decreases n - j,
            {
                if self.spine[j].level != lvl {
                    uniform = false;
                }
                j = j + 1;
            }
            if !uniform {
                return Ok(());
            }
            proof {
                assert(pow2(self.spine@[n - 1].level as nat) <= self.spine@[n - 1].count);
                lemma_level_bound(lvl, self.spine@[n - 1].count);
            }
            let mut group: Vec<ChildRef> = Vec::new();
            let mut k: usize = n - f;
            while k < n
                invariant
                    n - f <= k <= n,
                    n == self.spine@.len(),
                    group@ == self.spine@.subrange(n - f, k as int),
                decreases n - k,
            {
                group.push(self.spine[k]);
                proof {
                    assert(group@ =~= self.spine@.subrange(n - f, k as int + 1));
                }
                k = k + 1;
            }
            let ghost nodes_a = forest.node_map();
            let ghost front = self.spine@.take(n - f);
            proof {
                assert(group@ =~= self.spine@.skip(n - f));
                assert(self.spine@ =~= front + group@);
                lemma_mixed_concat(nodes_a, front, group@);
                lemma_mixed_uniform(nodes_a, group@, lvl as nat);
                assert(forall|i: int|
                    0 <= i < group@.len() ==> ref_wf(nodes_a, #[trigger] group@[i], lvl as nat));
                lemma_refs_count(nodes_a, group@, lvl as nat);
                assert(self.denote(nodes_a).len() <= COUNT_MAX);
                assert(refs_count(group@) <= COUNT_MAX);
            }
            let ghost gseq = group@;
            proof {
                assert forall|j: int|
                    0 <= j < gseq.len() implies pow2(lvl as nat) <= (#[trigger] gseq[j]).count
                    by {
                    assert(gseq[j] == self.spine@[n - f + j]);
                    assert(self.spine@[n - f + j].level == lvl);
                    assert(pow2((#[trigger] self.spine@[n - f + j]).level as nat)
                        <= self.spine@[n - f + j].count);
                }
            }
            let sealed = seal_branch(forest, group, lvl + 1);
            let b = match sealed {
                Ok(b) => b,
                Err(e) => {
                    return Err(e);
                },
            };
            let ghost nodes_b = forest.node_map();
            self.spine.truncate(n - f);
            self.spine.push(b);
            proof {
                assert(old(self).buf@ == self.buf@);
                lemma_mixed_mono(nodes_a, nodes_b, front);
                assert(self.spine@ =~= front.push(b));
                lemma_mixed_push(nodes_b, front, b);
                assert(ref_entries(nodes_b, b, b.level as nat) == refs_entries(
                    nodes_a,
                    gseq,
                    lvl as nat,
                ));
                assert(mixed_entries(nodes_b, self.spine@) == mixed_entries(nodes_a, front)
                    + mixed_entries(nodes_a, gseq));
                lemma_mixed_concat(nodes_a, front, gseq);
                assert(self.denote(nodes_b) =~= d0);
                assert forall|i: int|
                    0 <= i < self.spine@.len() implies ref_wf(
                    nodes_b,
                    #[trigger] self.spine@[i],
                    self.spine@[i].level as nat,
                ) by {
                    if i < front.len() {
                        assert(front[i] == self.spine@[i]);
                        lemma_mixed_mono(nodes_a, nodes_b, front);
                    } else {
                        assert(self.spine@[i] == b);
                    }
                }
                lemma_refs_count_ge_two(gseq, pow2(lvl as nat));
                lemma_pow2_unfold((lvl + 1) as nat);
                assert(pow2(b.level as nat) <= b.count);
                assert forall|i: int|
                    0 <= i < self.spine@.len() implies pow2(
                    (#[trigger] self.spine@[i]).level as nat,
                ) <= self.spine@[i].count by {
                    if i < front.len() {
                        assert(self.spine@[i] == front[i]);
                        assert(pow2(front[i].level as nat) <= front[i].count);
                    } else {
                        assert(self.spine@[i] == b);
                    }
                }
            }
        }
    }

    /// Fold the spine and the trailing buffer into a single root, sealing
    /// the trailing (possibly undersized) chain, and refresh the snapshot
    /// handle. The denoted entries do not change.
    #[verifier::loop_isolation(false)]
    #[verifier::rlimit(100)]
    fn rebuild(&mut self, forest: &mut Forest) -> (r: Result<(), Error>)
        requires
            old(self).core_wf(old(forest).node_map()),
            old(forest).wf(),
        ensures
            final(forest).wf(),
            final(forest).secret_key() == old(forest).secret_key(),
            final(forest).nonce_view() == old(forest).nonce_view(),
            map_incl(old(forest).node_map(), final(forest).node_map()),
            final(self).core_wf(final(forest).node_map()),
            final(self).denote(final(forest).node_map()) == old(self).denote(
                old(forest).node_map(),
            ),
            final(self).config_spec() == old(self).config_spec(),
            final(self).secret_key() == old(self).secret_key(),
            match r {
                Ok(u) => final(self).wf_for(final(forest).node_map()),
                Err(e) => e == Error::StoreFailure && final(self).current_tree() == old(
                    self,
                ).current_tree() && (exists|m: NodeModel| final(forest).collision_on(m)),
            },
    {
        let ghost nodes0 = old(forest).node_map();
        let ghost d0 = old(self).denote(nodes0);
        let mut tail: Option<ChildRef> = Option::None;
        if self.buf.len() > 0 {
            let mut trail: Vec<Entry> = Vec::new();
            let mut i: usize = 0;
            while i < self.buf.len()
                invariant
                    self == old(self),
                    i <= self.buf@.len(),
                    trail@.len() == i,
                    forall|j: int| 0 <= j < i ==> trail@[j]@ == self.buf@[j]@,
                decreases self.buf@.len() - i,
            {
                trail.push(copy_entry(&self.buf[i]));
                i = i + 1;
            }
            proof {
                assert(models_of(trail@) =~= models_of(self.buf@));
            }
            let sealed = seal_leaf(forest, trail);
            match sealed {
                Ok(c) => {
                    tail = Option::Some(c);
                },
                Err(e) => {
                    proof {
                        assert(self.denote(forest.node_map()) =~= d0);
                    }
                    return Err(e);
                },
            }
        }
        let ghost nodes1 = forest.node_map();
        proof {
            lemma_mixed_mono(nodes0, nodes1, self.spine@);
            assert(self.denote(nodes1) == d0);
            lemma_mixed_ge_len(nodes1, self.spine@);
            assert(old(self).spine@.len() <= COUNT_MAX);
            assert(self.spine@.skip(self.spine@.len() as int) =~= Seq::<ChildRef>::empty());
            assert(tail_entries(nodes1, tail) == mixed_entries(
                nodes1,
                self.spine@.skip(self.spine@.len() as int),
            ) + models_of(self.buf@));
        }
        let mut idx = self.spine.len();
        while idx > 0
            invariant
                idx <= self.spine@.len(),
                self.core_wf(forest.node_map()),
                forest.wf(),
                map_incl(nodes0, forest.node_map()),
                forest.secret_key() == old(forest).secret_key(),
                forest.nonce_view() == old(forest).nonce_view(),
                self.denote(forest.node_map()) == d0,
                self.config_spec() == old(self).config_spec(),
                self.secret_key() == old(self).secret_key(),
                self.current_tree() == old(self).current_tree(),
                self.spine@ == old(self).spine@,
                self.buf@ == old(self).buf@,
                tail_wf(forest.node_map(), tail),
                tail matches Option::Some(t) ==> t.level <= 64 + (self.spine@.len() - idx),
                tail_entries(forest.node_map(), tail) == mixed_entries(
                    forest.node_map(),
                    self.spine@.skip(idx as int),
                ) + models_of(self.buf@),
            decreases idx,
        {
            idx = idx - 1;
            let r0 = self.spine[idx];
            let ghost nodes_a = forest.node_map();
            proof {
                assert(self.spine@.skip(idx as int) =~= seq![r0] + self.spine@.skip(
                    idx as int + 1,
                ));
                lemma_mixed_concat(nodes_a, seq![r0], self.spine@.skip(idx as int + 1));
                assert(seq![r0].len() == 1);
                assert(seq![r0].last() == r0);
                assert(seq![r0].drop_last() =~= Seq::<ChildRef>::empty());
                assert(mixed_entries(nodes_a, seq![r0].drop_last()) == mixed_entries(
                    nodes_a,
                    Seq::<ChildRef>::empty(),
                ));
                assert(mixed_entries(nodes_a, seq![r0]) =~= ref_entries(
                    nodes_a,
                    r0,
                    r0.level as nat,
                ));
                assert(ref_wf(nodes_a, r0, r0.level as nat));
                lemma_ref_count(nodes_a, r0, r0.level as nat);
                assert(pow2((#[trigger] self.spine@[idx as int]).level as nat)
                    <= self.spine@[idx as int].count);
                lemma_level_bound(r0.level, r0.count);
            }
            match tail {
                Option::None => {
                    proof {
                        assert(tail_entries(nodes_a, tail).len() == 0);
                        assert(mixed_entries(nodes_a, self.spine@.skip(idx as int + 1)).len()
                            + models_of(self.buf@).len() == 0);
                        assert(tail_entries(nodes_a, Option::Some(r0)) =~= mixed_entries(
                            nodes_a,
                            self.spine@.skip(idx as int),
                        ) + models_of(self.buf@));
                    }
                    tail = Option::Some(r0);
                },
                Option::Some(t0) => {
                    let ghost t_ents = ref_entries(nodes_a, t0, t0.level as nat);
                    let ghost r_ents = ref_entries(nodes_a, r0, r0.level as nat);
                    proof {
                        lemma_ref_count(nodes_a, t0, t0.level as nat);
                        assert(self.spine@ =~= self.spine@.take(idx as int) + self.spine@.skip(
                            idx as int,
                        ));
                        lemma_mixed_concat(
                            nodes_a,
                            self.spine@.take(idx as int),
                            self.spine@.skip(idx as int),
                        );
                        assert(self.denote(nodes_a).len() <= COUNT_MAX);
                        assert(r_ents.len() + t_ents.len() <= COUNT_MAX);
                    }
                    proof {
                        assert(mixed_entries(nodes_a, self.spine@.skip(idx as int))
                            + models_of(self.buf@) =~= r_ents + t_ents);
                    }
                    let ghost lb: int = 63 + (self.spine@.len() - idx);
                    proof {
                        assert(r0.level <= lb);
                        assert(t0.level <= lb);
                        assert(lb <= 63 + COUNT_MAX);
                    }
                    let mut a = r0;
                    let mut t = t0;
                    while a.level < t.level
                        invariant
                            forest.wf(),
                            map_incl(nodes0, forest.node_map()),
                            forest.secret_key() == old(forest).secret_key(),
                            forest.nonce_view() == old(forest).nonce_view(),
                            self.core_wf(forest.node_map()),
                            self.denote(forest.node_map()) == d0,
                            self.config_spec() == old(self).config_spec(),
                            self.secret_key() == old(self).secret_key(),
                            self.current_tree() == old(self).current_tree(),
                            self.spine@ == old(self).spine@,
                            self.buf@ == old(self).buf@,
                            ref_wf(forest.node_map(), a, a.level as nat),
                            ref_wf(forest.node_map(), t, t.level as nat),
                            ref_entries(forest.node_map(), a, a.level as nat) == r_ents,
                            ref_entries(forest.node_map(), t, t.level as nat) == t_ents,
                            a.count == r_ents.len(),
                            t.count == t_ents.len(),
                            a.level <= lb,
                            t.level <= lb,
                            lb <= 63 + COUNT_MAX,
                            r_ents.len() + t_ents.len() <= COUNT_MAX,
                            mixed_entries(forest.node_map(), self.spine@.skip(idx as int))
                                + models_of(self.buf@) == r_ents + t_ents,
                        decreases t.level - a.level,
                    {
                        let mut g: Vec<ChildRef> = Vec::new();
                        g.push(a);
                        let ghost nodes_w = forest.node_map();
                        proof {
                            assert(g@ =~= seq![a]);
                            assert(seq![a].len() == 1);
                            assert(seq![a].last() == a);
                            assert(seq![a].drop_last() =~= Seq::<ChildRef>::empty());
                            assert(refs_count(seq![a].drop_last()) == refs_count(
                                Seq::<ChildRef>::empty(),
                            ));
                            assert(refs_count(seq![a]) == a.count);
                            assert(refs_entries(nodes_w, seq![a].drop_last(), a.level as nat)
                                == refs_entries(
                                nodes_w,
                                Seq::<ChildRef>::empty(),
                                a.level as nat,
                            ));
                            assert(refs_entries(nodes_w, seq![a], a.level as nat)
                                =~= ref_entries(nodes_w, a, a.level as nat));
                        }
                        let sealed = seal_branch(forest, g, a.level + 1);
                        let w = match sealed {
                            Ok(w) => w,
                            Err(e) => {
                                return Err(e);
                            },
                        };
                        proof {
                            let nm = forest.node_map();
                            lemma_mixed_mono(nodes_w, nm, self.spine@);
                            lemma_ref_mono(nodes_w, nm, t, t.level as nat);
                            assert(ref_entries(nm, w, w.level as nat) == r_ents);
                            let sk = self.spine@.skip(idx as int);
                            assert forall|j: int|
                                0 <= j < sk.len() implies ref_wf(
                                nodes_w,
                                #[trigger] sk[j],
                                sk[j].level as nat,
                            ) by {
                                assert(sk[j] == self.spine@[idx + j]);
                            }
                            lemma_mixed_mono(nodes_w, nm, sk);
                        }
                        a = w;
                    }
                    while t.level < a.level
                        invariant
                            forest.wf(),
                            map_incl(nodes0, forest.node_map()),
                            forest.secret_key() == old(forest).secret_key(),
                            forest.nonce_view() == old(forest).nonce_view(),
                            self.core_wf(forest.node_map()),
                            self.denote(forest.node_map()) == d0,
                            self.config_spec() == old(self).config_spec(),
                            self.secret_key() == old(self).secret_key(),
                            self.current_tree() == old(self).current_tree(),
                            self.spine@ == old(self).spine@,
                            self.buf@ == old(self).buf@,
                            ref_wf(forest.node_map(), a, a.level as nat),
                            ref_wf(forest.node_map(), t, t.level as nat),
                            ref_entries(forest.node_map(), a, a.level as nat) == r_ents,
                            ref_entries(forest.node_map(), t, t.level as nat) == t_ents,
                            a.count == r_ents.len(),
                            t.count == t_ents.len(),
                            t.level <= a.level,
                            a.level <= lb,
                            t.level <= lb,
                            lb <= 63 + COUNT_MAX,
                            r_ents.len() + t_ents.len() <= COUNT_MAX,
                            mixed_entries(forest.node_map(), self.spine@.skip(idx as int))
                                + models_of(self.buf@) == r_ents + t_ents,
                        decreases a.level - t.level,
                    {
                        let mut g: Vec<ChildRef> = Vec::new();
                        g.push(t);
                        let ghost nodes_w = forest.node_map();
                        proof {
                            assert(g@ =~= seq![t]);
                            assert(seq![t].len() == 1);
                            assert(seq![t].last() == t);
                            assert(seq![t].drop_last() =~= Seq::<ChildRef>::empty());
                            assert(refs_count(seq![t].drop_last()) == refs_count(
                                Seq::<ChildRef>::empty(),
                            ));
                            assert(refs_count(seq![t]) == t.count);
                            assert(refs_entries(nodes_w, seq![t].drop_last(), t.level as nat)
                                == refs_entries(
                                nodes_w,
                                Seq::<ChildRef>::empty(),
                                t.level as nat,
                            ));
                            assert(refs_entries(nodes_w, seq![t], t.level as nat)
                                =~= ref_entries(nodes_w, t, t.level as nat));
                        }
                        let sealed = seal_branch(forest, g, t.level + 1);
                        let w = match sealed {
                            Ok(w) => w,
                            Err(e) => {
                                return Err(e);
                            },
                        };
                        proof {
                            let nm = forest.node_map();
                            lemma_mixed_mono(nodes_w, nm, self.spine@);
                            lemma_ref_mono(nodes_w, nm, a, a.level as nat);
                            assert(ref_entries(nm, w, w.level as nat) == t_ents);
                            let sk = self.spine@.skip(idx as int);
                            assert forall|j: int|
                                0 <= j < sk.len() implies ref_wf(
                                nodes_w,
                                #[trigger] sk[j],
                                sk[j].level as nat,
                            ) by {
                                assert(sk[j] == self.spine@[idx + j]);
                            }
                            lemma_mixed_mono(nodes_w, nm, sk);
                        }
                        t = w;
                    }
                    proof {
                        assert(a.level <= 63 + COUNT_MAX);
                        assert(a.level + 1 <= u64::MAX);
                    }
                    let mut g: Vec<ChildRef> = Vec::new();
                    g.push(a);
                    g.push(t);
                    let ghost nodes_p = forest.node_map();
                    proof {
                        assert(g@ =~= seq![a, t]);
                        assert(seq![a, t].len() == 2);
                        assert(seq![a, t].last() == t);
                        assert(seq![a, t].drop_last() =~= seq![a]);
                        assert(seq![a].len() == 1);
                        assert(seq![a].last() == a);
                        assert(seq![a].drop_last() =~= Seq::<ChildRef>::empty());
                        assert(refs_count(seq![a].drop_last()) == refs_count(
                            Seq::<ChildRef>::empty(),
                        ));
                        assert(refs_count(seq![a, t].drop_last()) == refs_count(seq![a]));
                        assert(refs_count(seq![a, t]) == a.count + t.count);
                        assert(g@[0] == a);
                        assert(g@[1] == t);
                        assert(refs_entries(nodes_p, seq![a, t].drop_last(), a.level as nat)
                            == refs_entries(nodes_p, seq![a], a.level as nat));
                        assert(refs_entries(nodes_p, seq![a, t], a.level as nat)
                            == refs_entries(nodes_p, seq![a], a.level as nat) + ref_entries(
                            nodes_p,
                            t,
                            a.level as nat,
                        ));
                        assert(refs_entries(nodes_p, seq![a].drop_last(), a.level as nat)
                            == refs_entries(
                            nodes_p,
                            Seq::<ChildRef>::empty(),
                            a.level as nat,
                        ));
                        assert(refs_entries(nodes_p, seq![a], a.level as nat) =~= ref_entries(
                            nodes_p,
                            a,
                            a.level as nat,
                        ));
                    }
                    let sealed = seal_branch(forest, g, a.level + 1);
                    let p = match sealed {
                        Ok(p) => p,
                        Err(e) => {
                            return Err(e);
                        },
                    };
                    proof {
                        let nm = forest.node_map();
                        lemma_mixed_mono(nodes_p, nm, self.spine@);
                        assert(ref_entries(nm, p, p.level as nat) == r_ents + t_ents);
                        let sk = self.spine@.skip(idx as int);
                        assert forall|j: int|
                            0 <= j < sk.len() implies ref_wf(
                            nodes_p,
                            #[trigger] sk[j],
                            sk[j].level as nat,
                        ) by {
                            assert(sk[j] == self.spine@[idx + j]);
                        }
                        lemma_mixed_mono(nodes_p, nm, sk);
                        assert(tail_entries(nm, Option::Some(p)) == mixed_entries(nm, sk)
                            + models_of(self.buf@));
                    }
                    tail = Option::Some(p);
                },
            }
        }
        proof {
            assert(self.spine@.skip(0) =~= self.spine@);
            assert(tail_entries(forest.node_map(), tail) == self.denote(forest.node_map()));
        }
        match tail {
            Option::None => {
                self.tip = Option::None;
                self.tree = Tree { root: Option::None, level: 0, count: 0 };
                proof {
                    assert(self.denote(forest.node_map()).len() == 0);
                }
                Ok(())
            },
            Option::Some(c) => {
                proof {
                    lemma_ref_count(forest.node_map(), c, c.level as nat);
                }
                self.tip = Option::Some(c);
                self.tree = Tree {
                    root: Option::Some(c.link),
                    level: c.level,
                    count: c.count,
                };
                Ok(())
            },
        }
    }

    /// Append entries: buffer them, seal full leaves, fold full branch
    /// runs, and refresh the snapshot handle. On success the builder
    /// denotes its old entries followed by the new ones, in order. Fails
    /// with `Corrupt` (and changes nothing) exactly when the builder's
    /// secrets are not the forest's; fails with `StoreFailure` only when
    /// the store holds a genuine digest collision for some node (a
    /// refused block), leaving all already-sealed nodes persisted, an
    /// initial part of the entries appended, and a stale but still valid
    /// snapshot handle.
    #[verifier::loop_isolation(false)]
    pub fn append(&mut self, forest: &mut Forest, entries: Vec<Entry>) -> (r: Result<(), Error>)
        requires
            old(self).wf_for(old(forest).node_map()),
            old(forest).wf(),
            forall|i: int| 0 <= i < entries@.len() ==> entry_m_wf(#[trigger] entries@[i]@),
            old(self).denote(old(forest).node_map()).len() + entries@.len() <= COUNT_MAX,
        ensures
            final(forest).wf(),
            final(forest).secret_key() == old(forest).secret_key(),
            final(forest).nonce_view() == old(forest).nonce_view(),
            map_incl(old(forest).node_map(), final(forest).node_map()),
            final(self).config_spec() == old(self).config_spec(),
            final(self).secret_key() == old(self).secret_key(),
            old(self).secret_key() != old(forest).secret_key() ==> r == Err::<(), Error>(
                Error::Corrupt,
            ),
            match r {
                Ok(u) => {
                    &&& final(self).wf_for(final(forest).node_map())
                    &&& final(self).denote(final(forest).node_map()) == old(self).denote(
                        old(forest).node_map(),
                    ) + models_of(entries@)
                },
                Err(e) => {
                    &&& (e == Error::Corrupt || e == Error::StoreFailure)
                    &&& (e == Error::Corrupt ==> old(self).secret_key() != old(
                        forest,
                    ).secret_key() && *final(self) == *old(self) && final(forest).node_map()
                        == old(forest).node_map())
                    &&& (e == Error::StoreFailure ==> final(self).core_wf(
                        final(forest).node_map(),
                    ) && tree_valid(final(forest).node_map(), final(self).current_tree())
                        && (exists|m: NodeModel| final(forest).collision_on(m)) && (
                    exists|k: int|
                        0 <= k <= entries@.len() && final(self).denote(
                            final(forest).node_map(),
                        ) == old(self).denote(old(forest).node_map()) + models_of(
                            entries@.take(k),
                        )))
                },
            },
    {
        if !forest.secrets_match(&self.secrets) {
            return Err(Error::Corrupt);
        }
        let ghost nodes0 = old(forest).node_map();
        let ghost d0 = old(self).denote(nodes0);
        let ghost old_tree = old(self).current_tree();
        let n = entries.len();
        let mut i: usize = 0;
        while i < n
            invariant
                i <= n,
                n == entries@.len(),
                forall|j: int| 0 <= j < entries@.len() ==> entry_m_wf(
                    #[trigger] entries@[j]@,
                ),
                self.core_wf(forest.node_map()),
                forest.wf(),
                map_incl(nodes0, forest.node_map()),
                forest.secret_key() == old(forest).secret_key(),
                forest.nonce_view() == old(forest).nonce_view(),
                self.denote(forest.node_map()) == d0 + models_of(entries@.take(i as int)),
                d0.len() + entries@.len() <= COUNT_MAX,
                self.config_spec() == old(self).config_spec(),
                self.secret_key() == old(self).secret_key(),
                self.current_tree() == old_tree,
            decreases n - i,
        {
            if self.buf.len() == self.config.leaf_max {
                let fr = self.flush_leaf(forest);
                match fr {
                    Ok(u) => {
                    },
                    Err(e) => {
                        proof {
                            lemma_tree_facts(nodes0, forest.node_map(), old_tree);
                        }
                        return Err(e);
                    },
                }
            }
            self.buf.push(copy_entry(&entries[i]));
            proof {
                let prev = self.denote(forest.node_map());
                assert(models_of(self.buf@) =~= models_of(self.buf@.drop_last()).push(
                    entries@[i as int]@,
                ));
                assert(models_of(entries@.take(i as int + 1)) =~= models_of(entries@.take(
                    i as int,
                )).push(entries@[i as int]@));
                assert(self.denote(forest.node_map()) =~= (d0 + models_of(entries@.take(
                    i as int,
                ))).push(entries@[i as int]@));
                assert((d0 + models_of(entries@.take(i as int))).push(entries@[i as int]@)
                    =~= d0 + models_of(entries@.take(i as int + 1)));
            }
            i = i + 1;
        }
        proof {
            assert(entries@.take(entries@.len() as int) =~= entries@);
        }
        if self.buf.len() == self.config.leaf_max {
            let fr = self.flush_leaf(forest);
            match fr {
                Ok(u) => {
                },
                Err(e) => {
                    proof {
                        lemma_tree_facts(nodes0, forest.node_map(), old_tree);
                    }
                    return Err(e);
                },
            }
        }
        let rr = self.rebuild(forest);
        match rr {
            Ok(u) => {
                Ok(())
            },
            Err(e) => {
                proof {
                    lemma_tree_facts(nodes0, forest.node_map(), old_tree);
                }
                Err(e)
            },
        }
    }
}


} // verus!
