//! The semantic model of persisted trees: which child references denote
//! well-formed subtrees of a link-to-node map, and which entry sequence a
//! subtree stands for.

use vstd::prelude::*;
use crate::types::{Key, Summary, Link, EntryModel, NodeModel, ChildRef, Query, sum_of_keys,
    sum_of_sums, summary_covers, q_matches, lemma_sum_of_keys_covers, lemma_sum_of_sums_covers};
use crate::codec::node_m_wf;

verus! {

/// Sum of the cached entry counts of a run of children.
pub open spec fn refs_count(cs: Seq<ChildRef>) -> int
    decreases cs.len(),
{
    if cs.len() == 0 {
        0
    } else {
        refs_count(cs.drop_last()) + cs.last().count
    }
}

/// One map extends another.
pub open spec fn map_incl(a: Map<Link, NodeModel>, b: Map<Link, NodeModel>) -> bool {
    forall|l: Link|
        #[trigger] a.dom().contains(l) ==> b.dom().contains(l) && a[l] == b[l]
}

/// `r` denotes a well-formed subtree of height `level` in `nodes`: the
/// link resolves, levels step down uniformly, cached counts equal the
/// number of entries beneath, and summaries are the hulls of the keys
/// beneath.
pub open spec fn ref_wf(nodes: Map<Link, NodeModel>, r: ChildRef, level: nat) -> bool
    decreases level,
{
    &&& r.level == level
    &&& nodes.dom().contains(r.link)
    &&& node_m_wf(nodes[r.link])
    &&& match nodes[r.link] {
        NodeModel::Leaf { entries } => {
            &&& level == 0
            &&& entries.len() >= 1
            &&& r.count == entries.len()
            &&& r.summary == sum_of_keys(entries.map_values(|e: EntryModel| e.key))
        },
        NodeModel::Branch { children } => {
            &&& level >= 1
            &&& children.len() >= 1
            &&& r.count == refs_count(children)
            &&& r.summary == sum_of_sums(children.map_values(|c: ChildRef| c.summary))
            &&& forall|i: int|
                0 <= i < children.len() ==> ref_wf(nodes, #[trigger] children[i], (level
                    - 1) as nat)
        },
    }
}

/// The entries beneath a subtree, in order.
pub open spec fn ref_entries(nodes: Map<Link, NodeModel>, r: ChildRef, level: nat) -> Seq<
    EntryModel,
>
    decreases level, 0int,
{
    if nodes.dom().contains(r.link) {
        match nodes[r.link] {
            NodeModel::Leaf { entries } => entries,
            NodeModel::Branch { children } => {
                if level >= 1 {
                    refs_entries(nodes, children, (level - 1) as nat)
                } else {
                    Seq::empty()
                }
            },
        }
    } else {
        Seq::empty()
    }
}

/// The entries beneath a run of subtrees, in order.
pub open spec fn refs_entries(nodes: Map<Link, NodeModel>, cs: Seq<ChildRef>, level: nat) -> Seq<
    EntryModel,
>
    decreases level, cs.len() + 1,
{
    if cs.len() == 0 {
        Seq::empty()
    } else {
        refs_entries(nodes, cs.drop_last(), level) + ref_entries(nodes, cs.last(), level)
    }
}

/// Appending one more subtree appends its entries.
pub proof fn lemma_refs_entries_push(
    nodes: Map<Link, NodeModel>,
    cs: Seq<ChildRef>,
    c: ChildRef,
    level: nat,
)
    ensures
        refs_entries(nodes, cs.push(c), level) == refs_entries(nodes, cs, level) + ref_entries(
            nodes,
            c,
            level,
        ),
{
    assert(cs.push(c).drop_last() =~= cs);
    assert(cs.push(c).last() == c);
}

/// A well-formed subtree holds exactly `count` entries.
pub proof fn lemma_ref_count(nodes: Map<Link, NodeModel>, r: ChildRef, level: nat)
    requires
        ref_wf(nodes, r, level),
    ensures
        ref_entries(nodes, r, level).len() == r.count,
    decreases level, 0int,
{
    match nodes[r.link] {
        NodeModel::Leaf { entries } => {
        },
        NodeModel::Branch { children } => {
            lemma_refs_count(nodes, children, (level - 1) as nat);
        },
    }
}

/// A run of well-formed subtrees holds exactly the sum of its counts.
pub proof fn lemma_refs_count(nodes: Map<Link, NodeModel>, cs: Seq<ChildRef>, level: nat)
    requires
        forall|i: int| 0 <= i < cs.len() ==> ref_wf(nodes, #[trigger] cs[i], level),
    ensures
        refs_entries(nodes, cs, level).len() == refs_count(cs),
        refs_count(cs) >= cs.len(),
    decreases level, cs.len() + 1,
{
    if cs.len() > 0 {
        assert(forall|i: int|
            0 <= i < cs.drop_last().len() ==> ref_wf(nodes, #[trigger] cs.drop_last()[i], level));
        lemma_refs_count(nodes, cs.drop_last(), level);
        assert(ref_wf(nodes, cs.last(), level));
        lemma_ref_count(nodes, cs.last(), level);
        lemma_ref_nonempty(nodes, cs.last(), level);
    }
}

/// A well-formed subtree holds at least one entry.
pub proof fn lemma_ref_nonempty(nodes: Map<Link, NodeModel>, r: ChildRef, level: nat)
    requires
        ref_wf(nodes, r, level),
    ensures
        r.count >= 1,
    decreases level, 0int,
{
    match nodes[r.link] {
        NodeModel::Leaf { entries } => {
        },
        NodeModel::Branch { children } => {
            assert(ref_wf(nodes, children[0], (level - 1) as nat));
            lemma_ref_nonempty(nodes, children[0], (level - 1) as nat);
            lemma_refs_count_lower(nodes, children, (level - 1) as nat);
        },
    }
}

proof fn lemma_refs_count_lower(nodes: Map<Link, NodeModel>, cs: Seq<ChildRef>, level: nat)
    requires
        forall|i: int| 0 <= i < cs.len() ==> ref_wf(nodes, #[trigger] cs[i], level),
    ensures
        refs_count(cs) >= cs.len(),
    decreases level, cs.len() + 1,
{
    if cs.len() > 0 {
        assert(forall|i: int|
            0 <= i < cs.drop_last().len() ==> ref_wf(nodes, #[trigger] cs.drop_last()[i], level));
        lemma_refs_count_lower(nodes, cs.drop_last(), level);
        lemma_ref_nonempty(nodes, cs.last(), level);
    }
}

/// The summary of a well-formed subtree covers the key of each entry
/// beneath it.
pub proof fn lemma_ref_covers(nodes: Map<Link, NodeModel>, r: ChildRef, level: nat, j: int)
    requires
        ref_wf(nodes, r, level),
        0 <= j < ref_entries(nodes, r, level).len(),
    ensures
        summary_covers(r.summary, ref_entries(nodes, r, level)[j].key),
    decreases level, 0int,
{
    match nodes[r.link] {
        NodeModel::Leaf { entries } => {
            let keys = entries.map_values(|e: EntryModel| e.key);
            assert(keys[j] == entries[j].key);
            lemma_sum_of_keys_covers(keys, j);
        },
        NodeModel::Branch { children } => {
            lemma_refs_covers(nodes, children, (level - 1) as nat, j, children.map_values(
                |c: ChildRef| c.summary,
            ));
        },
    }
}

/// In a run of well-formed subtrees, each entry's key is covered by the
/// hull of the run's summaries.
pub proof fn lemma_refs_covers(
    nodes: Map<Link, NodeModel>,
    cs: Seq<ChildRef>,
    level: nat,
    j: int,
    sums: Seq<Summary>,
)
    requires
        forall|i: int| 0 <= i < cs.len() ==> ref_wf(nodes, #[trigger] cs[i], level),
        0 <= j < refs_entries(nodes, cs, level).len(),
        sums == cs.map_values(|c: ChildRef| c.summary),
    ensures
        summary_covers(sum_of_sums(sums), refs_entries(nodes, cs, level)[j].key),
    decreases level, cs.len() + 1,
{
    let front = cs.drop_last();
    let flen = refs_entries(nodes, front, level).len();
    assert(cs.len() > 0);
    assert(forall|i: int|
        0 <= i < front.len() ==> ref_wf(nodes, #[trigger] front[i], level));
    if j < flen {
        lemma_refs_covers(nodes, front, level, j, front.map_values(|c: ChildRef| c.summary));
        assert(front.map_values(|c: ChildRef| c.summary) =~= sums.drop_last());
        let k = refs_entries(nodes, cs, level)[j].key;
        assert(refs_entries(nodes, cs, level)[j] == refs_entries(nodes, front, level)[j]);
        crate::types::lemma_join_covers(sum_of_sums(sums.drop_last()), sums.last(), k);
    } else {
        assert(ref_wf(nodes, cs.last(), level));
        lemma_ref_covers(nodes, cs.last(), level, j - flen);
        let k = refs_entries(nodes, cs, level)[j].key;
        assert(refs_entries(nodes, cs, level)[j] == ref_entries(nodes, cs.last(), level)[j
            - flen]);
        assert(sums.last() == cs.last().summary);
        crate::types::lemma_join_covers(sum_of_sums(sums.drop_last()), sums.last(), k);
    }
}

/// Validity and meaning of a subtree only grow with the node map.
pub proof fn lemma_ref_mono(
    n1: Map<Link, NodeModel>,
    n2: Map<Link, NodeModel>,
    r: ChildRef,
    level: nat,
)
    requires
        ref_wf(n1, r, level),
        map_incl(n1, n2),
    ensures
        ref_wf(n2, r, level),
        ref_entries(n2, r, level) == ref_entries(n1, r, level),
    decreases level, 0int,
{
    assert(n1.dom().contains(r.link));
    match n1[r.link] {
        NodeModel::Leaf { entries } => {
        },
        NodeModel::Branch { children } => {
            lemma_refs_mono(n1, n2, children, (level - 1) as nat);
        },
    }
}

/// Validity and meaning of a run of subtrees only grow with the node map.
pub proof fn lemma_refs_mono(
    n1: Map<Link, NodeModel>,
    n2: Map<Link, NodeModel>,
    cs: Seq<ChildRef>,
    level: nat,
)
    requires
        forall|i: int| 0 <= i < cs.len() ==> ref_wf(n1, #[trigger] cs[i], level),
        map_incl(n1, n2),
    ensures
        forall|i: int| 0 <= i < cs.len() ==> ref_wf(n2, #[trigger] cs[i], level),
        refs_entries(n2, cs, level) == refs_entries(n1, cs, level),
    decreases level, cs.len() + 1,
{
    if cs.len() > 0 {
        assert(forall|i: int|
            0 <= i < cs.drop_last().len() ==> ref_wf(n1, #[trigger] cs.drop_last()[i], level));
        lemma_refs_mono(n1, n2, cs.drop_last(), level);
        assert(ref_wf(n1, cs.last(), level));
        lemma_ref_mono(n1, n2, cs.last(), level);
        assert forall|i: int| 0 <= i < cs.len() implies ref_wf(n2, #[trigger] cs[i], level) by {
            if i < cs.len() - 1 {
                assert(cs.drop_last()[i] == cs[i]);
                assert(ref_wf(n2, cs.drop_last()[i], level));
            } else {
                assert(cs[i] == cs.last());
            }
        }
    }
}

/// Entry rows paired with their logical offsets from `start`.
pub open spec fn with_offsets(es: Seq<EntryModel>, start: int) -> Seq<(u64, Key, Seq<u8>)> {
    Seq::new(es.len(), |i: int| (((start + i) as u64), es[i].key, es[i].value))
}

/// Offset rows of a concatenation split at the join.
pub proof fn lemma_with_offsets_concat(a: Seq<EntryModel>, b: Seq<EntryModel>, start: int)
    ensures
        with_offsets(a + b, start) == with_offsets(a, start) + with_offsets(
            b,
            start + a.len(),
        ),
{
    assert(with_offsets(a + b, start) =~= with_offsets(a, start) + with_offsets(
        b,
        start + a.len(),
    ));
}


/// Skipping within a concatenation, inside the first part.
pub proof fn lemma_skip_concat_low(a: Seq<EntryModel>, b: Seq<EntryModel>, k: int)
    requires
        0 <= k <= a.len(),
    ensures
        (a + b).skip(k) == a.skip(k) + b,
{
    assert((a + b).skip(k) =~= a.skip(k) + b);
}

/// Skipping within a concatenation, past the first part.
pub proof fn lemma_skip_concat_high(a: Seq<EntryModel>, b: Seq<EntryModel>, k: int)
    requires
        0 <= k <= b.len(),
    ensures
        (a + b).skip(a.len() + k) == b.skip(k),
{
    assert((a + b).skip(a.len() + k) =~= b.skip(k));
}

/// Offset rows of a suffix are the suffix of the offset rows.
pub proof fn lemma_with_offsets_skip(es: Seq<EntryModel>, start: int, k: int)
    requires
        0 <= k <= es.len(),
    ensures
        with_offsets(es, start).skip(k) == with_offsets(es.skip(k), start + k),
{
    assert(with_offsets(es, start).skip(k) =~= with_offsets(es.skip(k), start + k));
}

/// The rows of `items` whose key the query selects, in order.
pub open spec fn filter_q(items: Seq<(u64, Key, Seq<u8>)>, q: Query) -> Seq<(u64, Key, Seq<u8>)>
    decreases items.len(),
{
    if items.len() == 0 {
        Seq::empty()
    } else {
        filter_q(items.drop_last(), q) + (if q_matches(q, items.last().1) {
            seq![items.last()]
        } else {
            Seq::empty()
        })
    }
}

/// Filtering distributes over concatenation.
pub proof fn lemma_filter_q_concat(
    a: Seq<(u64, Key, Seq<u8>)>,
    b: Seq<(u64, Key, Seq<u8>)>,
    q: Query,
)
    ensures
        filter_q(a + b, q) == filter_q(a, q) + filter_q(b, q),
    decreases b.len(),
{
    if b.len() == 0 {
        assert(a + b =~= a);
        assert(filter_q(a, q) + filter_q(b, q) =~= filter_q(a, q));
    } else {
        lemma_filter_q_concat(a, b.drop_last(), q);
        assert((a + b).drop_last() =~= a + b.drop_last());
        assert((a + b).last() == b.last());
        let tailpart = if q_matches(q, b.last().1) {
            seq![b.last()]
        } else {
            Seq::<(u64, Key, Seq<u8>)>::empty()
        };
        assert(filter_q(a + b, q) == (filter_q(a, q) + filter_q(b.drop_last(), q)) + tailpart);
        assert((filter_q(a, q) + filter_q(b.drop_last(), q)) + tailpart =~= filter_q(a, q)
            + (filter_q(b.drop_last(), q) + tailpart));
    }
}

/// Filtering a run without any selected key yields nothing.
pub proof fn lemma_filter_q_none(items: Seq<(u64, Key, Seq<u8>)>, q: Query)
    requires
        forall|i: int| 0 <= i < items.len() ==> !q_matches(q, #[trigger] items[i].1),
    ensures
        filter_q(items, q) == Seq::<(u64, Key, Seq<u8>)>::empty(),
    decreases items.len(),
{
    if items.len() > 0 {
        assert(forall|i: int|
            0 <= i < items.drop_last().len() ==> !q_matches(
                q,
                #[trigger] items.drop_last()[i].1,
            ));
        lemma_filter_q_none(items.drop_last(), q);
        assert(!q_matches(q, items.last().1));
        assert(filter_q(items, q) =~= Seq::<(u64, Key, Seq<u8>)>::empty());
    }
}

/// Filtering one appended row keeps or drops just that row.
pub proof fn lemma_filter_q_push(items: Seq<(u64, Key, Seq<u8>)>, t: (u64, Key, Seq<u8>), q: Query)
    ensures
        q_matches(q, t.1) ==> filter_q(items.push(t), q) == filter_q(items, q).push(t),
        !q_matches(q, t.1) ==> filter_q(items.push(t), q) == filter_q(items, q),
{
    assert(items.push(t).drop_last() =~= items);
    assert(items.push(t).last() == t);
    if q_matches(q, t.1) {
        assert(filter_q(items, q) + seq![t] =~= filter_q(items, q).push(t));
    } else {
        assert(filter_q(items, q) + Seq::<(u64, Key, Seq<u8>)>::empty() =~= filter_q(items, q));
    }
}

} // verus!
