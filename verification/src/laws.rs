//! The engine's general laws, stated and proved over the same spec
//! functions that the public contracts use.

use vstd::prelude::*;
use crate::types::{Key, Link, NodeModel, ChildRef, Query, q_matches};
use crate::semantics::{ref_wf, ref_entries, with_offsets, filter_q};
use crate::builder::{StreamBuilder, Tree, tree_valid, tree_entries, lemma_tree_facts};
use crate::forest::{Forest, lemma_sealed_stable};
use crate::digest::link_of;

verus! {

/// Round-trip: the rows a full traversal yields for a builder's snapshot
/// are exactly the entries the builder has accumulated, in order, with
/// offsets `0 .. count`. Together with `Transaction::extend` (which
/// ensures the accumulated entries are the old ones followed by the
/// appended ones) and `Transaction::iter_from` (which ensures the rows
/// match this tree reading), appending entries and reading the snapshot
/// back yields them unchanged.
pub proof fn law_round_trip(nodes: Map<Link, NodeModel>, b: &StreamBuilder)
    requires
        b.wf_for(nodes),
    ensures
        tree_valid(nodes, b.current_tree()),
        tree_entries(nodes, b.current_tree()) == b.denote(nodes),
        with_offsets(b.denote(nodes), 0).len() == b.denote(nodes).len(),
        forall|i: int|
            0 <= i < b.denote(nodes).len() ==> #[trigger] with_offsets(b.denote(nodes), 0)[i]
                == ((i as u64, b.denote(nodes)[i].key, b.denote(nodes)[i].value)),
{
    b.lemma_snapshot_denotes(nodes);
}

/// Count invariant: a valid tree handle's cached `count` equals the
/// number of leaf entries beneath its root, and the same holds of every
/// well-formed child reference inside the tree.
pub proof fn law_count_invariant(nodes: Map<Link, NodeModel>, t: Tree)
    requires
        tree_valid(nodes, t),
    ensures
        tree_entries(nodes, t).len() == t.count,
{
    lemma_tree_facts(nodes, nodes, t);
}

/// Count invariant for a single node: a well-formed reference counts
/// exactly the entries beneath it.
pub proof fn law_node_count(nodes: Map<Link, NodeModel>, r: ChildRef, level: nat)
    requires
        ref_wf(nodes, r, level),
    ensures
        ref_entries(nodes, r, level).len() == r.count,
{
    crate::semantics::lemma_ref_count(nodes, r, level);
}

/// Balance invariant: beneath a well-formed reference to a branch, every
/// child sits at the same level, exactly one below the branch.
pub proof fn law_balance(nodes: Map<Link, NodeModel>, r: ChildRef, level: nat)
    requires
        ref_wf(nodes, r, level),
        nodes[r.link] matches NodeModel::Branch { .. },
    ensures
        level >= 1,
        nodes[r.link] matches NodeModel::Branch { children } ==> children.len() >= 1 && (
        forall|i: int|
            0 <= i < children.len() ==> (#[trigger] children[i]).level == level - 1) && (
        forall|i: int|
            0 <= i < children.len() ==> ref_wf(nodes, #[trigger] children[i], (level
                - 1) as nat)),
{
    assert(ref_wf(nodes, r, level));
    assert(nodes.dom().contains(r.link));
    match nodes[r.link] {
        NodeModel::Branch { children } => {
            assert(level >= 1 && children.len() >= 1);
            assert forall|i: int|
                0 <= i < children.len() implies (#[trigger] children[i]).level == level
                - 1 by {
                assert(ref_wf(nodes, children[i], (level - 1) as nat));
            }
        },
        NodeModel::Leaf { .. } => {
            assert(false);
        },
    }
}

/// Pruning soundness, stated of the filtered reading itself: every row it
/// keeps satisfies the query's key predicate, and every row of the full
/// reading that satisfies the predicate is kept. `iter_filtered` ensures
/// its rows equal this filtered reading of the same tree that `iter_from`
/// reads in full.
pub proof fn law_pruning(items: Seq<(u64, Key, Seq<u8>)>, q: Query)
    ensures
        forall|j: int|
            0 <= j < filter_q(items, q).len() ==> q_matches(
                q,
                (#[trigger] filter_q(items, q)[j]).1,
            ),
        forall|i: int|
            0 <= i < items.len() && q_matches(q, (#[trigger] items[i]).1) ==> exists|j: int|
                0 <= j < filter_q(items, q).len() && filter_q(items, q)[j] == items[i],
    decreases items.len(),
{
    if items.len() > 0 {
        law_pruning(items.drop_last(), q);
        let fr = filter_q(items, q);
        let front = filter_q(items.drop_last(), q);
        assert forall|i: int|
            0 <= i < items.len() && q_matches(q, (#[trigger] items[i]).1) implies exists|j: int|
            0 <= j < fr.len() && fr[j] == items[i] by {
            if i < items.len() - 1 {
                assert(items.drop_last()[i] == items[i]);
                let j = choose|j: int| 0 <= j < front.len() && front[j] == items.drop_last()[i];
                assert(fr[j] == items[i]);
            } else {
                assert(fr[fr.len() - 1] == items[i]);
            }
        }
    }
}

/// Idempotent snapshotting: two snapshots taken from the same builder
/// state are the same handle: same root link, level and count.
pub proof fn law_snapshot_idempotent(b: &StreamBuilder, t1: Tree, t2: Tree)
    requires
        t1 == b.current_tree(),
        t2 == b.current_tree(),
    ensures
        t1.root == t2.root,
        t1.level == t2.level,
        t1.count == t2.count,
{
}

/// Content addressing: the link a forest assigns to a node is a function
/// of the node's content and the forest's secrets and nonce alone, so
/// persisting identical content twice yields the same link; `persist`
/// further ensures the store gains no second entry for it.
pub proof fn law_content_addressing(f1: &Forest, f2: &Forest, m: NodeModel)
    requires
        f1.secret_key() == f2.secret_key(),
        f1.nonce_view() == f2.nonce_view(),
    ensures
        link_of(f1.sealed_of(m)) == link_of(f2.sealed_of(m)),
{
    lemma_sealed_stable(f1, f2, m);
}

} // verus!
