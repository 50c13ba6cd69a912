//! The node codec: a deterministic, self-delimiting binary encoding of
//! leaves and branches. The encoding is proved injective, and the decoder
//! is proved to invert the encoder.

use vstd::prelude::*;
use vstd::bytes::*;
use crate::types::{Key, Summary, Link, Entry, EntryModel, Node, NodeModel, ChildRef, copy_bytes};

verus! {

/// Longest value a single entry may carry.
pub const VALUE_MAX: usize = 65536;

/// Most entries a leaf may hold.
pub const LEAF_CAP: usize = 4096;

/// Most children a branch may hold.
pub const BRANCH_CAP: usize = 4096;

/// An entry small enough to encode.
pub open spec fn entry_m_wf(e: EntryModel) -> bool {
    e.value.len() <= VALUE_MAX
}

/// A node small enough to encode.
pub open spec fn node_m_wf(m: NodeModel) -> bool {
    match m {
        NodeModel::Leaf { entries } => entries.len() <= LEAF_CAP && (forall|i: int|
            0 <= i < entries.len() ==> entry_m_wf(#[trigger] entries[i])),
        NodeModel::Branch { children } => children.len() <= BRANCH_CAP,
    }
}

/// Encoding of a key: a tag byte and eight payload bytes.
pub open spec fn enc_key(k: Key) -> Seq<u8> {
    match k {
        Key::Unit => seq![0u8] + spec_u64_to_le_bytes(0u64),
        Key::U64(v) => seq![1u8] + spec_u64_to_le_bytes(v),
    }
}

/// Encoding of a summary: a tag byte and two eight-byte bounds.
pub open spec fn enc_summary(s: Summary) -> Seq<u8> {
    match s {
        Summary::Empty => seq![0u8] + spec_u64_to_le_bytes(0u64) + spec_u64_to_le_bytes(0u64),
        Summary::Range { min, max } => seq![1u8] + spec_u64_to_le_bytes(min)
            + spec_u64_to_le_bytes(max),
    }
}

/// Encoding of a link: its four words, little endian.
pub open spec fn enc_link(l: Link) -> Seq<u8> {
    spec_u64_to_le_bytes(l.w0) + spec_u64_to_le_bytes(l.w1) + spec_u64_to_le_bytes(l.w2)
        + spec_u64_to_le_bytes(l.w3)
}

/// Encoding of one entry: key, value length, value bytes.
pub open spec fn enc_entry(e: EntryModel) -> Seq<u8> {
    enc_key(e.key) + spec_u64_to_le_bytes(e.value.len() as u64) + e.value
}

/// Encoding of a run of entries.
pub open spec fn enc_entries(es: Seq<EntryModel>) -> Seq<u8>
    decreases es.len(),
{
    if es.len() == 0 {
        Seq::empty()
    } else {
        enc_entry(es.first()) + enc_entries(es.drop_first())
    }
}

/// Encoding of one child reference: link, count, level, summary.
pub open spec fn enc_child(c: ChildRef) -> Seq<u8> {
    enc_link(c.link) + spec_u64_to_le_bytes(c.count) + spec_u64_to_le_bytes(c.level)
        + enc_summary(c.summary)
}

/// Encoding of a run of child references.
pub open spec fn enc_children(cs: Seq<ChildRef>) -> Seq<u8>
    decreases cs.len(),
{
    if cs.len() == 0 {
        Seq::empty()
    } else {
        enc_child(cs.first()) + enc_children(cs.drop_first())
    }
}

/// Encoding of a node: a discriminator byte, the item count, the items.
pub open spec fn enc_node(m: NodeModel) -> Seq<u8> {
    match m {
        NodeModel::Leaf { entries } => seq![0u8] + spec_u64_to_le_bytes(entries.len() as u64)
            + enc_entries(entries),
        NodeModel::Branch { children } => seq![1u8] + spec_u64_to_le_bytes(
            children.len() as u64,
        ) + enc_children(children),
    }
}

pub proof fn lemma_enc_key_len(k: Key)
    ensures
        enc_key(k).len() == 9,
{
    lemma_auto_spec_u64_to_from_le_bytes();
}

pub proof fn lemma_enc_summary_len(s: Summary)
    ensures
        enc_summary(s).len() == 17,
{
    lemma_auto_spec_u64_to_from_le_bytes();
}

pub proof fn lemma_enc_child_len(c: ChildRef)
    ensures
        enc_child(c).len() == 65,
{
    lemma_auto_spec_u64_to_from_le_bytes();
    lemma_enc_summary_len(c.summary);
}

pub proof fn lemma_enc_entry_len(e: EntryModel)
    ensures
        enc_entry(e).len() == 17 + e.value.len(),
{
    lemma_auto_spec_u64_to_from_le_bytes();
    lemma_enc_key_len(e.key);
}

/// A run of entries encodes by peeling from the back as well.
pub proof fn lemma_enc_entries_snoc(es: Seq<EntryModel>)
    requires
        es.len() > 0,
    ensures
        enc_entries(es) == enc_entries(es.drop_last()) + enc_entry(es.last()),
    decreases es.len(),
{
    if es.len() == 1 {
        assert(es.drop_first().len() == 0);
        assert(es.drop_last().len() == 0);
        assert(enc_entries(es) == enc_entry(es.first()) + enc_entries(es.drop_first()));
        assert(es.first() == es.last());
        assert(enc_entries(es) =~= enc_entries(es.drop_last()) + enc_entry(es.last()));
    } else {
        lemma_enc_entries_snoc(es.drop_first());
        assert(es.drop_first().drop_last() =~= es.drop_last().drop_first());
        assert(es.drop_first().last() == es.last());
        assert(es.drop_last().first() == es.first());
        assert(es.drop_last().len() > 0);
        assert(enc_entries(es) == enc_entry(es.first()) + (enc_entries(
            es.drop_last().drop_first(),
        ) + enc_entry(es.last())));
        assert(enc_entries(es) =~= (enc_entry(es.drop_last().first()) + enc_entries(
            es.drop_last().drop_first(),
        )) + enc_entry(es.last()));
    }
}

/// A run of children encodes by peeling from the back as well.
pub proof fn lemma_enc_children_snoc(cs: Seq<ChildRef>)
    requires
        cs.len() > 0,
    ensures
        enc_children(cs) == enc_children(cs.drop_last()) + enc_child(cs.last()),
    decreases cs.len(),
{
    if cs.len() == 1 {
        assert(cs.drop_first().len() == 0);
        assert(cs.drop_last().len() == 0);
        assert(enc_children(cs) == enc_child(cs.first()) + enc_children(cs.drop_first()));
        assert(cs.first() == cs.last());
        assert(enc_children(cs) =~= enc_children(cs.drop_last()) + enc_child(cs.last()));
    } else {
        lemma_enc_children_snoc(cs.drop_first());
        assert(cs.drop_first().drop_last() =~= cs.drop_last().drop_first());
        assert(cs.drop_first().last() == cs.last());
        assert(cs.drop_last().first() == cs.first());
        assert(cs.drop_last().len() > 0);
        assert(enc_children(cs) == enc_child(cs.first()) + (enc_children(
            cs.drop_last().drop_first(),
        ) + enc_child(cs.last())));
        assert(enc_children(cs) =~= (enc_child(cs.drop_last().first()) + enc_children(
            cs.drop_last().drop_first(),
        )) + enc_child(cs.last()));
    }
}

/// Stepping one entry forward in the suffix of a run.
pub proof fn lemma_enc_entries_skip(es: Seq<EntryModel>, i: int)
    requires
        0 <= i < es.len(),
    ensures
        enc_entries(es.skip(i)) == enc_entry(es[i]) + enc_entries(es.skip(i + 1)),
{
    assert(es.skip(i).len() > 0);
    assert(es.skip(i).first() == es[i]);
    assert(es.skip(i).drop_first() =~= es.skip(i + 1));
}

/// Stepping one child forward in the suffix of a run.
pub proof fn lemma_enc_children_skip(cs: Seq<ChildRef>, i: int)
    requires
        0 <= i < cs.len(),
    ensures
        enc_children(cs.skip(i)) == enc_child(cs[i]) + enc_children(cs.skip(i + 1)),
{
    assert(cs.skip(i).len() > 0);
    assert(cs.skip(i).first() == cs[i]);
    assert(cs.skip(i).drop_first() =~= cs.skip(i + 1));
}

/// Size bound of an encoded run of entries.
pub proof fn lemma_enc_entries_size(es: Seq<EntryModel>)
    requires
        forall|i: int| 0 <= i < es.len() ==> entry_m_wf(#[trigger] es[i]),
    ensures
        enc_entries(es).len() <= es.len() * 65553,
    decreases es.len(),
{
    if es.len() > 0 {
        assert(entry_m_wf(es.first()));
        lemma_enc_entry_len(es.first());
        lemma_enc_entries_size(es.drop_first());
    }
}

/// Size bound of an encoded run of children.
pub proof fn lemma_enc_children_size(cs: Seq<ChildRef>)
    ensures
        enc_children(cs).len() == cs.len() * 65,
    decreases cs.len(),
{
    if cs.len() > 0 {
        lemma_enc_child_len(cs.first());
        lemma_enc_children_size(cs.drop_first());
    }
}

/// Size bound of an encoded node: always below the sealing limit.
pub proof fn lemma_enc_node_size(m: NodeModel)
    requires
        node_m_wf(m),
    ensures
        enc_node(m).len() <= 0x4000_0000,
{
    lemma_auto_spec_u64_to_from_le_bytes();
    match m {
        NodeModel::Leaf { entries } => {
            lemma_enc_entries_size(entries);
        },
        NodeModel::Branch { children } => {
            lemma_enc_children_size(children);
        },
    }
}

/// Two concatenations with equally long heads are equal piecewise.
pub proof fn lemma_same_prefix(a1: Seq<u8>, r1: Seq<u8>, a2: Seq<u8>, r2: Seq<u8>)
    requires
        a1 + r1 == a2 + r2,
        a1.len() == a2.len(),
    ensures
        a1 == a2,
        r1 == r2,
{
    let s = a1 + r1;
    assert forall|i: int| 0 <= i < a1.len() implies a1[i] == a2[i] by {
        assert(s[i] == a1[i]);
        assert((a2 + r2)[i] == a2[i]);
    }
    assert(a1 =~= a2);
    assert((a1 + r1).len() == a1.len() + r1.len());
    assert((a2 + r2).len() == a2.len() + r2.len());
    assert(r1.len() == r2.len());
    assert forall|i: int| 0 <= i < r1.len() implies r1[i] == r2[i] by {
        assert(s[a1.len() + i] == r1[i]);
        assert((a2 + r2)[a2.len() + i] == r2[i]);
    }
    assert(r1 =~= r2);
}

proof fn lemma_le_inj(a: u64, b: u64)
    requires
        spec_u64_to_le_bytes(a) == spec_u64_to_le_bytes(b),
    ensures
        a == b,
{
    lemma_auto_spec_u64_to_from_le_bytes();
}

proof fn lemma_enc_key_inj(k1: Key, k2: Key)
    requires
        enc_key(k1) == enc_key(k2),
    ensures
        k1 == k2,
{
    lemma_auto_spec_u64_to_from_le_bytes();
    let s1 = enc_key(k1);
    let s2 = enc_key(k2);
    match (k1, k2) {
        (Key::Unit, Key::Unit) => {
        },
        (Key::U64(a), Key::U64(b)) => {
            lemma_same_prefix(
                seq![1u8],
                spec_u64_to_le_bytes(a),
                seq![1u8],
                spec_u64_to_le_bytes(b),
            );
            lemma_le_inj(a, b);
        },
        (Key::Unit, Key::U64(b)) => {
            assert(s1[0] == 0u8);
            assert(s2[0] == 1u8);
        },
        (Key::U64(a), Key::Unit) => {
            assert(s1[0] == 1u8);
            assert(s2[0] == 0u8);
        },
    }
}

proof fn lemma_enc_summary_inj(s1: Summary, s2: Summary)
    requires
        enc_summary(s1) == enc_summary(s2),
    ensures
        s1 == s2,
{
    lemma_auto_spec_u64_to_from_le_bytes();
    let e1 = enc_summary(s1);
    let e2 = enc_summary(s2);
    match (s1, s2) {
        (Summary::Empty, Summary::Empty) => {
        },
        (Summary::Range { min: a0, max: a1 }, Summary::Range { min: b0, max: b1 }) => {
            lemma_same_prefix(
                seq![1u8] + spec_u64_to_le_bytes(a0),
                spec_u64_to_le_bytes(a1),
                seq![1u8] + spec_u64_to_le_bytes(b0),
                spec_u64_to_le_bytes(b1),
            );
            lemma_same_prefix(
                seq![1u8],
                spec_u64_to_le_bytes(a0),
                seq![1u8],
                spec_u64_to_le_bytes(b0),
            );
            lemma_le_inj(a0, b0);
            lemma_le_inj(a1, b1);
        },
        (Summary::Empty, Summary::Range { min: b0, max: b1 }) => {
            assert(e1[0] == 0u8);
            assert(e2[0] == 1u8);
        },
        (Summary::Range { min: a0, max: a1 }, Summary::Empty) => {
            assert(e1[0] == 1u8);
            assert(e2[0] == 0u8);
        },
    }
}

proof fn lemma_enc_link_inj(l1: Link, l2: Link)
    requires
        enc_link(l1) == enc_link(l2),
    ensures
        l1 == l2,
{
    lemma_auto_spec_u64_to_from_le_bytes();
    lemma_same_prefix(
        spec_u64_to_le_bytes(l1.w0) + spec_u64_to_le_bytes(l1.w1) + spec_u64_to_le_bytes(l1.w2),
        spec_u64_to_le_bytes(l1.w3),
        spec_u64_to_le_bytes(l2.w0) + spec_u64_to_le_bytes(l2.w1) + spec_u64_to_le_bytes(l2.w2),
        spec_u64_to_le_bytes(l2.w3),
    );
    lemma_same_prefix(
        spec_u64_to_le_bytes(l1.w0) + spec_u64_to_le_bytes(l1.w1),
        spec_u64_to_le_bytes(l1.w2),
        spec_u64_to_le_bytes(l2.w0) + spec_u64_to_le_bytes(l2.w1),
        spec_u64_to_le_bytes(l2.w2),
    );
    lemma_same_prefix(
        spec_u64_to_le_bytes(l1.w0),
        spec_u64_to_le_bytes(l1.w1),
        spec_u64_to_le_bytes(l2.w0),
        spec_u64_to_le_bytes(l2.w1),
    );
    lemma_le_inj(l1.w0, l2.w0);
    lemma_le_inj(l1.w1, l2.w1);
    lemma_le_inj(l1.w2, l2.w2);
    lemma_le_inj(l1.w3, l2.w3);
}

/// An encoded entry determines the entry and whatever follows it.
proof fn lemma_enc_entry_prefix(e1: EntryModel, r1: Seq<u8>, e2: EntryModel, r2: Seq<u8>)
    requires
        enc_entry(e1) + r1 == enc_entry(e2) + r2,
        entry_m_wf(e1),
        entry_m_wf(e2),
    ensures
        e1 == e2,
        r1 == r2,
{
    lemma_auto_spec_u64_to_from_le_bytes();
    lemma_enc_key_len(e1.key);
    lemma_enc_key_len(e2.key);
    let l1 = spec_u64_to_le_bytes(e1.value.len() as u64);
    let l2 = spec_u64_to_le_bytes(e2.value.len() as u64);
    assert(enc_key(e1.key) + (l1 + (e1.value + r1)) =~= enc_entry(e1) + r1);
    assert(enc_key(e2.key) + (l2 + (e2.value + r2)) =~= enc_entry(e2) + r2);
    lemma_same_prefix(
        enc_key(e1.key),
        l1 + (e1.value + r1),
        enc_key(e2.key),
        l2 + (e2.value + r2),
    );
    lemma_enc_key_inj(e1.key, e2.key);
    lemma_same_prefix(l1, e1.value + r1, l2, e2.value + r2);
    lemma_le_inj(e1.value.len() as u64, e2.value.len() as u64);
    assert(e1.value.len() == e2.value.len());
    lemma_same_prefix(e1.value, r1, e2.value, r2);
}

/// An encoded child determines the child and whatever follows it.
proof fn lemma_enc_child_prefix(c1: ChildRef, r1: Seq<u8>, c2: ChildRef, r2: Seq<u8>)
    requires
        enc_child(c1) + r1 == enc_child(c2) + r2,
    ensures
        c1 == c2,
        r1 == r2,
{
    lemma_auto_spec_u64_to_from_le_bytes();
    lemma_enc_summary_len(c1.summary);
    lemma_enc_summary_len(c2.summary);
    let n1 = spec_u64_to_le_bytes(c1.count);
    let n2 = spec_u64_to_le_bytes(c2.count);
    let v1 = spec_u64_to_le_bytes(c1.level);
    let v2 = spec_u64_to_le_bytes(c2.level);
    assert(enc_link(c1.link) + (n1 + (v1 + (enc_summary(c1.summary) + r1))) =~= enc_child(c1)
        + r1);
    assert(enc_link(c2.link) + (n2 + (v2 + (enc_summary(c2.summary) + r2))) =~= enc_child(c2)
        + r2);
    lemma_same_prefix(
        enc_link(c1.link),
        n1 + (v1 + (enc_summary(c1.summary) + r1)),
        enc_link(c2.link),
        n2 + (v2 + (enc_summary(c2.summary) + r2)),
    );
    lemma_enc_link_inj(c1.link, c2.link);
    lemma_same_prefix(
        n1,
        v1 + (enc_summary(c1.summary) + r1),
        n2,
        v2 + (enc_summary(c2.summary) + r2),
    );
    lemma_le_inj(c1.count, c2.count);
    lemma_same_prefix(v1, enc_summary(c1.summary) + r1, v2, enc_summary(c2.summary) + r2);
    lemma_le_inj(c1.level, c2.level);
    lemma_same_prefix(enc_summary(c1.summary), r1, enc_summary(c2.summary), r2);
    lemma_enc_summary_inj(c1.summary, c2.summary);
}

proof fn lemma_enc_entries_inj(es1: Seq<EntryModel>, es2: Seq<EntryModel>)
    requires
        enc_entries(es1) == enc_entries(es2),
        es1.len() == es2.len(),
        forall|i: int| 0 <= i < es1.len() ==> entry_m_wf(#[trigger] es1[i]),
        forall|i: int| 0 <= i < es2.len() ==> entry_m_wf(#[trigger] es2[i]),
    ensures
        es1 == es2,
    decreases es1.len(),
{
    if es1.len() == 0 {
        assert(es1 =~= es2);
    } else {
        assert(entry_m_wf(es1.first()));
        assert(entry_m_wf(es2.first()));
        lemma_enc_entry_prefix(
            es1.first(),
            enc_entries(es1.drop_first()),
            es2.first(),
            enc_entries(es2.drop_first()),
        );
        lemma_enc_entries_inj(es1.drop_first(), es2.drop_first());
        assert forall|i: int| 0 <= i < es1.len() implies es1[i] == es2[i] by {
            if i > 0 {
                assert(es1.drop_first()[i - 1] == es1[i]);
                assert(es2.drop_first()[i - 1] == es2[i]);
            }
        }
        assert(es1 =~= es2);
    }
}

proof fn lemma_enc_children_inj(cs1: Seq<ChildRef>, cs2: Seq<ChildRef>)
    requires
        enc_children(cs1) == enc_children(cs2),
        cs1.len() == cs2.len(),
    ensures
        cs1 == cs2,
    decreases cs1.len(),
{
    if cs1.len() == 0 {
        assert(cs1 =~= cs2);
    } else {
        lemma_enc_child_prefix(
            cs1.first(),
            enc_children(cs1.drop_first()),
            cs2.first(),
            enc_children(cs2.drop_first()),
        );
        lemma_enc_children_inj(cs1.drop_first(), cs2.drop_first());
        assert forall|i: int| 0 <= i < cs1.len() implies cs1[i] == cs2[i] by {
            if i > 0 {
                assert(cs1.drop_first()[i - 1] == cs1[i]);
                assert(cs2.drop_first()[i - 1] == cs2[i]);
            }
        }
        assert(cs1 =~= cs2);
    }
}

/// The node encoding is injective on encodable nodes.
pub proof fn lemma_enc_node_inj(m1: NodeModel, m2: NodeModel)
    requires
        enc_node(m1) == enc_node(m2),
        node_m_wf(m1),
        node_m_wf(m2),
    ensures
        m1 == m2,
{
    lemma_auto_spec_u64_to_from_le_bytes();
    let s1 = enc_node(m1);
    let s2 = enc_node(m2);
    match (m1, m2) {
        (NodeModel::Leaf { entries: a }, NodeModel::Leaf { entries: b }) => {
            assert(seq![0u8] + (spec_u64_to_le_bytes(a.len() as u64) + enc_entries(a)) =~= s1);
            assert(seq![0u8] + (spec_u64_to_le_bytes(b.len() as u64) + enc_entries(b)) =~= s2);
            lemma_same_prefix(
                seq![0u8],
                spec_u64_to_le_bytes(a.len() as u64) + enc_entries(a),
                seq![0u8],
                spec_u64_to_le_bytes(b.len() as u64) + enc_entries(b),
            );
            lemma_same_prefix(
                spec_u64_to_le_bytes(a.len() as u64),
                enc_entries(a),
                spec_u64_to_le_bytes(b.len() as u64),
                enc_entries(b),
            );
            lemma_le_inj(a.len() as u64, b.len() as u64);
            lemma_enc_entries_inj(a, b);
        },
        (NodeModel::Branch { children: a }, NodeModel::Branch { children: b }) => {
            assert(seq![1u8] + (spec_u64_to_le_bytes(a.len() as u64) + enc_children(a)) =~= s1);
            assert(seq![1u8] + (spec_u64_to_le_bytes(b.len() as u64) + enc_children(b)) =~= s2);
            lemma_same_prefix(
                seq![1u8],
                spec_u64_to_le_bytes(a.len() as u64) + enc_children(a),
                seq![1u8],
                spec_u64_to_le_bytes(b.len() as u64) + enc_children(b),
            );
            lemma_same_prefix(
                spec_u64_to_le_bytes(a.len() as u64),
                enc_children(a),
                spec_u64_to_le_bytes(b.len() as u64),
                enc_children(b),
            );
            lemma_le_inj(a.len() as u64, b.len() as u64);
            lemma_enc_children_inj(a, b);
        },
        (NodeModel::Leaf { entries: a }, NodeModel::Branch { children: b }) => {
            assert(s1[0] == 0u8);
            assert(s2[0] == 1u8);
        },
        (NodeModel::Branch { children: a }, NodeModel::Leaf { entries: b }) => {
            assert(s1[0] == 1u8);
            assert(s2[0] == 0u8);
        },
    }
}

/// Append the little-endian bytes of `v`.
fn push_u64(out: &mut Vec<u8>, v: u64)
    ensures
        final(out)@ == old(out)@ + spec_u64_to_le_bytes(v),
{
    let mut b = u64_to_le_bytes(v);
    out.append(&mut b);
}

/// Append the encoding of a key.
fn push_key(out: &mut Vec<u8>, k: Key)
    ensures
        final(out)@ == old(out)@ + enc_key(k),
{
    match k {
        Key::Unit => {
            out.push(0u8);
            proof {
                assert(out@ =~= old(out)@ + seq![0u8]);
            }
            push_u64(out, 0);
            proof {
                assert(out@ =~= old(out)@ + enc_key(k));
            }
        },
        Key::U64(v) => {
            out.push(1u8);
            proof {
                assert(out@ =~= old(out)@ + seq![1u8]);
            }
            push_u64(out, v);
            proof {
                assert(out@ =~= old(out)@ + enc_key(k));
            }
        },
    }
}

/// Append the encoding of a summary.
fn push_summary(out: &mut Vec<u8>, s: Summary)
    ensures
        final(out)@ == old(out)@ + enc_summary(s),
{
    match s {
        Summary::Empty => {
            out.push(0u8);
            proof {
                assert(out@ =~= old(out)@ + seq![0u8]);
            }
            push_u64(out, 0);
            push_u64(out, 0);
            proof {
                assert(out@ =~= old(out)@ + enc_summary(s));
            }
        },
        Summary::Range { min, max } => {
            out.push(1u8);
            proof {
                assert(out@ =~= old(out)@ + seq![1u8]);
            }
            push_u64(out, min);
            push_u64(out, max);
            proof {
                assert(out@ =~= old(out)@ + enc_summary(s));
            }
        },
    }
}

/// Append the encoding of one entry.
fn push_entry(out: &mut Vec<u8>, e: &Entry)
    ensures
        final(out)@ == old(out)@ + enc_entry(e@),
{
    push_key(out, e.key);
    push_u64(out, e.value.len() as u64);
    let mut v = copy_bytes(&e.value);
    out.append(&mut v);
    proof {
        assert(out@ =~= old(out)@ + enc_entry(e@));
    }
}

/// Append the encoding of one child reference.
fn push_child(out: &mut Vec<u8>, c: &ChildRef)
    ensures
        final(out)@ == old(out)@ + enc_child(*c),
{
    push_u64(out, c.link.w0);
    push_u64(out, c.link.w1);
    push_u64(out, c.link.w2);
    push_u64(out, c.link.w3);
    push_u64(out, c.count);
    push_u64(out, c.level);
    push_summary(out, c.summary);
    proof {
        assert(out@ =~= old(out)@ + enc_child(*c));
    }
}

/// Encode a node.
pub fn encode_node(n: &Node) -> (r: Vec<u8>)
    ensures
        r@ == enc_node(n@),
{
    let mut out: Vec<u8> = Vec::new();
    match n {
        Node::Leaf { entries } => {
            let ghost es = entries@.map_values(|e: Entry| e@);
            out.push(0u8);
            proof {
                assert(out@ =~= seq![0u8]);
            }
            push_u64(&mut out, entries.len() as u64);
            let ghost header = seq![0u8] + spec_u64_to_le_bytes(entries@.len() as u64);
            let mut i: usize = 0;
            while i < entries.len()
                invariant
                    i <= entries@.len(),
                    es == entries@.map_values(|e: Entry| e@),
                    es.len() == entries@.len(),
                    header == seq![0u8] + spec_u64_to_le_bytes(entries@.len() as u64),
                    out@ == header + enc_entries(es.take(i as int)),
                decreases entries@.len() - i,
            {
                push_entry(&mut out, &entries[i]);
                proof {
                    let t = es.take((i + 1) as int);
                    assert(t.drop_last() =~= es.take(i as int));
                    assert(t.last() == es[i as int]);
                    lemma_enc_entries_snoc(t);
                    assert(es[i as int] == entries@[i as int]@);
                    assert(out@ =~= header + enc_entries(t));
                }
                i = i + 1;
            }
            proof {
                assert(es.take(es.len() as int) =~= es);
                assert(out@ =~= enc_node(n@));
            }
        },
        Node::Branch { children } => {
            out.push(1u8);
            proof {
                assert(out@ =~= seq![1u8]);
            }
            push_u64(&mut out, children.len() as u64);
            let ghost header = seq![1u8] + spec_u64_to_le_bytes(children@.len() as u64);
            let mut i: usize = 0;
            while i < children.len()
                invariant
                    i <= children@.len(),
                    header == seq![1u8] + spec_u64_to_le_bytes(children@.len() as u64),
                    out@ == header + enc_children(children@.take(i as int)),
                decreases children@.len() - i,
            {
                push_child(&mut out, &children[i]);
                proof {
                    let t = children@.take((i + 1) as int);
                    assert(t.drop_last() =~= children@.take(i as int));
                    assert(t.last() == children@[i as int]);
                    lemma_enc_children_snoc(t);
                    assert(out@ =~= header + enc_children(t));
                }
                i = i + 1;
            }
            proof {
                assert(children@.take(children@.len() as int) =~= children@);
                assert(out@ =~= enc_node(n@));
            }
        },
    }
    out
}

/// Read eight little-endian bytes at `pos`.
fn read_u64(b: &Vec<u8>, pos: usize) -> (r: u64)
    requires
        pos + 8 <= b@.len(),
    ensures
        r == spec_u64_from_le_bytes(b@.subrange(pos as int, pos as int + 8)),
{
    let n = b.len();
    let mut w: Vec<u8> = Vec::new();
    let mut i: usize = 0;
    while i < 8
        invariant
            i <= 8,
            pos + 8 <= n,
            n == b@.len(),
            w@ == b@.subrange(pos as int, pos as int + i),
        decreases 8 - i,
    {
        w.push(b[pos + i]);
        proof {
            assert(w@ =~= b@.subrange(pos as int, pos as int + i + 1));
        }
        i = i + 1;
    }
    u64_from_le_bytes(w.as_slice())
}

/// Every field of an encoded entry located inside a suffix.
proof fn proof_peel_entry(s: Seq<u8>, pos: int, e: EntryModel, tail: Seq<u8>)
    requires
        0 <= pos <= s.len(),
        entry_m_wf(e),
        s.subrange(pos, s.len() as int) == enc_entry(e) + tail,
    ensures
        pos + 17 + e.value.len() <= s.len(),
        e.key matches Key::Unit ==> s[pos] == 0u8 && s.subrange(pos + 1, pos + 9)
            == spec_u64_to_le_bytes(0u64),
        e.key matches Key::U64(v) ==> s[pos] == 1u8 && s.subrange(pos + 1, pos + 9)
            == spec_u64_to_le_bytes(v),
        s.subrange(pos + 9, pos + 17) == spec_u64_to_le_bytes(e.value.len() as u64),
        s.subrange(pos + 17, pos + 17 + e.value.len() as int) == e.value,
        s.subrange(pos + 17 + e.value.len() as int, s.len() as int) == tail,
{
    lemma_auto_spec_u64_to_from_le_bytes();
    lemma_enc_key_len(e.key);
    lemma_enc_entry_len(e);
    let ek = enc_key(e.key);
    let lv = spec_u64_to_le_bytes(e.value.len() as u64);
    assert(s.subrange(pos, s.len() as int) =~= ek + (lv + (e.value + tail)));
    lemma_peel(s, pos, ek, lv + (e.value + tail));
    lemma_peel(s, pos + 9, lv, e.value + tail);
    lemma_peel(s, pos + 17, e.value, tail);
    match e.key {
        Key::Unit => {
            assert(s.subrange(pos, s.len() as int) =~= seq![0u8] + (spec_u64_to_le_bytes(0u64)
                + (lv + (e.value + tail))));
            lemma_peel(s, pos, seq![0u8], spec_u64_to_le_bytes(0u64) + (lv + (e.value + tail)));
            assert(s[pos] == seq![0u8][0]);
            lemma_peel(s, pos + 1, spec_u64_to_le_bytes(0u64), lv + (e.value + tail));
        },
        Key::U64(v) => {
            let le = spec_u64_to_le_bytes(v);
            assert(s.subrange(pos, s.len() as int) =~= seq![1u8] + (le + (lv + (e.value
                + tail))));
            lemma_peel(s, pos, seq![1u8], le + (lv + (e.value + tail)));
            assert(s[pos] == seq![1u8][0]);
            lemma_peel(s, pos + 1, le, lv + (e.value + tail));
        },
    }
}

/// The suffix of `s` at `pos` splitting as `a + rest` locates both parts.
pub proof fn lemma_peel(s: Seq<u8>, pos: int, a: Seq<u8>, rest: Seq<u8>)
    requires
        0 <= pos <= s.len(),
        s.subrange(pos, s.len() as int) == a + rest,
    ensures
        pos + a.len() <= s.len(),
        s.subrange(pos, pos + a.len()) == a,
        s.subrange(pos + a.len(), s.len() as int) == rest,
{
    let suf = s.subrange(pos, s.len() as int);
    assert(suf.len() == a.len() + rest.len());
    assert forall|j: int| 0 <= j < a.len() implies s.subrange(pos, pos + a.len())[j] == a[j] by {
        assert(suf[j] == a[j]);
    }
    assert(s.subrange(pos, pos + a.len()) =~= a);
    assert forall|j: int| 0 <= j < rest.len() implies s.subrange(
        pos + a.len(),
        s.len() as int,
    )[j] == rest[j] by {
        assert(suf[a.len() + j] == rest[j]);
    }
    assert(s.subrange(pos + a.len(), s.len() as int) =~= rest);
}

/// Decode a node. When the caller knows (as ghost information) which node
/// the bytes encode, the decoder is proved to return exactly that node.
/// On any other input it is sound: a node comes back only if the bytes
/// are exactly its canonical encoding; otherwise the decoder refuses,
/// and refusal is what the loader turns into a corruption error.
pub(crate) fn decode_node(b: &Vec<u8>, Ghost(w): Ghost<Option<NodeModel>>) -> (r: Option<Node>)
    requires
        w matches Some(m) ==> b@ == enc_node(m) && node_m_wf(m),
    ensures
        w matches Some(m) ==> r matches Some(n) && n@ == m,
        r matches Some(n) ==> b@ == enc_node(n@) && node_m_wf(n@),
{
    proof {
        lemma_auto_spec_u64_to_from_le_bytes();
    }
    let n_len = b.len();
    if n_len < 9 {
        proof {
            if let Some(m) = w {
                match m {
                    NodeModel::Leaf { entries } => {
                        assert(b@ =~= seq![0u8] + (spec_u64_to_le_bytes(entries.len() as u64)
                            + enc_entries(entries)));
                        assert(b@.len() >= 9);
                    },
                    NodeModel::Branch { children } => {
                        assert(b@ =~= seq![1u8] + (spec_u64_to_le_bytes(children.len() as u64)
                            + enc_children(children)));
                        assert(b@.len() >= 9);
                    },
                }
            }
        }
        return None;
    }
    let tag = b[0];
    let cnt = read_u64(b, 1);
    proof {
        if let Some(m) = w {
            match m {
                NodeModel::Leaf { entries } => {
                    let le = spec_u64_to_le_bytes(entries.len() as u64);
                    assert(b@.subrange(0, b@.len() as int) =~= b@);
                    assert(b@ =~= seq![0u8] + (le + enc_entries(entries)));
                    lemma_peel(b@, 0, seq![0u8], le + enc_entries(entries));
                    assert(b@[0] == seq![0u8][0]);
                    lemma_peel(b@, 1, le, enc_entries(entries));
                    assert(cnt == entries.len() as u64);
                },
                NodeModel::Branch { children } => {
                    let le = spec_u64_to_le_bytes(children.len() as u64);
                    assert(b@.subrange(0, b@.len() as int) =~= b@);
                    assert(b@ =~= seq![1u8] + (le + enc_children(children)));
                    lemma_peel(b@, 0, seq![1u8], le + enc_children(children));
                    assert(b@[0] == seq![1u8][0]);
                    lemma_peel(b@, 1, le, enc_children(children));
                    assert(cnt == children.len() as u64);
                },
            }
        }
    }
    if tag == 0 {
        let ghost es: Seq<EntryModel> = match w {
            Some(NodeModel::Leaf { entries }) => entries,
            _ => Seq::empty(),
        };
        proof {
            if let Some(m) = w {
                if m matches NodeModel::Branch { .. } {
                    assert(false);
                }
                assert(m == NodeModel::Leaf { entries: es });
                assert(b@.subrange(9, b@.len() as int) == enc_entries(es));
                assert(es.skip(0) =~= es);
            }
        }
        if cnt > LEAF_CAP as u64 {
            proof {
                if let Some(m) = w {
                    assert(false);
                }
            }
            return None;
        }
        let count = cnt as usize;
        let mut entries: Vec<Entry> = Vec::new();
        let mut pos: usize = 9;
        let mut i: usize = 0;
        proof {
            assert(entries@.map_values(|e: Entry| e@) =~= Seq::<EntryModel>::empty());
            assert(b@.subrange(9, 9) =~= enc_entries(entries@.map_values(|e: Entry| e@)));
        }
        while i < count
            invariant
                n_len == b@.len(),
                9 <= pos <= n_len,
                i <= count,
                count == cnt,
                cnt <= LEAF_CAP as u64,
                entries@.len() == i,
                b@.subrange(9, pos as int) == enc_entries(entries@.map_values(|e: Entry| e@)),
                forall|j: int|
                    0 <= j < i ==> (#[trigger] entries@[j])@.value.len() <= VALUE_MAX,
                w matches Some(m) ==> {
                    &&& m == NodeModel::Leaf { entries: es }
                    &&& node_m_wf(m)
                    &&& count == es.len()
                    &&& b@.subrange(pos as int, b@.len() as int) == enc_entries(
                        es.skip(i as int),
                    )
                    &&& forall|j: int|
                        0 <= j < i ==> entries@[j]@.key == es[j].key && entries@[j]@.value
                            == es[j].value
                },
            decreases count - i,
        {
            proof {
                if let Some(m) = w {
                    lemma_enc_entries_skip(es, i as int);
                    lemma_auto_spec_u64_to_from_le_bytes();
                    proof_peel_entry(
                        b@,
                        pos as int,
                        es[i as int],
                        enc_entries(es.skip(i as int + 1)),
                    );
                }
            }
            if n_len - pos < 17 {
                proof {
                    if let Some(m) = w {
                        lemma_enc_entries_skip(es, i as int);
                        proof_peel_entry(
                            b@,
                            pos as int,
                            es[i as int],
                            enc_entries(es.skip(i as int + 1)),
                        );
                        assert(false);
                    }
                }
                return None;
            }
            let ktag = b[pos];
            let kval = read_u64(b, pos + 1);
            let vlen64 = read_u64(b, pos + 9);
            if ktag > 1 {
                proof {
                    if let Some(m) = w {
                        lemma_enc_entries_skip(es, i as int);
                        proof_peel_entry(
                            b@,
                            pos as int,
                            es[i as int],
                            enc_entries(es.skip(i as int + 1)),
                        );
                        lemma_auto_spec_u64_to_from_le_bytes();
                        assert(false);
                    }
                }
                return None;
            }
            if ktag == 0 && kval != 0 {
                proof {
                    if let Some(m) = w {
                        lemma_enc_entries_skip(es, i as int);
                        proof_peel_entry(
                            b@,
                            pos as int,
                            es[i as int],
                            enc_entries(es.skip(i as int + 1)),
                        );
                        lemma_auto_spec_u64_to_from_le_bytes();
                        assert(false);
                    }
                }
                return None;
            }
            let key = if ktag == 0 {
                Key::Unit
            } else {
                Key::U64(kval)
            };
            if vlen64 > VALUE_MAX as u64 {
                proof {
                    if let Some(m) = w {
                        lemma_enc_entries_skip(es, i as int);
                        proof_peel_entry(
                            b@,
                            pos as int,
                            es[i as int],
                            enc_entries(es.skip(i as int + 1)),
                        );
                        lemma_auto_spec_u64_to_from_le_bytes();
                        assert(vlen64 == es[i as int].value.len() as u64);
                        assert(false);
                    }
                }
                return None;
            }
            let vlen = vlen64 as usize;
            if vlen > (n_len - pos) - 17 {
                proof {
                    if let Some(m) = w {
                        lemma_enc_entries_skip(es, i as int);
                        proof_peel_entry(
                            b@,
                            pos as int,
                            es[i as int],
                            enc_entries(es.skip(i as int + 1)),
                        );
                        lemma_auto_spec_u64_to_from_le_bytes();
                        assert(vlen == es[i as int].value.len());
                        assert(false);
                    }
                }
                return None;
            }
            let mut value: Vec<u8> = Vec::new();
            let mut j: usize = 0;
            while j < vlen
                invariant
                    j <= vlen,
                    n_len == b@.len(),
                    pos + 17 + vlen <= n_len,
                    value@ == b@.subrange(pos as int + 17, pos as int + 17 + j),
                decreases vlen - j,
            {
                value.push(b[pos + 17 + j]);
                proof {
                    assert(value@ =~= b@.subrange(pos as int + 17, pos as int + 17 + j + 1));
                }
                j = j + 1;
            }
            proof {
                if let Some(m) = w {
                    let e = es[i as int];
                    lemma_enc_entries_skip(es, i as int);
                    proof_peel_entry(
                        b@,
                        pos as int,
                        e,
                        enc_entries(es.skip(i as int + 1)),
                    );
                    lemma_auto_spec_u64_to_from_le_bytes();
                    assert(vlen == e.value.len());
                    assert(value@ == e.value);
                    assert(key == e.key);
                    assert(b@.subrange(pos as int + 17 + vlen as int, b@.len() as int)
                        == enc_entries(es.skip(i as int + 1)));
                }
            }
            let ghost prior = entries@.map_values(|e: Entry| e@);
            let ghost vv = value@;
            let ghost e_new = EntryModel { key, value: vv };
            proof {
                lemma_auto_spec_u64_to_from_le_bytes();
                let chunk = b@.subrange(pos as int, pos as int + 17 + vlen as int);
                assert(b@.subrange(pos as int + 1, pos as int + 9) == spec_u64_to_le_bytes(
                    kval,
                ));
                assert(b@.subrange(pos as int + 9, pos as int + 17) == spec_u64_to_le_bytes(
                    vlen64,
                ));
                assert(vv.len() as u64 == vlen64);
                assert(enc_key(key) =~= seq![ktag] + spec_u64_to_le_bytes(kval));
                assert(chunk =~= (seq![ktag] + spec_u64_to_le_bytes(kval))
                    + spec_u64_to_le_bytes(vlen64) + vv);
                assert(enc_entry(e_new) =~= (seq![ktag] + spec_u64_to_le_bytes(kval))
                    + spec_u64_to_le_bytes(vlen64) + vv);
                assert(enc_entry(e_new) == chunk);
            }
            entries.push(Entry { key, value });
            proof {
                let now = entries@.map_values(|e: Entry| e@);
                assert(now =~= prior.push(e_new));
                assert(now.drop_last() =~= prior);
                assert(now.last() == e_new);
                lemma_enc_entries_snoc(now);
                assert(enc_entries(now) == enc_entries(prior) + enc_entry(e_new));
                assert(b@.subrange(9, pos as int + 17 + vlen as int) =~= b@.subrange(
                    9,
                    pos as int,
                ) + b@.subrange(pos as int, pos as int + 17 + vlen as int));
                assert(b@.subrange(9, pos as int + 17 + vlen as int) == enc_entries(now));
            }
            pos = pos + 17 + vlen;
            i = i + 1;
        }
        if pos != n_len {
            proof {
                if let Some(m) = w {
                    assert(es.skip(i as int) =~= Seq::<EntryModel>::empty());
                    assert(b@.subrange(pos as int, b@.len() as int).len() == 0);
                }
            }
            return None;
        }
        proof {
            if let Some(m) = w {
                assert(entries@.map_values(|e: Entry| e@) =~= es);
            }
            lemma_auto_spec_u64_to_from_le_bytes();
            let models = entries@.map_values(|e: Entry| e@);
            assert(models.len() as u64 == cnt);
            assert(b@.subrange(1, 9) == spec_u64_to_le_bytes(cnt));
            assert(b@ =~= seq![0u8] + spec_u64_to_le_bytes(cnt) + enc_entries(models));
            assert(enc_node(NodeModel::Leaf { entries: models }) =~= b@);
            assert forall|j: int|
                0 <= j < models.len() implies entry_m_wf(#[trigger] models[j]) by {
                assert(models[j] == entries@[j]@);
            }
            assert(node_m_wf(NodeModel::Leaf { entries: models }));
        }
        Some(Node::Leaf { entries })
    } else if tag == 1 {
        let ghost cs: Seq<ChildRef> = match w {
            Some(NodeModel::Branch { children }) => children,
            _ => Seq::empty(),
        };
        proof {
            if let Some(m) = w {
                if m matches NodeModel::Leaf { .. } {
                    assert(false);
                }
                assert(m == NodeModel::Branch { children: cs });
                assert(b@.subrange(9, b@.len() as int) == enc_children(cs));
                assert(cs.skip(0) =~= cs);
            }
        }
        if cnt > BRANCH_CAP as u64 {
            proof {
                if let Some(m) = w {
                    assert(false);
                }
            }
            return None;
        }
        let count = cnt as usize;
        let mut children: Vec<ChildRef> = Vec::new();
        let mut pos: usize = 9;
        let mut i: usize = 0;
        proof {
            assert(b@.subrange(9, 9) =~= enc_children(children@));
        }
        while i < count
            invariant
                n_len == b@.len(),
                9 <= pos <= n_len,
                i <= count,
                count == cnt,
                cnt <= BRANCH_CAP as u64,
                children@.len() == i,
                b@.subrange(9, pos as int) == enc_children(children@),
                w matches Some(m) ==> {
                    &&& m == NodeModel::Branch { children: cs }
                    &&& count == cs.len()
                    &&& b@.subrange(pos as int, b@.len() as int) == enc_children(
                        cs.skip(i as int),
                    )
                    &&& forall|j: int| 0 <= j < i ==> children@[j] == cs[j]
                },
            decreases count - i,
        {
            proof {
                if let Some(m) = w {
                    let c = cs[i as int];
                    let tail = enc_children(cs.skip(i as int + 1));
                    lemma_enc_children_skip(cs, i as int);
                    lemma_enc_child_len(c);
                    lemma_enc_summary_len(c.summary);
                    proof_peel_child(b@, pos as int, c, tail);
                }
            }
            if n_len - pos < 65 {
                proof {
                    if let Some(m) = w {
                        lemma_enc_children_skip(cs, i as int);
                        proof_peel_child(
                            b@,
                            pos as int,
                            cs[i as int],
                            enc_children(cs.skip(i as int + 1)),
                        );
                        assert(false);
                    }
                }
                return None;
            }
            let w0 = read_u64(b, pos);
            let w1 = read_u64(b, pos + 8);
            let w2 = read_u64(b, pos + 16);
            let w3 = read_u64(b, pos + 24);
            let ccount = read_u64(b, pos + 32);
            let clevel = read_u64(b, pos + 40);
            let stag = b[pos + 48];
            let smin = read_u64(b, pos + 49);
            let smax = read_u64(b, pos + 57);
            if stag > 1 {
                proof {
                    if let Some(m) = w {
                        lemma_enc_children_skip(cs, i as int);
                        proof_peel_child(
                            b@,
                            pos as int,
                            cs[i as int],
                            enc_children(cs.skip(i as int + 1)),
                        );
                        lemma_auto_spec_u64_to_from_le_bytes();
                        assert(false);
                    }
                }
                return None;
            }
            if stag == 0 && (smin != 0 || smax != 0) {
                proof {
                    if let Some(m) = w {
                        lemma_enc_children_skip(cs, i as int);
                        proof_peel_child(
                            b@,
                            pos as int,
                            cs[i as int],
                            enc_children(cs.skip(i as int + 1)),
                        );
                        lemma_auto_spec_u64_to_from_le_bytes();
                        assert(false);
                    }
                }
                return None;
            }
            let summary = if stag == 0 {
                Summary::Empty
            } else {
                Summary::Range { min: smin, max: smax }
            };
            proof {
                if let Some(m) = w {
                    let c = cs[i as int];
                    lemma_enc_children_skip(cs, i as int);
                    proof_peel_child(
                        b@,
                        pos as int,
                        c,
                        enc_children(cs.skip(i as int + 1)),
                    );
                    lemma_auto_spec_u64_to_from_le_bytes();
                    assert(w0 == c.link.w0);
                    assert(w1 == c.link.w1);
                    assert(w2 == c.link.w2);
                    assert(w3 == c.link.w3);
                    assert(Link { w0, w1, w2, w3 } == c.link);
                    assert(ccount == c.count);
                    assert(clevel == c.level);
                    assert(summary == c.summary);
                    assert(b@.subrange(pos as int + 65, b@.len() as int) == enc_children(
                        cs.skip(i as int + 1),
                    ));
                }
            }
            let ghost prior = children@;
            let ghost c_new = ChildRef {
                link: Link { w0, w1, w2, w3 },
                count: ccount,
                level: clevel,
                summary,
            };
            proof {
                lemma_auto_spec_u64_to_from_le_bytes();
                let chunk = b@.subrange(pos as int, pos as int + 65);
                assert(b@.subrange(pos as int, pos as int + 8) == spec_u64_to_le_bytes(w0));
                assert(b@.subrange(pos as int + 8, pos as int + 16) == spec_u64_to_le_bytes(
                    w1,
                ));
                assert(b@.subrange(pos as int + 16, pos as int + 24) == spec_u64_to_le_bytes(
                    w2,
                ));
                assert(b@.subrange(pos as int + 24, pos as int + 32) == spec_u64_to_le_bytes(
                    w3,
                ));
                assert(b@.subrange(pos as int + 32, pos as int + 40) == spec_u64_to_le_bytes(
                    ccount,
                ));
                assert(b@.subrange(pos as int + 40, pos as int + 48) == spec_u64_to_le_bytes(
                    clevel,
                ));
                assert(b@.subrange(pos as int + 49, pos as int + 57) == spec_u64_to_le_bytes(
                    smin,
                ));
                assert(b@.subrange(pos as int + 57, pos as int + 65) == spec_u64_to_le_bytes(
                    smax,
                ));
                assert(enc_summary(summary) =~= seq![stag] + spec_u64_to_le_bytes(smin)
                    + spec_u64_to_le_bytes(smax));
                assert(chunk =~= spec_u64_to_le_bytes(w0) + spec_u64_to_le_bytes(w1)
                    + spec_u64_to_le_bytes(w2) + spec_u64_to_le_bytes(w3)
                    + spec_u64_to_le_bytes(ccount) + spec_u64_to_le_bytes(clevel) + (seq![
                    stag,
                ] + spec_u64_to_le_bytes(smin) + spec_u64_to_le_bytes(smax)));
                assert(enc_child(c_new) =~= spec_u64_to_le_bytes(w0) + spec_u64_to_le_bytes(
                    w1,
                ) + spec_u64_to_le_bytes(w2) + spec_u64_to_le_bytes(w3) + spec_u64_to_le_bytes(
                    ccount,
                ) + spec_u64_to_le_bytes(clevel) + (seq![stag] + spec_u64_to_le_bytes(smin)
                    + spec_u64_to_le_bytes(smax)));
                assert(enc_child(c_new) == chunk);
            }
            children.push(
                ChildRef {
                    link: Link { w0, w1, w2, w3 },
                    count: ccount,
                    level: clevel,
                    summary,
                },
            );
            proof {
                assert(children@ =~= prior.push(c_new));
                assert(children@.drop_last() =~= prior);
                assert(children@.last() == c_new);
                lemma_enc_children_snoc(children@);
                assert(enc_children(children@) == enc_children(prior) + enc_child(c_new));
                assert(b@.subrange(9, pos as int + 65) =~= b@.subrange(9, pos as int)
                    + b@.subrange(pos as int, pos as int + 65));
                assert(b@.subrange(9, pos as int + 65) == enc_children(children@));
            }
            pos = pos + 65;
            i = i + 1;
        }
        if pos != n_len {
            proof {
                if let Some(m) = w {
                    assert(cs.skip(i as int) =~= Seq::<ChildRef>::empty());
                    assert(b@.subrange(pos as int, b@.len() as int).len() == 0);
                }
            }
            return None;
        }
        proof {
            if let Some(m) = w {
                assert(children@ =~= cs);
            }
            lemma_auto_spec_u64_to_from_le_bytes();
            assert(children@.len() as u64 == cnt);
            assert(b@.subrange(1, 9) == spec_u64_to_le_bytes(cnt));
            assert(b@ =~= seq![1u8] + spec_u64_to_le_bytes(cnt) + enc_children(children@));
            assert(enc_node(NodeModel::Branch { children: children@ }) =~= b@);
            assert(node_m_wf(NodeModel::Branch { children: children@ }));
        }
        Some(Node::Branch { children })
    } else {
        proof {
            if let Some(m) = w {
                assert(false);
            }
        }
        None
    }
}

/// Locate every field of an encoded child inside a suffix.
proof fn proof_peel_child(s: Seq<u8>, pos: int, c: ChildRef, tail: Seq<u8>)
    requires
        0 <= pos <= s.len(),
        s.subrange(pos, s.len() as int) == enc_child(c) + tail,
    ensures
        pos + 65 <= s.len(),
        s.subrange(pos, pos + 8) == spec_u64_to_le_bytes(c.link.w0),
        s.subrange(pos + 8, pos + 16) == spec_u64_to_le_bytes(c.link.w1),
        s.subrange(pos + 16, pos + 24) == spec_u64_to_le_bytes(c.link.w2),
        s.subrange(pos + 24, pos + 32) == spec_u64_to_le_bytes(c.link.w3),
        s.subrange(pos + 32, pos + 40) == spec_u64_to_le_bytes(c.count),
        s.subrange(pos + 40, pos + 48) == spec_u64_to_le_bytes(c.level),
        c.summary matches Summary::Empty ==> s[pos + 48] == 0u8 && s.subrange(
            pos + 49,
            pos + 57,
        ) == spec_u64_to_le_bytes(0u64) && s.subrange(pos + 57, pos + 65)
            == spec_u64_to_le_bytes(0u64),
        c.summary matches Summary::Range { min, max } ==> s[pos + 48] == 1u8 && s.subrange(
            pos + 49,
            pos + 57,
        ) == spec_u64_to_le_bytes(min) && s.subrange(pos + 57, pos + 65)
            == spec_u64_to_le_bytes(max),
        s.subrange(pos + 65, s.len() as int) == tail,
{
    lemma_auto_spec_u64_to_from_le_bytes();
    lemma_enc_summary_len(c.summary);
    let a0 = spec_u64_to_le_bytes(c.link.w0);
    let a1 = spec_u64_to_le_bytes(c.link.w1);
    let a2 = spec_u64_to_le_bytes(c.link.w2);
    let a3 = spec_u64_to_le_bytes(c.link.w3);
    let an = spec_u64_to_le_bytes(c.count);
    let al = spec_u64_to_le_bytes(c.level);
    let asum = enc_summary(c.summary);
    assert(enc_child(c) + tail =~= a0 + (a1 + (a2 + (a3 + (an + (al + (asum + tail)))))));
    lemma_peel(s, pos, a0, a1 + (a2 + (a3 + (an + (al + (asum + tail))))));
    lemma_peel(s, pos + 8, a1, a2 + (a3 + (an + (al + (asum + tail)))));
    lemma_peel(s, pos + 16, a2, a3 + (an + (al + (asum + tail))));
    lemma_peel(s, pos + 24, a3, an + (al + (asum + tail)));
    lemma_peel(s, pos + 32, an, al + (asum + tail));
    lemma_peel(s, pos + 40, al, asum + tail);
    lemma_peel(s, pos + 48, asum, tail);
    match c.summary {
        Summary::Empty => {
            assert(s.subrange(pos + 48, s.len() as int) =~= seq![0u8] + (spec_u64_to_le_bytes(
                0u64,
            ) + (spec_u64_to_le_bytes(0u64) + tail)));
            lemma_peel(s, pos + 48, seq![0u8], spec_u64_to_le_bytes(0u64)
                + (spec_u64_to_le_bytes(0u64) + tail));
            assert(s[pos + 48] == seq![0u8][0]);
            lemma_peel(s, pos + 49, spec_u64_to_le_bytes(0u64), spec_u64_to_le_bytes(0u64)
                + tail);
            lemma_peel(s, pos + 57, spec_u64_to_le_bytes(0u64), tail);
        },
        Summary::Range { min, max } => {
            let bmin = spec_u64_to_le_bytes(min);
            let bmax = spec_u64_to_le_bytes(max);
            assert(s.subrange(pos + 48, s.len() as int) =~= seq![1u8] + (bmin + (bmax + tail)));
            lemma_peel(s, pos + 48, seq![1u8], bmin + (bmax + tail));
            assert(s[pos + 48] == seq![1u8][0]);
            lemma_peel(s, pos + 49, bmin, bmax + tail);
            lemma_peel(s, pos + 57, bmax, tail);
        },
    }
}

} // verus!
