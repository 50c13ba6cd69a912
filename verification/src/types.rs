//! Core data types of the engine: keys, entries, summaries, node shapes,
//! queries, configuration and error taxonomy, together with the spec-level
//! models that the contracts speak of.

use vstd::prelude::*;

verus! {

/// Per-entry index value. `Unit` is the "no index" key; `U64` carries a
/// secondary-index value such as a timestamp.
#[derive(Clone, Copy, Debug, PartialEq, Eq, Structural)]
pub enum Key {
    Unit,
    U64(u64),
}

/// Aggregate over a run of keys or child summaries, used for pruning.
/// `Empty` summarizes a run without any `U64` keys; `Range` is the inclusive
/// hull of all `U64` keys in the run.
#[derive(Clone, Copy, Debug, PartialEq, Eq, Structural)]
pub enum Summary {
    Empty,
    Range { min: u64, max: u64 },
}

/// A content digest identifying an immutable persisted block,
/// as four little-endian 64-bit words of the 32-byte digest.
#[derive(Clone, Copy, Debug, PartialEq, Eq, Structural, Hash)]
pub struct Link {
    pub w0: u64,
    pub w1: u64,
    pub w2: u64,
    pub w3: u64,
}

/// One key/value entry as stored in a leaf.
#[derive(Debug)]
pub struct Entry {
    pub key: Key,
    pub value: Vec<u8>,
}

/// Mathematical model of an [`Entry`].
pub struct EntryModel {
    pub key: Key,
    pub value: Seq<u8>,
}

impl View for Entry {
    type V = EntryModel;

    open spec fn view(&self) -> EntryModel {
        EntryModel { key: self.key, value: self.value@ }
    }
}

/// Reference from a branch to one child: its link, cached entry count,
/// level (height above the leaves) and summary.
#[derive(Clone, Copy, Debug)]
pub struct ChildRef {
    pub link: Link,
    pub count: u64,
    pub level: u64,
    pub summary: Summary,
}

/// A tree node: an ordered run of entries (leaf) or of child references
/// (branch).
#[derive(Debug)]
pub enum Node {
    Leaf { entries: Vec<Entry> },
    Branch { children: Vec<ChildRef> },
}

/// Mathematical model of a [`Node`].
pub enum NodeModel {
    Leaf { entries: Seq<EntryModel> },
    Branch { children: Seq<ChildRef> },
}

impl View for Node {
    type V = NodeModel;

    open spec fn view(&self) -> NodeModel {
        match self {
            Node::Leaf { entries } => NodeModel::Leaf {
                entries: entries@.map_values(|e: Entry| e@),
            },
            Node::Branch { children } => NodeModel::Branch { children: children@ },
        }
    }
}

/// The ordered keys of one leaf's entries, consulted by queries.
pub struct LeafIndex {
    pub keys: Vec<Key>,
}

/// One summary per child of a branch, consulted by queries.
pub struct BranchIndex {
    pub summaries: Vec<Summary>,
}

/// An application query: `All` selects every entry, `Range` selects the
/// entries whose `U64` key lies in the inclusive interval.
#[derive(Clone, Copy, Debug, PartialEq, Eq)]
pub enum Query {
    All,
    Range { min: u64, max: u64 },
}

/// Failures surfaced by the engine.
#[derive(Clone, Copy, Debug, PartialEq, Eq)]
pub enum Error {
    /// A referenced link is absent from the store.
    NotFound,
    /// Decryption or decoding of a block failed; also covers a
    /// secrets/nonce configuration that does not match the persisted bytes.
    Corrupt,
    /// The store refused a write (a digest collision caught by
    /// self-verification).
    StoreFailure,
}

/// Node-size and fan-out thresholds controlling when leaves and branches
/// seal.
#[derive(Clone, Copy, Debug)]
pub struct Config {
    /// A leaf seals once it holds this many entries.
    pub leaf_max: usize,
    /// A branch seals once this many children of one level are pending.
    pub fanout: usize,
}

impl Config {
    pub open spec fn wf(&self) -> bool {
        1 <= self.leaf_max <= 4096 && 2 <= self.fanout <= 4096
    }

    /// Small thresholds, so that tests exercise multi-level trees
    /// without large inputs.
    pub fn debug_fast() -> (r: Config)
        ensures
            r.wf(),
            r.leaf_max == 4,
            r.fanout == 4,
    {
        Config { leaf_max: 4, fanout: 4 }
    }
}

/// Symmetric key material for node payload encryption. The default value is
/// an insecure placeholder, never production-safe.
#[derive(Debug)]
pub struct Secrets {
    pub key: Vec<u8>,
}

impl Secrets {
    pub open spec fn wf(&self) -> bool {
        self.key@.len() == 32
    }

    pub fn from_key(key: Vec<u8>) -> (r: Secrets)
        requires
            key@.len() == 32,
        ensures
            r.wf(),
            r.key@ == key@,
    {
        Secrets { key }
    }

}

impl Default for Secrets {
    /// All-zero key material: an explicitly insecure placeholder.
    fn default() -> (r: Secrets)
        ensures
            r.wf(),
            r.key@ == Seq::new(32, |i: int| 0u8),
    {
        let mut key: Vec<u8> = Vec::new();
        let mut i: usize = 0;
        while i < 32
            invariant
                i <= 32,
                key@ == Seq::new(i as nat, |j: int| 0u8),
            decreases 32 - i,
        {
            key.push(0u8);
            proof {
                assert(key@ =~= Seq::new((i + 1) as nat, |j: int| 0u8));
            }
            i = i + 1;
        }
        Secrets { key }
    }
}

/// Summary of a single key.
pub open spec fn sum_one(k: Key) -> Summary {
    match k {
        Key::Unit => Summary::Empty,
        Key::U64(v) => Summary::Range { min: v, max: v },
    }
}

/// Hull of two summaries. `Empty` is the identity.
pub open spec fn sum_join(a: Summary, b: Summary) -> Summary {
    match (a, b) {
        (Summary::Empty, x) => x,
        (x, Summary::Empty) => x,
        (Summary::Range { min: a0, max: a1 }, Summary::Range { min: b0, max: b1 }) => {
            Summary::Range {
                min: if a0 <= b0 { a0 } else { b0 },
                max: if a1 >= b1 { a1 } else { b1 },
            }
        },
    }
}

/// Summary of an ordered run of keys.
pub open spec fn sum_of_keys(keys: Seq<Key>) -> Summary
    decreases keys.len(),
{
    if keys.len() == 0 {
        Summary::Empty
    } else {
        sum_join(sum_of_keys(keys.drop_last()), sum_one(keys.last()))
    }
}

/// Summary of an ordered run of child summaries.
pub open spec fn sum_of_sums(ss: Seq<Summary>) -> Summary
    decreases ss.len(),
{
    if ss.len() == 0 {
        Summary::Empty
    } else {
        sum_join(sum_of_sums(ss.drop_last()), ss.last())
    }
}

/// A summary covers a key when pruning by that summary may not drop an
/// entry with that key: `Unit` keys are covered by every summary, and a
/// `U64` key must lie inside the `Range` hull.
pub open spec fn summary_covers(s: Summary, k: Key) -> bool {
    match k {
        Key::Unit => true,
        Key::U64(v) => match s {
            Summary::Empty => false,
            Summary::Range { min, max } => min <= v && v <= max,
        },
    }
}

/// A summary covering `k` stays covering under any hull extension.
pub proof fn lemma_join_covers(a: Summary, b: Summary, k: Key)
    requires
        summary_covers(a, k) || summary_covers(b, k),
    ensures
        summary_covers(sum_join(a, b), k),
{
}

/// The summary of a run of keys covers each key of the run.
pub proof fn lemma_sum_of_keys_covers(keys: Seq<Key>, i: int)
    requires
        0 <= i < keys.len(),
    ensures
        summary_covers(sum_of_keys(keys), keys[i]),
    decreases keys.len(),
{
    if i == keys.len() - 1 {
        lemma_join_covers(sum_of_keys(keys.drop_last()), sum_one(keys.last()), keys[i]);
    } else {
        lemma_sum_of_keys_covers(keys.drop_last(), i);
        lemma_join_covers(sum_of_keys(keys.drop_last()), sum_one(keys.last()), keys[i]);
    }
}

/// The hull of a run of summaries covers whatever any one of them covers.
pub proof fn lemma_sum_of_sums_covers(ss: Seq<Summary>, j: int, k: Key)
    requires
        0 <= j < ss.len(),
        summary_covers(ss[j], k),
    ensures
        summary_covers(sum_of_sums(ss), k),
    decreases ss.len(),
{
    if j == ss.len() - 1 {
        lemma_join_covers(sum_of_sums(ss.drop_last()), ss.last(), k);
    } else {
        lemma_sum_of_sums_covers(ss.drop_last(), j, k);
        lemma_join_covers(sum_of_sums(ss.drop_last()), ss.last(), k);
    }
}

/// Whether an entry with key `k` is selected by the query.
pub open spec fn q_matches(q: Query, k: Key) -> bool {
    match q {
        Query::All => true,
        Query::Range { min, max } => match k {
            Key::Unit => false,
            Key::U64(v) => min <= v && v <= max,
        },
    }
}

/// Whether a subtree with summary `s` might contain a selected entry.
pub open spec fn q_may_match(q: Query, s: Summary) -> bool {
    match q {
        Query::All => true,
        Query::Range { min, max } => match s {
            Summary::Empty => false,
            Summary::Range { min: lo, max: hi } => !(lo > max || hi < min),
        },
    }
}

/// Pruning is sound: a summary covering a selected key is never rejected.
pub proof fn lemma_prune_sound(q: Query, s: Summary, k: Key)
    requires
        summary_covers(s, k),
        q_matches(q, k),
    ensures
        q_may_match(q, s),
{
}

impl Query {
    /// Whether this query selects an entry with key `k`.
    pub fn key_matches(&self, k: Key) -> (r: bool)
        ensures
            r == q_matches(*self, k),
    {
        match self {
            Query::All => true,
            Query::Range { min, max } => match k {
                Key::Unit => false,
                Key::U64(v) => *min <= v && v <= *max,
            },
        }
    }

    /// Whether a subtree summarized by `s` might contain a selected entry.
    pub fn summary_may_match(&self, s: Summary) -> (r: bool)
        ensures
            r == q_may_match(*self, s),
    {
        match self {
            Query::All => true,
            Query::Range { min, max } => match s {
                Summary::Empty => false,
                Summary::Range { min: lo, max: hi } => !(lo > *max || hi < *min),
            },
        }
    }

    /// For each key of a leaf, set the flag iff the entry is selected.
    pub fn containing(&self, offset: u64, index: &LeafIndex, res: &mut Vec<bool>)
        requires
            old(res)@.len() == index.keys@.len(),
        ensures
            final(res)@.len() == index.keys@.len(),
            forall|i: int|
                0 <= i < final(res)@.len() ==> final(res)@[i] == q_matches(*self, index.keys@[i]),
    {
        let mut i: usize = 0;
        while i < index.keys.len()
            invariant
                i <= index.keys@.len(),
                res@.len() == index.keys@.len(),
                forall|j: int| 0 <= j < i ==> res@[j] == q_matches(*self, index.keys@[j]),
            decreases index.keys@.len() - i,
        {
            let f = self.key_matches(index.keys[i]);
            res.set(i, f);
            i = i + 1;
        }
    }

    /// For each child summary of a branch, set the flag iff the child's
    /// subtree might contain a selected entry.
    pub fn intersecting(&self, offset: u64, index: &BranchIndex, res: &mut Vec<bool>)
        requires
            old(res)@.len() == index.summaries@.len(),
        ensures
            final(res)@.len() == index.summaries@.len(),
            forall|i: int|
                0 <= i < final(res)@.len() ==> final(res)@[i] == q_may_match(*self, index.summaries@[i]),
    {
        let mut i: usize = 0;
        while i < index.summaries.len()
            invariant
                i <= index.summaries@.len(),
                res@.len() == index.summaries@.len(),
                forall|j: int| 0 <= j < i ==> res@[j] == q_may_match(*self, index.summaries@[j]),
            decreases index.summaries@.len() - i,
        {
            let f = self.summary_may_match(index.summaries[i]);
            res.set(i, f);
            i = i + 1;
        }
    }
}

/// Exec hull of two summaries.
pub fn join_summaries(a: Summary, b: Summary) -> (r: Summary)
    ensures
        r == sum_join(a, b),
{
    match (a, b) {
        (Summary::Empty, x) => x,
        (x, Summary::Empty) => x,
        (Summary::Range { min: a0, max: a1 }, Summary::Range { min: b0, max: b1 }) => {
            Summary::Range {
                min: if a0 <= b0 { a0 } else { b0 },
                max: if a1 >= b1 { a1 } else { b1 },
            }
        },
    }
}

/// Exec summary of a run of keys.
pub fn summarize_keys(keys: &Vec<Key>) -> (r: Summary)
    ensures
        r == sum_of_keys(keys@),
{
    let mut acc = Summary::Empty;
    let mut i: usize = 0;
    while i < keys.len()
        invariant
            i <= keys@.len(),
            acc == sum_of_keys(keys@.take(i as int)),
        decreases keys@.len() - i,
    {
        acc = join_summaries(acc, match keys[i] {
            Key::Unit => Summary::Empty,
            Key::U64(v) => Summary::Range { min: v, max: v },
        });
        proof {
            let t = keys@.take((i + 1) as int);
            assert(t.drop_last() =~= keys@.take(i as int));
            assert(t.last() == keys@[i as int]);
        }
        i = i + 1;
    }
    proof {
        assert(keys@.take(keys@.len() as int) =~= keys@);
    }
    acc
}

/// Exec summary of a run of summaries.
pub fn summarize_sums(ss: &Vec<Summary>) -> (r: Summary)
    ensures
        r == sum_of_sums(ss@),
{
    let mut acc = Summary::Empty;
    let mut i: usize = 0;
    while i < ss.len()
        invariant
            i <= ss@.len(),
            acc == sum_of_sums(ss@.take(i as int)),
        decreases ss@.len() - i,
    {
        acc = join_summaries(acc, ss[i]);
        proof {
            let t = ss@.take((i + 1) as int);
            assert(t.drop_last() =~= ss@.take(i as int));
            assert(t.last() == ss@[i as int]);
        }
        i = i + 1;
    }
    proof {
        assert(ss@.take(ss@.len() as int) =~= ss@);
    }
    acc
}

/// Copy a byte vector.
pub fn copy_bytes(v: &Vec<u8>) -> (r: Vec<u8>)
    ensures
        r@ == v@,
{
    let mut out: Vec<u8> = Vec::new();
    let mut i: usize = 0;
    while i < v.len()
        invariant
            i <= v@.len(),
            out@ == v@.take(i as int),
        decreases v@.len() - i,
    {
        out.push(v[i]);
        proof {
            assert(out@ =~= v@.take((i + 1) as int));
        }
        i = i + 1;
    }
    proof {
        assert(v@.take(v@.len() as int) =~= v@);
    }
    out
}

/// Copy one entry.
pub fn copy_entry(e: &Entry) -> (r: Entry)
    ensures
        r@ == e@,
{
    Entry { key: e.key, value: copy_bytes(&e.value) }
}

/// Copy a run of child references.
pub fn copy_refs(v: &Vec<ChildRef>) -> (r: Vec<ChildRef>)
    ensures
        r@ == v@,
{
    let mut out: Vec<ChildRef> = Vec::new();
    let mut i: usize = 0;
    while i < v.len()
        invariant
            i <= v@.len(),
            out@ == v@.take(i as int),
        decreases v@.len() - i,
    {
        out.push(v[i]);
        proof {
            assert(out@ =~= v@.take((i + 1) as int));
        }
        i = i + 1;
    }
    proof {
        assert(v@.take(v@.len() as int) =~= v@);
    }
    out
}

/// Copy a node.
pub fn copy_node(n: &Node) -> (r: Node)
    ensures
        r@ == n@,
{
    match n {
        Node::Leaf { entries } => {
            let mut out: Vec<Entry> = Vec::new();
            let mut i: usize = 0;
            while i < entries.len()
                invariant
                    i <= entries@.len(),
                    out@.len() == i,
                    forall|j: int| 0 <= j < i ==> out@[j]@ == entries@[j]@,
                decreases entries@.len() - i,
            {
                out.push(copy_entry(&entries[i]));
                i = i + 1;
            }
            proof {
                assert(out@.map_values(|e: Entry| e@) =~= entries@.map_values(|e: Entry| e@));
            }
            Node::Leaf { entries: out }
        },
        Node::Branch { children } => Node::Branch { children: copy_refs(children) },
    }
}

} // verus!
