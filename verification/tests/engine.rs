use castream::builder::{StreamBuilder, Tree};
use castream::forest::{BranchCache, Forest};
use castream::store::MemStore;
use castream::txn::Transaction;
use castream::types::{BranchIndex, Config, Entry, Error, Key, LeafIndex, Link, Node, Query,
    Secrets, Summary};

fn nonce() -> Vec<u8> {
    b"example stream tree nonce".to_vec()[..24].to_vec()
}

fn make_forest() -> Forest {
    Forest::new(MemStore::new(), BranchCache::new(1024), Secrets::default(), nonce())
}

fn make_txn() -> Transaction {
    Transaction::new(make_forest())
}

fn unit_entry(value: &[u8]) -> Entry {
    Entry { key: Key::Unit, value: value.to_vec() }
}

fn keyed_entry(k: u64, value: &[u8]) -> Entry {
    Entry { key: Key::U64(k), value: value.to_vec() }
}

#[test]
fn empty_snapshot_is_empty_tree() {
    let mut txn = make_txn();
    let mut builder = StreamBuilder::new(Config::debug_fast(), Secrets::default());
    txn.extend(&mut builder, Vec::new()).unwrap();
    let tree = builder.snapshot();
    assert_eq!(tree.root, None);
    assert_eq!(tree.count, 0);
    assert_eq!(tree.level, 0);
    let rows = txn.iter_from(&tree).unwrap();
    assert!(rows.is_empty());
}

#[test]
fn unit_key_sequence_round_trip() {
    let mut txn = make_txn();
    let mut builder = StreamBuilder::new(Config::debug_fast(), Secrets::default());
    let entries = vec![unit_entry(b"a"), unit_entry(b"b"), unit_entry(b"c")];
    txn.extend(&mut builder, entries).unwrap();
    let tree = builder.snapshot();
    let rows = txn.iter_from(&tree).unwrap();
    assert_eq!(rows.len(), 3);
    assert_eq!(rows[0], (0, Key::Unit, b"a".to_vec()));
    assert_eq!(rows[1], (1, Key::Unit, b"b".to_vec()));
    assert_eq!(rows[2], (2, Key::Unit, b"c".to_vec()));
}

#[test]
fn range_query_prunes_to_matching_key() {
    let mut txn = make_txn();
    let mut builder = StreamBuilder::new(Config::debug_fast(), Secrets::default());
    let entries = vec![
        keyed_entry(5, b"five"),
        keyed_entry(50, b"fifty"),
        keyed_entry(500, b"five hundred"),
    ];
    txn.extend(&mut builder, entries).unwrap();
    let tree = builder.snapshot();
    let rows = txn.iter_filtered(&tree, Query::Range { min: 10, max: 100 }).unwrap();
    assert_eq!(rows.len(), 1);
    assert_eq!(rows[0], (1, Key::U64(50), b"fifty".to_vec()));
}

#[test]
fn multi_node_round_trip() {
    let mut txn = make_txn();
    let mut builder = StreamBuilder::new(Config::debug_fast(), Secrets::default());
    let entries: Vec<Entry> = (0..10u64).map(|i| keyed_entry(i, &[i as u8])).collect();
    txn.extend(&mut builder, entries).unwrap();
    let tree = builder.snapshot();
    assert_eq!(tree.count, 10);
    let rows = txn.iter_from(&tree).unwrap();
    assert_eq!(rows.len(), 10);
    for i in 0..10u64 {
        assert_eq!(rows[i as usize], (i, Key::U64(i), vec![i as u8]));
    }
}

#[test]
fn count_tracks_appends() {
    let mut txn = make_txn();
    let mut builder = StreamBuilder::new(Config::debug_fast(), Secrets::default());
    let first: Vec<Entry> = (0..10u64).map(|i| keyed_entry(i, b"v")).collect();
    txn.extend(&mut builder, first).unwrap();
    assert_eq!(builder.snapshot().count, 10);
    let second: Vec<Entry> = (10..17u64).map(|i| keyed_entry(i, b"w")).collect();
    txn.extend(&mut builder, second).unwrap();
    assert_eq!(builder.snapshot().count, 17);
}

#[test]
fn branch_children_share_one_level() {
    let mut forest = make_forest();
    let mut builder = StreamBuilder::new(Config::debug_fast(), Secrets::default());
    let entries: Vec<Entry> = (0..20u64).map(|i| keyed_entry(i, b"p")).collect();
    builder.append(&mut forest, entries).unwrap();
    let tree = builder.snapshot();
    assert!(tree.level >= 1);
    let root = tree.root.expect("non-empty tree has a root");
    match forest.load(root).unwrap() {
        Node::Branch { children } => {
            assert!(children.len() >= 1);
            let mut total = 0u64;
            for c in &children {
                assert_eq!(c.level, tree.level - 1);
                total += c.count;
            }
            assert_eq!(total, tree.count);
        }
        Node::Leaf { .. } => panic!("a level {} root must be a branch", tree.level),
    }
}

#[test]
fn snapshot_is_idempotent() {
    let mut txn = make_txn();
    let mut builder = StreamBuilder::new(Config::debug_fast(), Secrets::default());
    let entries: Vec<Entry> = (0..7u64).map(|i| keyed_entry(i, b"s")).collect();
    txn.extend(&mut builder, entries).unwrap();
    let t1 = builder.snapshot();
    let t2 = builder.snapshot();
    assert_eq!(t1, t2);
}

#[test]
fn identical_content_gets_one_link_and_one_block() {
    let mut forest = make_forest();
    let node = Node::Leaf { entries: vec![keyed_entry(3, b"dup")] };
    let l1 = forest.persist(&node).unwrap();
    let after_first = forest.store_total();
    let node_again = Node::Leaf { entries: vec![keyed_entry(3, b"dup")] };
    let l2 = forest.persist(&node_again).unwrap();
    assert_eq!(l1, l2);
    assert_eq!(forest.store_total(), after_first);
}

#[test]
fn distinct_content_gets_distinct_links() {
    let mut forest = make_forest();
    let a = forest.persist(&Node::Leaf { entries: vec![keyed_entry(1, b"a")] }).unwrap();
    let b = forest.persist(&Node::Leaf { entries: vec![keyed_entry(2, b"b")] }).unwrap();
    assert_ne!(a, b);
    assert_eq!(forest.store_total(), 2);
}

#[test]
fn different_nonce_changes_links() {
    let mut f1 = Forest::new(MemStore::new(), BranchCache::new(16), Secrets::default(), nonce());
    let other = b"another 24 byte nonce !!".to_vec();
    assert_eq!(other.len(), 24);
    let mut f2 = Forest::new(MemStore::new(), BranchCache::new(16), Secrets::default(), other);
    let n1 = Node::Leaf { entries: vec![keyed_entry(9, b"n")] };
    let n2 = Node::Leaf { entries: vec![keyed_entry(9, b"n")] };
    assert_ne!(f1.persist(&n1).unwrap(), f2.persist(&n2).unwrap());
}

#[test]
fn different_secrets_change_links() {
    let mut f1 = Forest::new(MemStore::new(), BranchCache::new(16), Secrets::default(), nonce());
    let mut f2 = Forest::new(
        MemStore::new(),
        BranchCache::new(16),
        Secrets::from_key(vec![7u8; 32]),
        nonce(),
    );
    let n1 = Node::Leaf { entries: vec![keyed_entry(9, b"n")] };
    let n2 = Node::Leaf { entries: vec![keyed_entry(9, b"n")] };
    assert_ne!(f1.persist(&n1).unwrap(), f2.persist(&n2).unwrap());
}

#[test]
fn absent_link_is_not_found() {
    let store = MemStore::new();
    let bogus = Link { w0: 1, w1: 2, w2: 3, w3: 4 };
    assert_eq!(store.get(bogus).unwrap_err(), Error::NotFound);
}

#[test]
fn mismatched_secrets_are_corrupt() {
    let mut txn = make_txn();
    let mut builder = StreamBuilder::new(Config::debug_fast(), Secrets::from_key(vec![9u8; 32]));
    let r = txn.extend(&mut builder, vec![unit_entry(b"x")]);
    assert_eq!(r.unwrap_err(), Error::Corrupt);
}

#[test]
fn forged_tree_fails_to_load() {
    let mut txn = make_txn();
    let forged = Tree { root: Some(Link { w0: 5, w1: 6, w2: 7, w3: 8 }), level: 0, count: 1 };
    assert!(txn.iter_from(&forged).is_err());
}

#[test]
fn query_flags_match_predicates() {
    let q = Query::Range { min: 10, max: 100 };
    let leaf = LeafIndex { keys: vec![Key::U64(5), Key::Unit, Key::U64(50)] };
    let mut flags = vec![false; 3];
    q.containing(0, &leaf, &mut flags);
    assert_eq!(flags, vec![false, false, true]);
    let branch = BranchIndex {
        summaries: vec![
            Summary::Empty,
            Summary::Range { min: 1, max: 9 },
            Summary::Range { min: 40, max: 60 },
        ],
    };
    let mut bflags = vec![false; 3];
    q.intersecting(0, &branch, &mut bflags);
    assert_eq!(bflags, vec![false, false, true]);
}

#[test]
fn filter_all_equals_full_traversal() {
    let mut txn = make_txn();
    let mut builder = StreamBuilder::new(Config::debug_fast(), Secrets::default());
    let entries: Vec<Entry> = (0..13u64).map(|i| keyed_entry(i * 3, &[i as u8])).collect();
    txn.extend(&mut builder, entries).unwrap();
    let tree = builder.snapshot();
    let full = txn.iter_from(&tree).unwrap();
    let filtered = txn.iter_filtered(&tree, Query::All).unwrap();
    assert_eq!(full, filtered);
}

#[test]
fn filtered_equals_manually_filtered_full_traversal() {
    let mut txn = make_txn();
    let mut builder = StreamBuilder::new(Config::debug_fast(), Secrets::default());
    let entries: Vec<Entry> = (0..64u64).map(|i| keyed_entry(i, &[i as u8])).collect();
    txn.extend(&mut builder, entries).unwrap();
    let tree = builder.snapshot();
    let q = Query::Range { min: 16, max: 31 };
    let full = txn.iter_from(&tree).unwrap();
    let manual: Vec<_> = full
        .into_iter()
        .filter(|(_, k, _)| matches!(k, Key::U64(v) if *v >= 16 && *v <= 31))
        .collect();
    let filtered = txn.iter_filtered(&tree, q).unwrap();
    assert_eq!(filtered, manual);
    assert_eq!(filtered.len(), 16);
    assert_eq!(filtered[0].0, 16);
    assert_eq!(filtered[15].0, 31);
}

#[test]
fn old_snapshot_survives_later_appends() {
    let mut txn = make_txn();
    let mut builder = StreamBuilder::new(Config::debug_fast(), Secrets::default());
    let first: Vec<Entry> = (0..10u64).map(|i| keyed_entry(i, b"one")).collect();
    txn.extend(&mut builder, first).unwrap();
    let t1 = builder.snapshot();
    let more: Vec<Entry> = (10..30u64).map(|i| keyed_entry(i, b"two")).collect();
    txn.extend(&mut builder, more).unwrap();
    let t2 = builder.snapshot();
    assert_eq!(t1.count, 10);
    assert_eq!(t2.count, 30);
    let rows1 = txn.iter_from(&t1).unwrap();
    assert_eq!(rows1.len(), 10);
    for i in 0..10u64 {
        assert_eq!(rows1[i as usize], (i, Key::U64(i), b"one".to_vec()));
    }
}

#[test]
fn offset_seek_yields_suffix() {
    let mut txn = make_txn();
    let mut builder = StreamBuilder::new(Config::debug_fast(), Secrets::default());
    let entries: Vec<Entry> = (0..64u64).map(|i| keyed_entry(i, &[i as u8])).collect();
    txn.extend(&mut builder, entries).unwrap();
    let tree = builder.snapshot();
    let full = txn.iter_from(&tree).unwrap();
    let from20 = txn.iter_from_offset(&tree, 20).unwrap();
    assert_eq!(from20.len(), 44);
    assert_eq!(from20[..], full[20..]);
    assert_eq!(from20[0], (20, Key::U64(20), vec![20u8]));
    let from0 = txn.iter_from_offset(&tree, 0).unwrap();
    assert_eq!(from0, full);
    let past_end = txn.iter_from_offset(&tree, 1000).unwrap();
    assert!(past_end.is_empty());
}

#[test]
fn reopened_store_serves_persisted_trees() {
    let mut forest = make_forest();
    let mut builder = StreamBuilder::new(Config::debug_fast(), Secrets::default());
    let entries: Vec<Entry> = (0..12u64).map(|i| keyed_entry(i, &[i as u8])).collect();
    builder.append(&mut forest, entries).unwrap();
    let tree = builder.snapshot();
    let store = forest.into_store();
    let reopened = Forest::new(store, BranchCache::new(16), Secrets::default(), nonce());
    let mut txn = Transaction::new(reopened);
    let rows = txn.iter_from(&tree).unwrap();
    assert_eq!(rows.len(), 12);
    for i in 0..12u64 {
        assert_eq!(rows[i as usize], (i, Key::U64(i), vec![i as u8]));
    }
}

#[test]
fn wrong_secrets_load_is_corrupt() {
    let mut forest = make_forest();
    let node = Node::Leaf { entries: vec![keyed_entry(1, b"sealed away")] };
    let link = forest.persist(&node).unwrap();
    let store = forest.into_store();
    let mut other = Forest::new(
        store,
        BranchCache::new(16),
        Secrets::from_key(vec![3u8; 32]),
        nonce(),
    );
    assert_eq!(other.load(link).unwrap_err(), Error::Corrupt);
}

#[test]
fn wrong_nonce_load_is_corrupt() {
    let mut forest = make_forest();
    let node = Node::Leaf { entries: vec![keyed_entry(2, b"nonce bound")] };
    let link = forest.persist(&node).unwrap();
    let store = forest.into_store();
    let other_nonce = b"another 24 byte nonce !!".to_vec();
    let mut other = Forest::new(store, BranchCache::new(16), Secrets::default(), other_nonce);
    assert_eq!(other.load(link).unwrap_err(), Error::Corrupt);
}
