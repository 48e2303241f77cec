use likes::allot::CanisterNodeMap;
use likes::hashset::{hset_size, HashSet};
use likes::node::{CanisterState, NodeError, NodeInitArgs, INDEX_LIMIT, MEMORY_LIMIT};
use likes::node_id::NodeId;
use likes::slot::slot;

fn id(b: u8) -> NodeId {
    NodeId::from_slice(&[b, 7])
}

fn s(x: &str) -> String {
    x.to_string()
}

fn node(start: u32, end: u32) -> CanisterState {
    CanisterState::init(NodeInitArgs { manager_id: id(100), start_node: start, end_node: end }, id(100))
}

/// A key whose slot lies in `lo ..= hi`, and one whose slot does not.
fn keys_around(lo: u32, hi: u32) -> (String, String) {
    let mut inside = None;
    let mut outside = None;
    for i in 0..100000 {
        let k = format!("k{}", i);
        let sl = slot(&k);
        if sl >= lo && sl <= hi {
            if inside.is_none() {
                inside = Some(k);
            }
        } else if outside.is_none() {
            outside = Some(k);
        }
        if inside.is_some() && outside.is_some() {
            break;
        }
    }
    (inside.unwrap(), outside.unwrap())
}

#[test]
fn field_store_insert_and_get() {
    let mut h = HashSet::new();
    assert!(h.insert(s("u1"), s("f1"), vec![1, 2, 3]));
    assert!(h.insert(s("u1"), s("f2"), vec![4]));
    assert!(h.insert(s("u2"), s("f1"), vec![5]));
    assert_eq!(h.get_field(&s("u1"), &s("f1")), Some(vec![1, 2, 3]));
    assert_eq!(h.get_field(&s("u1"), &s("f3")), None);
    assert_eq!(h.get_field(&s("u3"), &s("f1")), None);
    assert_eq!(h.len(), 2);
    assert_eq!(h.field_len(&s("u1")), 2);
    assert_eq!(h.field_len(&s("u9")), 0);
    assert!(h.insert(s("u1"), s("f1"), vec![9]));
    assert_eq!(h.get_field(&s("u1"), &s("f1")), Some(vec![9]));
    assert_eq!(h.field_len(&s("u1")), 2);
    assert!(h.get_key(&s("u2")).is_some());
    assert!(h.get_key(&s("u4")).is_none());
}

#[test]
fn field_store_removals() {
    let mut h = HashSet::new();
    h.insert(s("a"), s("x"), vec![1]);
    h.insert(s("a"), s("y"), vec![2]);
    h.insert(s("b"), s("x"), vec![3]);
    assert!(!h.remove_field(s("a"), s("z")));
    assert!(!h.remove_field(s("c"), s("x")));
    assert!(h.remove_field(s("a"), s("x")));
    assert_eq!(h.len(), 2);
    assert!(h.remove_field(s("a"), s("y")));
    assert_eq!(h.len(), 1);
    assert!(h.get_key(&s("a")).is_none());
    assert!(h.remove_key(s("b")));
    assert!(!h.remove_key(s("b")));
    assert_eq!(h.len(), 0);
}

#[test]
fn field_store_merge_batch_wins() {
    let mut h = HashSet::new();
    h.insert(s("a"), s("x"), vec![1]);
    h.insert(s("a"), s("y"), vec![2]);
    let mut b = HashSet::new();
    b.insert(s("a"), s("x"), vec![7]);
    b.insert(s("c"), s("z"), vec![8]);
    h.merge_from(&b);
    assert_eq!(h.get_field(&s("a"), &s("x")), Some(vec![7]));
    assert_eq!(h.get_field(&s("a"), &s("y")), Some(vec![2]));
    assert_eq!(h.get_field(&s("c"), &s("z")), Some(vec![8]));
    assert_eq!(h.len(), 2);
}

#[test]
fn field_store_take_slot_range() {
    let (inside, outside) = keys_around(0, 30000);
    let mut h = HashSet::new();
    h.insert(inside.clone(), s("f"), vec![1]);
    h.insert(outside.clone(), s("f"), vec![2]);
    let moved = h.take_slot_range(0, 30000);
    assert_eq!(moved.get_field(&inside, &s("f")), Some(vec![1]));
    assert_eq!(moved.get_field(&outside, &s("f")), None);
    assert_eq!(h.get_field(&inside, &s("f")), None);
    assert_eq!(h.get_field(&outside, &s("f")), Some(vec![2]));
}

#[test]
fn put_then_get_on_owning_node() {
    let mut n = node(0, 65535);
    assert_eq!(n.hset(&id(100), s("u1"), s("f1"), vec![1, 2, 3]), Ok(true));
    assert_eq!(n.hget(&s("u1"), &s("f1")), Some(vec![1, 2, 3]));
    assert!(n.hexist(&s("u1"), &s("f1")));
    assert!(!n.hexist(&s("u1"), &s("f2")));
    let other = node(0, 65535);
    assert_eq!(other.hget(&s("u1"), &s("f1")), None);
}

#[test]
fn writes_need_owner() {
    let mut n = node(0, 100);
    assert_eq!(n.hset(&id(5), s("k"), s("f"), vec![1]), Err(NodeError::NotOwner));
    assert_eq!(n.hget(&s("k"), &s("f")), None);
    n.hset(&id(100), s("k"), s("f"), vec![1]).unwrap();
    assert_eq!(n.hdel(&id(5), s("k"), s("f")), Err(NodeError::NotOwner));
    assert_eq!(n.hdel(&id(100), s("k"), s("f")), Ok(true));
    assert_eq!(n.hdel(&id(100), s("k"), s("f")), Ok(false));
    assert_eq!(n.likes.len(), 0);
}

#[test]
fn write_gate_while_migrating() {
    let mut n = node(0, 65535);
    n.hset(&id(100), s("k"), s("f"), vec![1]).unwrap();
    let target = CanisterNodeMap { canister_id: id(3), start_node: 70000, end_node: 70001 };
    n.update_node_data(&id(100), &target).unwrap();
    assert!(n.migrating_data);
    assert_eq!(n.hset(&id(100), s("k"), s("f"), vec![2]), Err(NodeError::Migrating));
    assert_eq!(n.hdel(&id(100), s("k"), s("f")), Err(NodeError::Migrating));
    assert_eq!(n.hget(&s("k"), &s("f")), Some(vec![1]));
    assert_eq!(n.update_node_data(&id(100), &target).err(), Some(NodeError::Migrating));
    n.end_migration();
    assert_eq!(n.hset(&id(100), s("k"), s("f"), vec![2]), Ok(true));
}

#[test]
fn repeated_reads_agree() {
    let mut n = node(0, 65535);
    n.hset(&id(100), s("k"), s("f"), vec![4, 4]).unwrap();
    let a = n.hget(&s("k"), &s("f"));
    let b = n.hget(&s("k"), &s("f"));
    assert_eq!(a, b);
    assert_eq!(n.hget(&s("q"), &s("f")), n.hget(&s("q"), &s("f")));
}

#[test]
fn migration_moves_upper_range() {
    let (inside, outside) = keys_around(8193, 16383);
    let mut src = node(0, 16383);
    src.hset(&id(100), inside.clone(), s("f1"), vec![1]).unwrap();
    src.hset(&id(100), inside.clone(), s("f2"), vec![2]).unwrap();
    src.hset(&id(100), outside.clone(), s("f1"), vec![3]).unwrap();
    let target = CanisterNodeMap { canister_id: id(50), start_node: 8193, end_node: 16383 };
    assert_eq!(src.update_node_data(&id(9), &target).err(), Some(NodeError::NotManager));
    let moved = src.update_node_data(&id(100), &target).unwrap();
    let mut dst = node(8193, 16383);
    for (k, f) in moved.hset.iter() {
        let group = HashSet { hset: vec![(k.clone(), f.clone())] };
        assert_eq!(dst.receive_migration_data(true, &group), Ok(()));
    }
    src.end_migration();
    assert!(!src.migrating_data);
    assert!(!dst.migrating_data);
    assert_eq!(dst.hget(&inside, &s("f1")), Some(vec![1]));
    assert_eq!(dst.hget(&inside, &s("f2")), Some(vec![2]));
    assert_eq!(src.hget(&inside, &s("f1")), None);
    assert_eq!(src.hget(&outside, &s("f1")), Some(vec![3]));
    assert_eq!(dst.hget(&outside, &s("f1")), None);
}

#[test]
fn unknown_sender_rejected() {
    let mut dst = node(0, 100);
    dst.hset(&id(100), s("a"), s("x"), vec![1]).unwrap();
    let mut batch = HashSet::new();
    batch.insert(s("b"), s("y"), vec![2]);
    assert_eq!(dst.receive_migration_data(false, &batch), Err(NodeError::UnknownSender));
    assert_eq!(dst.hget(&s("b"), &s("y")), None);
    assert_eq!(dst.hget(&s("a"), &s("x")), Some(vec![1]));
    assert_eq!(dst.likes.len(), 1);
}

#[test]
fn capacity_check_every_batch() {
    let mut n = node(0, 65535);
    assert!(n.read_memory_limit(MEMORY_LIMIT + 1));
    assert!(!n.read_memory_limit(MEMORY_LIMIT));
    n.hset(&id(100), s("k"), s("f"), vec![1]).unwrap();
    assert!(!n.read_memory_limit(u64::MAX));
    for i in 1..INDEX_LIMIT {
        n.hset(&id(100), format!("k{}", i), s("f"), vec![1]).unwrap();
    }
    assert_eq!(n.likes.len(), 1000);
    assert!(n.read_memory_limit(MEMORY_LIMIT + 1));
    assert_eq!(MEMORY_LIMIT, 2147483648);
}

#[test]
fn fresh_node_state() {
    let n = CanisterState::new();
    assert!(n.owner.is_null());
    assert!(n.get_allot_id().is_null());
    assert_eq!((n.init_args.start_node, n.init_args.end_node), (0, 0));
    assert!(!n.migrating_data);
    assert_eq!(n.likes.len(), 0);
    let m = node(5, 9);
    assert_eq!(m.get_allot_id(), &id(100));
    assert_eq!((m.init_args.start_node, m.init_args.end_node), (5, 9));
}

#[test]
fn store_size_estimate() {
    let mut h = HashSet::new();
    assert_eq!(hset_size(&h, 24, 48, 24), 0);
    h.insert(s("ab"), s("xyz"), vec![1, 2, 3, 4]);
    // key: 24 + 2, fields header: 48, field: 24 + 3 + 24 + 4
    assert_eq!(hset_size(&h, 24, 48, 24), 129);
    h.insert(s("ab"), s("é"), vec![]);
    assert_eq!(hset_size(&h, 24, 48, 24), 129 + 24 + 2 + 24);
    h.insert(s("c"), s("d"), vec![9]);
    assert_eq!(hset_size(&h, 0, 0, 0), 2 + 3 + 4 + 2 + 1 + 1 + 1);
    assert_eq!(hset_size(&h, usize::MAX, 1, 1), usize::MAX);
}

#[test]
fn receive_reopens_write_gate() {
    let mut n = node(0, 65535);
    n.hset(&id(100), s("k"), s("f"), vec![1]).unwrap();
    let target = CanisterNodeMap { canister_id: id(3), start_node: 70000, end_node: 70001 };
    n.update_node_data(&id(100), &target).unwrap();
    assert!(n.migrating_data);
    let mut batch = HashSet::new();
    batch.insert(s("b"), s("y"), vec![2]);
    assert_eq!(n.receive_migration_data(true, &batch), Ok(()));
    assert!(!n.migrating_data);
    assert_eq!(n.hget(&s("b"), &s("y")), Some(vec![2]));
    assert_eq!(n.hset(&id(100), s("k"), s("f"), vec![3]), Ok(true));
}
