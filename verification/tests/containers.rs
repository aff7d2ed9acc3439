use bpmd::ids::{NodeId, PoolAndLane, PoolId, LaneId};
use bpmd::vecmap::VecMap;
use bpmd::vecset::VecSet;

#[test]
fn vecmap_insert_keeps_first_value() {
    let mut m: VecMap<usize, &str> = VecMap::new();
    assert!(m.insert(1, "a"));
    assert!(!m.insert(1, "b"));
    assert_eq!(m.get(&1), Some(&"a"));
    assert_eq!(m.len(), 1);
}

#[test]
fn vecmap_remove_then_lookup() {
    let mut m: VecMap<usize, u32> = VecMap::new();
    m.insert(1, 10);
    m.insert(2, 20);
    m.insert(3, 30);
    assert_eq!(m.remove(&2), Some(20));
    assert_eq!(m.get(&2), None);
    assert_eq!(m.get(&1), Some(&10));
    assert_eq!(m.get(&3), Some(&30));
    assert_eq!(m.len(), 2);
    assert_eq!(m.remove(&7), None);
}

#[test]
fn vecmap_entry_or_default_inserts_once() {
    let mut m: VecMap<usize, u32> = VecMap::new();
    *m.entry(4).or_default() += 1;
    *m.entry(4).or_default() += 1;
    assert_eq!(m.get(&4), Some(&2));
    assert_eq!(m.len(), 1);
}

#[test]
fn vecmap_equality_ignores_order() {
    let mut a: VecMap<usize, u32> = VecMap::new();
    a.insert(1, 10);
    a.insert(2, 20);
    let mut b: VecMap<usize, u32> = VecMap::new();
    b.insert(2, 20);
    b.insert(1, 10);
    assert!(a == b);
    b.remove(&1);
    b.insert(1, 11);
    assert!(a != b);
}

#[test]
fn vecset_insert_contains_remove() {
    let mut s: VecSet<NodeId> = VecSet::new();
    assert!(s.insert(NodeId(3)));
    assert!(!s.insert(NodeId(3)));
    assert!(s.insert(NodeId(5)));
    assert!(s.contains(&NodeId(3)));
    s.remove(&NodeId(3));
    assert!(!s.contains(&NodeId(3)));
    assert_eq!(s.len(), 1);
}

#[test]
fn vecset_intersect_keeps_order_of_self() {
    let mut a: VecSet<usize> = VecSet::new();
    for v in [5, 1, 4, 2] {
        a.insert(v);
    }
    let mut b: VecSet<usize> = VecSet::new();
    for v in [2, 5, 9] {
        b.insert(v);
    }
    assert_eq!(a.intersect(&b), vec![5, 2]);
}

#[test]
fn vecset_equality_ignores_order() {
    let mut a: VecSet<usize> = VecSet::new();
    a.insert(1);
    a.insert(2);
    let mut b: VecSet<usize> = VecSet::new();
    b.insert(2);
    b.insert(1);
    assert!(a == b);
}

#[test]
fn pool_and_lane_order_is_pool_first() {
    let a = PoolAndLane { pool: PoolId(0), lane: LaneId(5) };
    let b = PoolAndLane { pool: PoolId(1), lane: LaneId(0) };
    assert!(a.less_than(&b));
    assert!(!b.less_than(&a));
    assert!(!a.less_than(&a));
    assert!(PoolAndLane::min_value().less_than(&a));
}
