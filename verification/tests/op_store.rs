use dht_gossip::coords::Topology;
use dht_gossip::op::{Op, OpData};
use dht_gossip::op_store::OpStore;
use dht_gossip::region::RegionBounds;
use kitsune_p2p_timestamp::Timestamp;

#[test]
fn query_region_returns_what_lies_inside_once() {
    let mut store = OpStore::new(Topology::identity(Timestamp::from_micros(0)));
    assert_eq!(store.len(), 0);
    store.integrate_op(Op::new(OpData::fake(0, 10, 1)));
    store.integrate_op(Op::new(OpData::fake(1000, 20, 2)));
    store.integrate_op(Op::new(OpData::fake(2000, 15, 4)));
    store.integrate_op(Op::new(OpData::fake(1000, 21, 8)));
    assert_eq!(store.len(), 4);
    let sizes = |b: RegionBounds| -> Vec<u32> { store.query_region(&b).iter().map(|op: &Op| op.size).collect() };
    assert_eq!(sizes(RegionBounds { x: (0, 100), t: (0, 20) }), vec![1]);
    assert_eq!(sizes(RegionBounds { x: (0, 1001), t: (0, 21) }), vec![1, 2, 8]);
    assert_eq!(sizes(RegionBounds { x: (1000, 1001), t: (0, 20) }), vec![2]);
    assert_eq!(sizes(RegionBounds { x: (1000, 2000), t: (15, 20) }), vec![2, 4]);
    assert_eq!(sizes(RegionBounds { x: (1, 999), t: (0, 4294967295) }), vec![]);
    assert_eq!(sizes(RegionBounds { x: (2000, 1000), t: (0, 4294967295) }), vec![]);
    assert_eq!(sizes(RegionBounds { x: (0, 4294967295), t: (0, 4294967295) }), vec![1, 2, 4, 8]);
}

#[test]
fn store_keeps_equal_ops_apart() {
    let mut store = OpStore::new(Topology::standard(Timestamp::from_micros(0)));
    let op = Op::new(OpData::fake(5000, 600_000_000, 3));
    store.integrate_op(op.clone());
    store.integrate_op(op);
    // space coordinate 1, time coordinate 2
    let found = store.query_region(&RegionBounds { x: (1, 1), t: (2, 2) });
    assert_eq!(found.len(), 2);
    assert_eq!(found[0].hash, found[1].hash);
    assert_eq!(store.query_region(&RegionBounds { x: (0, 0), t: (2, 2) }).len(), 0);
}
