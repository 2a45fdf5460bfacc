use dht_gossip::coords::{Topology, RING_SIZE, STANDARD_SPACE_QUANTUM, STANDARD_TIME_QUANTUM};
use kitsune_p2p_timestamp::Timestamp;

#[test]
fn identity_keeps_locations_and_microseconds() {
    let topo = Topology::identity(Timestamp::from_micros(0));
    assert_eq!(topo.space_coord(0), 0);
    assert_eq!(topo.space_coord(1000), 1000);
    assert_eq!(topo.space_coord(4294967295), 4294967295);
    assert_eq!(topo.time_coord(Timestamp::from_micros(0)), 0);
    assert_eq!(topo.time_coord(Timestamp::from_micros(20)), 20);
    assert_eq!(topo.time_origin().as_micros(), 0);
    assert_eq!(RING_SIZE, 4294967296);
}

#[test]
fn time_axis_starts_at_the_origin() {
    let topo = Topology::identity(Timestamp::from_micros(1000));
    assert_eq!(topo.time_coord(Timestamp::from_micros(1000)), 0);
    assert_eq!(topo.time_coord(Timestamp::from_micros(1001)), 1);
    assert_eq!(topo.time_coord(Timestamp::from_micros(999)), 0);
    assert_eq!(topo.time_coord(Timestamp::from_micros(i64::MIN)), 0);
    assert_eq!(topo.time_origin().as_micros(), 1000);
}

#[test]
fn time_axis_ends_at_its_last_coordinate() {
    let topo = Topology::identity(Timestamp::from_micros(0));
    assert_eq!(topo.time_coord(Timestamp::from_micros(4294967295)), 4294967295);
    assert_eq!(topo.time_coord(Timestamp::from_micros(4294967296)), 4294967295);
    assert_eq!(topo.time_coord(Timestamp::from_micros(i64::MAX)), 4294967295);
    let early = Topology::identity(Timestamp::from_micros(i64::MIN));
    assert_eq!(early.time_coord(Timestamp::from_micros(i64::MAX)), 4294967295);
    assert_eq!(early.time_coord(Timestamp::from_micros(i64::MIN + 5)), 5);
}

#[test]
fn standard_quanta() {
    let topo = Topology::standard(Timestamp::from_micros(0));
    assert_eq!(STANDARD_SPACE_QUANTUM, 4096);
    assert_eq!(STANDARD_TIME_QUANTUM, 300_000_000);
    assert_eq!(topo.space_coord(4095), 0);
    assert_eq!(topo.space_coord(4096), 1);
    assert_eq!(topo.space_coord(4294967295), 1048575);
    assert_eq!(topo.time_coord(Timestamp::from_micros(299_999_999)), 0);
    assert_eq!(topo.time_coord(Timestamp::from_micros(300_000_000)), 1);
    assert_eq!(topo.time_coord(Timestamp::from_micros(3_000_000_001)), 10);
}

#[test]
fn quanta_of_zero_are_refused() {
    let origin = Timestamp::from_micros(0);
    assert!(Topology::new(0, 1, origin).is_none());
    assert!(Topology::new(1, 0, origin).is_none());
    assert!(Topology::new(0, 0, origin).is_none());
    let topo = Topology::new(10, 7, origin).unwrap();
    assert_eq!(topo.space_coord(99), 9);
    assert_eq!(topo.time_coord(Timestamp::from_micros(48)), 6);
    assert_eq!(topo.time_coord(Timestamp::from_micros(49)), 7);
}

#[test]
fn topologies_compare_by_what_they_do() {
    let a = Topology::identity(Timestamp::from_micros(5));
    let b = Topology::new(1, 1, Timestamp::from_micros(5)).unwrap();
    let c = Topology::identity(Timestamp::from_micros(6));
    let d = Topology::standard(Timestamp::from_micros(5));
    assert!(a.same_as(&b));
    assert!(b.same_as(&a));
    assert!(!a.same_as(&c));
    assert!(!a.same_as(&d));
}
