use dht_gossip::aggregate::GridPoint;
use dht_gossip::coords::Topology;
use dht_gossip::fenwick::Fenwick2;
use dht_gossip::op::{Op, OpData};
use dht_gossip::region::RegionBounds;
use dht_gossip::tree::Tree;
use kitsune_p2p_timestamp::Timestamp;

fn tree_of(points: &[(u32, i64, u32)]) -> Tree {
    let mut tree = Tree::new(Topology::identity(Timestamp::from_micros(0)));
    for (loc, at, size) in points {
        tree.add_op(Op::new(OpData::fake(*loc, *at, *size)));
    }
    tree
}

fn naive(points: &[(u32, i64, u32)], b: &RegionBounds) -> (u32, u64) {
    let mut count = 0;
    let mut size = 0;
    for (x, t, s) in points {
        let t = *t as u32;
        if b.x.0 <= *x && *x <= b.x.1 && b.t.0 <= t && t <= b.t.1 {
            count += 1;
            size += *s as u64;
        }
    }
    (count, size)
}

#[test]
fn lookup_counts_and_sums_what_lies_in_the_region() {
    let points = [
        (0, 10, 1234),
        (1000, 20, 2345),
        (2000, 15, 3456),
        (1000, 20, 1),
        (4294967295, 4294967295, 7),
        (5, 0, 9),
        (17, 3, 11),
    ];
    let tree = tree_of(&points);
    let regions = [
        RegionBounds { x: (0, 4294967295), t: (0, 4294967295) },
        RegionBounds { x: (0, 0), t: (10, 10) },
        RegionBounds { x: (1, 2000), t: (0, 19) },
        RegionBounds { x: (1000, 1000), t: (20, 20) },
        RegionBounds { x: (4294967295, 4294967295), t: (4294967295, 4294967295) },
        RegionBounds { x: (5, 17), t: (0, 3) },
        RegionBounds { x: (6, 16), t: (0, 4294967295) },
        RegionBounds { x: (0, 2000), t: (11, 14) },
    ];
    for region in regions.iter() {
        let data = tree.lookup(region);
        let (count, size) = naive(&points, region);
        assert_eq!(data.count, count);
        assert_eq!(data.size, size);
    }
    let all = tree.lookup(&regions[0]);
    assert_eq!(all.count, 7);
    assert_eq!(all.size, 1234 + 2345 + 3456 + 1 + 7 + 9 + 11);
    let twice = tree.lookup(&regions[3]);
    assert_eq!(twice.count, 2);
    assert_eq!(twice.size, 2346);
}

#[test]
fn lookup_of_region_without_ops_is_zero() {
    let tree = tree_of(&[(0, 10, 1234), (1000, 20, 2345)]);
    let data = tree.lookup(&RegionBounds { x: (1, 999), t: (0, 4294967295) });
    assert_eq!(data.count, 0);
    assert_eq!(data.size, 0);
    let empty = tree_of(&[]);
    let data = empty.lookup(&RegionBounds { x: (0, 4294967295), t: (0, 4294967295) });
    assert_eq!(data.count, 0);
    assert_eq!(data.size, 0);
}

#[test]
fn lookup_of_reversed_bounds_is_zero() {
    let tree = tree_of(&[(5, 5, 50)]);
    let data = tree.lookup(&RegionBounds { x: (6, 4), t: (0, 10) });
    assert_eq!(data.count, 0);
    assert_eq!(data.size, 0);
    let data = tree.lookup(&RegionBounds { x: (0, 10), t: (6, 5) });
    assert_eq!(data.count, 0);
    assert_eq!(data.size, 0);
}

#[test]
fn both_corners_belong_to_the_region() {
    let tree = tree_of(&[(10, 20, 1), (30, 40, 2)]);
    let data = tree.lookup(&RegionBounds { x: (10, 30), t: (20, 40) });
    assert_eq!(data.count, 2);
    assert_eq!(data.size, 3);
    let data = tree.lookup(&RegionBounds { x: (11, 30), t: (20, 40) });
    assert_eq!(data.count, 1);
    let data = tree.lookup(&RegionBounds { x: (10, 30), t: (20, 39) });
    assert_eq!(data.count, 1);
    assert_eq!(data.size, 1);
}

#[test]
fn prefix_sum_takes_everything_up_to_the_point() {
    let tree = tree_of(&[(0, 10, 4321), (128, 20, 1234), (129, 5, 10)]);
    let at = tree.prefix_sum((128, 20));
    assert_eq!(at.count, 2);
    assert_eq!(at.size, 5555);
    let before = tree.prefix_sum((127, 4294967295));
    assert_eq!(before.count, 1);
    assert_eq!(before.size, 4321);
    let none = tree.prefix_sum((4294967295, 4));
    assert_eq!(none.count, 0);
    let all = tree.prefix_sum((4294967295, 4294967295));
    assert_eq!(all.count, 3);
    assert_eq!(all.size, 5565);
}

#[test]
fn index_answers_for_points_as_they_come() {
    let mut index = Fenwick2::new();
    let zero = index.query((0, 0), (4294967295, 4294967295));
    assert_eq!(zero.count, 0);
    assert_eq!(zero.size, 0);
    let mut expected_size = 0u64;
    for i in 0..50u32 {
        let p = GridPoint { x: i.wrapping_mul(2654435761) , t: i * 3, size: i + 1 };
        index.update(p);
        expected_size += (i + 1) as u64;
        let all = index.query((0, 0), (4294967295, 4294967295));
        assert_eq!(all.count, i + 1);
        assert_eq!(all.size, expected_size);
    }
    let early = index.query((0, 0), (4294967295, 29));
    assert_eq!(early.count, 10);
    assert_eq!(early.size, 55);
    let late = index.prefix_sum((4294967295, 147));
    assert_eq!(late.count, 50);
}

#[test]
fn tree_places_ops_by_its_topology() {
    let topo = Topology::standard(Timestamp::from_micros(1_000_000));
    let mut tree = Tree::new(topo);
    // location 8192 is space coordinate 2; ten minutes after the origin is time coordinate 2
    tree.add_op(Op::new(OpData::fake(8192, 1_000_000 + 600_000_000, 5)));
    // before the origin: time coordinate 0
    tree.add_op(Op::new(OpData::fake(4095, 0, 6)));
    let data = tree.lookup(&RegionBounds { x: (2, 2), t: (2, 2) });
    assert_eq!(data.count, 1);
    assert_eq!(data.size, 5);
    let data = tree.lookup(&RegionBounds { x: (0, 0), t: (0, 0) });
    assert_eq!(data.count, 1);
    assert_eq!(data.size, 6);
    assert!(tree.topo().same_as(&topo));
}
