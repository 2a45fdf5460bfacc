use dht_gossip::arq::{Arq, ArqSet};
use dht_gossip::coords::Topology;
use dht_gossip::region::{Region, RegionBounds, RegionCoordSetXtcs, RegionCoords, RegionData, RegionSet, RegionSetXtcs};
use dht_gossip::segment::Segment;
use kitsune_p2p_timestamp::Timestamp;

fn coords_of(start: u32, power: u8, count: u32, now: i64) -> RegionCoordSetXtcs {
    RegionCoordSetXtcs::new(
        Timestamp::from_micros(now),
        ArqSet::single(Arq::new(start, power, count).to_bounds()),
    )
}

fn digest(start: u32, power: u8, count: u32, now: i64, data: Vec<Vec<(u32, u64)>>) -> RegionSet {
    RegionSet::Xtcs(RegionSetXtcs {
        coords: coords_of(start, power, count, now),
        data: data
            .into_iter()
            .map(|row| row.into_iter().map(|(count, size)| RegionData { count, size }).collect())
            .collect(),
    })
}

fn named(regions: &Vec<Region>) -> Vec<(u32, u32, u32, u64)> {
    regions
        .iter()
        .map(|r: &Region| (r.coords.space.start, r.coords.time.start, r.data.count, r.data.size))
        .collect()
}

#[test]
fn bounds_of_a_region() {
    let coords = RegionCoords {
        space: Segment { power: 8, start: 4294967040 },
        time: Segment { power: 3, start: 64 },
    };
    let b: RegionBounds = coords.to_bounds();
    assert_eq!(b.x, (4294967040, 4294967295));
    assert_eq!(b.t, (64, 71));
}

#[test]
fn zero_aggregate() {
    let z = RegionData::zero();
    assert_eq!((z.count, z.size), (0, 0));
    assert!(z.same_as(&RegionData { count: 0, size: 0 }));
    assert!(!z.same_as(&RegionData { count: 1, size: 0 }));
    assert!(!z.same_as(&RegionData { count: 0, size: 1 }));
}

#[test]
fn regions_of_an_arc_up_to_an_instant() {
    let topo = Topology::identity(Timestamp::from_micros(0));
    let nested = coords_of(128, 6, 2, 100).region_coords_nested(&topo);
    let found: Vec<Vec<(u8, u32, u8, u32)>> = nested
        .iter()
        .map(|row| row.iter().map(|c: &RegionCoords| (c.space.power, c.space.start, c.time.power, c.time.start)).collect())
        .collect();
    assert_eq!(
        found,
        vec![
            vec![(6, 128, 6, 0), (6, 128, 5, 64), (6, 128, 2, 96), (6, 128, 0, 100)],
            vec![(6, 192, 6, 0), (6, 192, 5, 64), (6, 192, 2, 96), (6, 192, 0, 100)],
        ]
    );
    // an arc around the origin: the stretch at the low end comes first
    let nested = coords_of(4294967040, 8, 2, 0).region_coords_nested(&topo);
    let found: Vec<Vec<(u32, u32)>> = nested
        .iter()
        .map(|row| row.iter().map(|c: &RegionCoords| (c.space.start, c.time.start)).collect())
        .collect();
    assert_eq!(found, vec![vec![(0, 0)], vec![(4294967040, 0)]]);
    // no segment is wider than the ring
    let nested = coords_of(0, 40, 1, 0).region_coords_nested(&topo);
    assert_eq!(nested.len(), 1);
    assert_eq!(nested[0][0].space.power, 32);
    // nothing covered: no regions
    assert_eq!(coords_of(0, 6, 0, 100).region_coords_nested(&topo).len(), 0);
}

#[test]
fn regions_depend_on_the_topology() {
    let topo = Topology::new(1, 10, Timestamp::from_micros(50)).unwrap();
    // the instant 100 is time coordinate 5: [0, 3] and [4, 5]
    let nested = coords_of(0, 4, 1, 100).region_coords_nested(&topo);
    let found: Vec<(u8, u32)> = nested[0].iter().map(|c: &RegionCoords| (c.time.power, c.time.start)).collect();
    assert_eq!(found, vec![(2, 0), (1, 4)]);
}

#[test]
fn diff_of_a_digest_with_itself_is_empty() {
    let topo = Topology::identity(Timestamp::from_micros(0));
    let data = vec![vec![(0, 0), (1, 10), (0, 0), (7, 9)], vec![(5, 5), (0, 0), (0, 0), (1, 20)]];
    let set = digest(128, 6, 2, 100, data);
    assert!(set.diff(&set, &topo).is_empty());
    assert!(set.diff(&set.duplicate(), &topo).is_empty());
    assert_eq!(set.count(), 8);
    let none = digest(128, 6, 0, 100, vec![]);
    assert!(none.diff(&none, &topo).is_empty());
    assert_eq!(none.count(), 0);
}

#[test]
fn diff_names_the_regions_that_differ() {
    let topo = Topology::identity(Timestamp::from_micros(0));
    let mine = digest(
        128,
        6,
        2,
        100,
        vec![vec![(0, 0), (1, 10), (0, 0), (7, 9)], vec![(5, 5), (0, 0), (0, 0), (1, 20)]],
    );
    let theirs = digest(
        128,
        6,
        2,
        100,
        vec![vec![(0, 0), (1, 11), (0, 0), (7, 9)], vec![(4, 5), (0, 0), (0, 0), (0, 0)]],
    );
    assert_eq!(
        named(&mine.diff(&theirs, &topo)),
        vec![(128, 64, 1, 10), (192, 0, 5, 5), (192, 100, 1, 20)]
    );
    assert_eq!(
        named(&theirs.diff(&mine, &topo)),
        vec![(128, 64, 1, 11), (192, 0, 4, 5), (192, 100, 0, 0)]
    );
}

#[test]
fn a_digest_fits_its_regions_or_not() {
    let topo = Topology::identity(Timestamp::from_micros(0));
    let good = digest(128, 6, 2, 100, vec![vec![(0, 0); 4], vec![(0, 0); 4]]);
    let short_row = digest(128, 6, 2, 100, vec![vec![(0, 0); 4], vec![(0, 0); 3]]);
    let few_rows = digest(128, 6, 2, 100, vec![vec![(0, 0); 4]]);
    assert!(good.comparable(&good, &topo));
    assert!(!good.comparable(&short_row, &topo));
    assert!(!short_row.comparable(&good, &topo));
    assert!(!few_rows.comparable(&few_rows, &topo));
    let RegionSet::Xtcs(xtcs) = &short_row;
    assert!(!xtcs.is_fit(&topo));
    assert_eq!(xtcs.count(), 7);
    assert!(xtcs.coords.same_as(&xtcs.coords.duplicate()));
    assert!(!xtcs.coords.same_as(&coords_of(128, 6, 2, 99)));
    assert!(!xtcs.coords.same_as(&coords_of(128, 5, 4, 100)));
    assert!(!xtcs.coords.same_as(&coords_of(128, 6, 3, 100)));
}

#[test]
fn mass_of_a_region() {
    assert_eq!(Region::MASS, 22);
    assert_eq!(Region::MASS, dht_gossip::region::REGION_MASS);
    let set = digest(128, 6, 2, 100, vec![vec![(0, 0); 4], vec![(0, 0); 4]]);
    assert_eq!(set.mass(), Some(8 * 22));
    assert_eq!(digest(128, 6, 0, 100, vec![]).mass(), Some(0));
}
