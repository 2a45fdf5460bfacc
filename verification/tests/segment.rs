use dht_gossip::segment::{pow2_u64, tile_span, Segment};

fn tiles(first: u32, last: u32, max_power: u8) -> Vec<(u8, u32)> {
    tile_span(first, last, max_power).iter().map(|s: &Segment| (s.power, s.start)).collect()
}

#[test]
fn powers_of_two() {
    assert_eq!(pow2_u64(0), 1);
    assert_eq!(pow2_u64(1), 2);
    assert_eq!(pow2_u64(8), 256);
    assert_eq!(pow2_u64(31), 2147483648);
    assert_eq!(pow2_u64(32), 4294967296);
}

#[test]
fn segment_bounds() {
    assert_eq!(Segment { power: 0, start: 5 }.bounds(), (5, 5));
    assert_eq!(Segment { power: 8, start: 4294967040 }.bounds(), (4294967040, 4294967295));
    assert_eq!(Segment { power: 3, start: 64 }.bounds(), (64, 71));
    assert_eq!(Segment { power: 32, start: 0 }.bounds(), (0, 4294967295));
}

#[test]
fn a_stretch_is_cut_into_aligned_segments() {
    assert_eq!(tiles(0, 1023, 8), vec![(8, 0), (8, 256), (8, 512), (8, 768)]);
    assert_eq!(tiles(128, 1023, 8), vec![(7, 128), (8, 256), (8, 512), (8, 768)]);
    assert_eq!(tiles(128, 255, 6), vec![(6, 128), (6, 192)]);
    assert_eq!(tiles(0, 100, 32), vec![(6, 0), (5, 64), (2, 96), (0, 100)]);
    assert_eq!(tiles(5, 5, 32), vec![(0, 5)]);
    assert_eq!(tiles(3, 12, 32), vec![(0, 3), (2, 4), (2, 8), (0, 12)]);
    assert_eq!(tiles(3, 12, 1), vec![(0, 3), (1, 4), (1, 6), (1, 8), (1, 10), (0, 12)]);
    assert_eq!(tiles(3, 6, 0), vec![(0, 3), (0, 4), (0, 5), (0, 6)]);
    assert_eq!(tiles(6, 5, 32), vec![]);
}

#[test]
fn the_ends_of_the_axis() {
    assert_eq!(tiles(0, 4294967295, 32), vec![(32, 0)]);
    assert_eq!(tiles(0, 4294967295, 31), vec![(31, 0), (31, 2147483648)]);
    assert_eq!(tiles(4294967295, 4294967295, 32), vec![(0, 4294967295)]);
    assert_eq!(tiles(4294967040, 4294967295, 32), vec![(8, 4294967040)]);
    assert_eq!(
        tiles(1, 4294967295, 32).len(),
        32
    );
}

#[test]
fn segments_follow_one_another() {
    let segs = tile_span(1000, 99999, 10);
    let mut next = 1000u64;
    for s in segs.iter() {
        let (first, last) = s.bounds();
        assert_eq!(first as u64, next);
        assert_eq!(first % (1u32 << s.power), 0);
        assert!(s.power <= 10);
        next = last as u64 + 1;
    }
    assert_eq!(next, 100000);
}
