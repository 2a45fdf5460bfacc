use dht_gossip::arq::{Arq, ArqBounds, ArqSet, Span};

fn spans(set: &ArqSet) -> Vec<(u32, u32)> {
    set.to_bounds().iter().map(|s: &Span| (s.first, s.last)).collect()
}

fn set_of(start: u32, power: u8, count: u32) -> ArqSet {
    ArqSet::single(Arq::new(start, power, count).to_bounds())
}

#[test]
fn bounds_of_an_arq() {
    let b: ArqBounds = Arq::new(0, 8, 4).to_bounds();
    assert_eq!(b.first(), 0);
    assert_eq!(b.length(), 1024);
    let b = Arq::new(128, 8, 4).to_bounds();
    assert_eq!(b.first(), 128);
    assert_eq!(b.length(), 1024);
    let b = Arq::new(7, 0, 3).to_bounds();
    assert_eq!(b.length(), 3);
    let b = Arq::new(7, 12, 0).to_bounds();
    assert_eq!(b.length(), 0);
    // no arc is longer than the ring
    let b = Arq::new(7, 31, 2).to_bounds();
    assert_eq!(b.length(), 4294967296);
    let b = Arq::new(7, 31, 3).to_bounds();
    assert_eq!(b.length(), 4294967296);
    let b = Arq::new(7, 32, 1).to_bounds();
    assert_eq!(b.length(), 4294967296);
    let b = Arq::new(7, 200, 1).to_bounds();
    assert_eq!(b.length(), 4294967296);
    let b = Arq::new(7, 31, 1).to_bounds();
    assert_eq!(b.length(), 2147483648);
}

#[test]
fn an_arc_is_one_stretch_or_two() {
    assert_eq!(spans(&set_of(0, 8, 4)), vec![(0, 1023)]);
    assert_eq!(spans(&set_of(128, 6, 4)), vec![(128, 383)]);
    assert_eq!(spans(&set_of(128, 6, 0)), vec![]);
    // passes the end of the ring
    assert_eq!(
        spans(&set_of(4294967040, 8, 2)),
        vec![(0, 255), (4294967040, 4294967295)]
    );
    // ends at the end of the ring
    assert_eq!(spans(&set_of(4294967040, 8, 1)), vec![(4294967040, 4294967295)]);
    // the whole ring, wherever it starts
    assert_eq!(spans(&set_of(77, 32, 1)), vec![(0, 4294967295)]);
    assert_eq!(set_of(128, 6, 4).max_power(), 6);
    assert_eq!(Arq::new(4294967040, 8, 2).to_bounds().to_spans().len(), 2);
}

#[test]
fn intersection_of_overlapping_arcs() {
    let a = set_of(0, 6, 4);
    let b = set_of(128, 6, 4);
    assert_eq!(spans(&a.intersection(&b)), vec![(128, 255)]);
    assert_eq!(spans(&b.intersection(&a)), vec![(128, 255)]);
    let a = set_of(0, 8, 4);
    let b = set_of(128, 8, 4);
    let common = a.intersection(&b);
    assert_eq!(spans(&common), vec![(128, 1023)]);
    assert_eq!(common.max_power(), 8);
    let c = set_of(0, 3, 1);
    assert_eq!(a.intersection(&c).max_power(), 3);
    assert_eq!(c.intersection(&a).max_power(), 3);
}

#[test]
fn intersection_on_both_sides_of_the_origin() {
    // around the origin: [2^32 - 256, 2^32) and [0, 256)
    let a = set_of(4294967040, 8, 2);
    // all but [2^32 - 128, 2^32) and [0, 128)
    let b = set_of(128, 8, 16777215);
    assert_eq!(spans(&b), vec![(128, 4294967167)]);
    let expected = vec![(128, 255), (4294967040, 4294967167)];
    assert_eq!(spans(&a.intersection(&b)), expected);
    assert_eq!(spans(&b.intersection(&a)), expected);
    // two arcs that both pass the origin
    let c = set_of(4294967286, 0, 20);
    let d = set_of(4294967291, 0, 10);
    assert_eq!(
        spans(&c.intersection(&d)),
        vec![(0, 4), (4294967291, 4294967295)]
    );
}

#[test]
fn intersection_of_arcs_apart_is_empty() {
    let a = set_of(0, 6, 4);
    let b = set_of(256, 6, 4);
    assert_eq!(spans(&a.intersection(&b)), vec![]);
    assert_eq!(spans(&b.intersection(&a)), vec![]);
    let none = ArqSet::empty(4);
    assert_eq!(spans(&a.intersection(&none)), vec![]);
    assert_eq!(spans(&none.intersection(&a)), vec![]);
}

#[test]
fn union_joins_what_touches() {
    let a = set_of(0, 6, 4);
    let b = set_of(128, 6, 4);
    assert_eq!(spans(&a.union(&b)), vec![(0, 383)]);
    assert_eq!(spans(&b.union(&a)), vec![(0, 383)]);
    // neighbours without a gap become one stretch
    let c = set_of(256, 6, 4);
    assert_eq!(spans(&a.union(&c)), vec![(0, 511)]);
    // a gap of one coordinate keeps them apart
    let d = set_of(257, 6, 4);
    assert_eq!(spans(&a.union(&d)), vec![(0, 255), (257, 512)]);
    assert_eq!(spans(&d.union(&a)), vec![(0, 255), (257, 512)]);
    // an arc around the origin and one inside one of its stretches
    let e = set_of(4294967040, 8, 2);
    let f = set_of(10, 0, 1000);
    assert_eq!(
        spans(&e.union(&f)),
        vec![(0, 1009), (4294967040, 4294967295)]
    );
    let none = ArqSet::empty(9);
    assert_eq!(spans(&none.union(&a)), vec![(0, 255)]);
    assert_eq!(spans(&a.union(&none)), vec![(0, 255)]);
    assert_eq!(a.union(&none).max_power(), 6);
    // up to the last coordinate
    let g = set_of(4294967295, 0, 1);
    let h = set_of(4294967294, 0, 1);
    assert_eq!(spans(&g.union(&h)), vec![(4294967294, 4294967295)]);
    let whole = set_of(0, 32, 1);
    assert_eq!(spans(&whole.union(&g)), vec![(0, 4294967295)]);
}

#[test]
fn duplicate_is_the_same_set() {
    let a = set_of(4294967040, 8, 2);
    let b = a.duplicate();
    assert_eq!(spans(&a), spans(&b));
    assert_eq!(a.max_power(), b.max_power());
}

#[test]
fn a_set_of_several_arcs() {
    let arcs = vec![
        Arq::new(256, 6, 4).to_bounds(),
        Arq::new(0, 8, 1).to_bounds(),
        Arq::new(4294967040, 8, 2).to_bounds(),
        Arq::new(1000, 3, 1).to_bounds(),
        Arq::new(77, 5, 0).to_bounds(),
    ];
    let set = ArqSet::new(&arcs);
    assert_eq!(spans(&set), vec![(0, 511), (1000, 1007), (4294967040, 4294967295)]);
    assert_eq!(set.max_power(), 3);
    let none = ArqSet::new(&Vec::new());
    assert_eq!(spans(&none), vec![]);
    assert_eq!(none.max_power(), 32);
    let wide = ArqSet::new(&vec![Arq::new(5, 40, 1).to_bounds()]);
    assert_eq!(spans(&wide), vec![(0, 4294967295)]);
    assert_eq!(wide.max_power(), 32);
    assert!(set.same_as(&set.duplicate()));
    assert!(!set.same_as(&none));
    assert_eq!(Arq::new(1, 2, 3), Arq { start: 1, power: 2, count: 3 });
    assert_eq!(arcs[1].to_spans(), vec![Span { first: 0, last: 255 }]);
}
