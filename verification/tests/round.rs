use dht_gossip::arq::Arq;
use dht_gossip::coords::Topology;
use dht_gossip::host::AccessOpStore;
use dht_gossip::node::TestNode;
use dht_gossip::op::{Op, OpData};
use dht_gossip::region::{Region, RegionBounds, RegionCoords, RegionData};
use dht_gossip::round::{fetch_ops, has_room, integrate_ops, region_set_of, share_all, sum_sizes, Round, RoundError, RoundState};
use dht_gossip::segment::Segment;
use kitsune_p2p_timestamp::Timestamp;

fn identity() -> Topology {
    Topology::identity(Timestamp::from_micros(0))
}

fn pair() -> (TestNode, TestNode) {
    let topo = identity();
    let mut alice = TestNode::new(topo, Arq::new(0, 6, 4));
    let mut bobbo = TestNode::new(topo, Arq::new(128, 6, 4));
    alice.integrate_op(Op::new(OpData::fake(0, 10, 4321)));
    alice.integrate_op(Op::new(OpData::fake(130, 11, 50)));
    bobbo.integrate_op(Op::new(OpData::fake(128, 20, 1234)));
    (alice, bobbo)
}

fn count(node: &TestNode) -> u32 {
    node.query_region_data(&RegionBounds { x: (0, 4294967295), t: (0, 4294967295) }).count
}

fn agreed(a: &TestNode, b: &TestNode, now: i64) -> Round {
    Round::new(a.topo(), Timestamp::from_micros(now)).agree(&a.arq_set(), &b.arq_set()).ok().unwrap()
}

#[test]
fn a_round_step_by_step() {
    let (mut alice, bobbo) = pair();
    let topo = alice.topo();
    let now = Timestamp::from_micros(100);

    let here = Round::new(topo, now);
    assert_eq!(here.state(), RoundState::Idle);
    assert!(here.stats().is_none());
    assert!(here.regions().is_none());
    let there = Round::new(topo, now);

    let here = here.agree(&alice.arq_set(), &bobbo.arq_set()).ok().unwrap();
    let there = there.agree(&bobbo.arq_set(), &alice.arq_set()).ok().unwrap();
    assert_eq!(here.state(), RoundState::CommonArqComputed);
    assert!(here.stats().is_none());

    let digest_here = here.digest(&alice).ok().unwrap();
    let digest_there = there.digest(&bobbo).ok().unwrap();
    assert_eq!(digest_here.count(), 8);
    assert_eq!(digest_here.mass(), Some(176));
    assert!(digest_here.comparable(&digest_there, &topo));

    let here = here.exchange(digest_here.duplicate(), digest_there.duplicate()).ok().unwrap();
    let there = there.exchange(digest_there, digest_here).ok().unwrap();
    assert_eq!(here.state(), RoundState::RegionSetsExchanged);
    assert_eq!(here.stats().unwrap().region_data_sent, 176);

    let here = here.diff().ok().unwrap();
    let there = there.diff().ok().unwrap();
    assert_eq!(here.state(), RoundState::Diffed);
    let found: Vec<(u8, u32, u8, u32, u32, u64)> = here
        .regions()
        .unwrap()
        .iter()
        .map(|r: &Region| {
            (r.coords.space.power, r.coords.space.start, r.coords.time.power, r.coords.time.start, r.data.count, r.data.size)
        })
        .collect();
    // alice's and bobbo's operations lie in the same region: [128, 191] x [0, 63]
    assert_eq!(found, vec![(6, 128, 6, 0, 1, 50)]);
    let stats = here.stats().unwrap();
    assert_eq!(stats.region_data_sent, 176);
    assert_eq!(stats.region_data_rcvd, 176);
    assert_eq!(stats.op_data_sent, 0);

    let out_here = here.outgoing(&alice).ok().unwrap();
    let out_there = there.outgoing(&bobbo).ok().unwrap();
    assert_eq!(out_here.len(), 1);
    assert_eq!(out_here[0].size, 50);
    assert_eq!(out_there.len(), 1);
    assert_eq!(out_there[0].size, 1234);

    assert!(!here.ready(&alice));
    let here = here.deliver(&out_here, share_all(&out_there)).ok().unwrap();
    assert_eq!(here.state(), RoundState::OpsExchanged);
    assert!(here.regions().is_none());
    assert!(here.ready(&alice));

    // nothing has changed at the peer so far
    assert_eq!(count(&alice), 2);

    let here = here.finish(&mut alice).ok().unwrap();
    assert_eq!(here.state(), RoundState::Done);
    assert_eq!(count(&alice), 3);
    let stats = here.stats().unwrap();
    assert_eq!(stats.op_data_sent, 50);
    assert_eq!(stats.op_data_rcvd, 1234);
    assert_eq!(stats.total_sent(), 226);
    assert_eq!(stats.total_rcvd(), 1410);
}

#[test]
fn a_round_over_nothing_in_common() {
    let topo = identity();
    let mut alice = TestNode::new(topo, Arq::new(0, 6, 4));
    let mut bobbo = TestNode::new(topo, Arq::new(1000, 6, 4));
    alice.integrate_op(Op::new(OpData::fake(0, 10, 4321)));
    bobbo.integrate_op(Op::new(OpData::fake(1000, 10, 1)));
    let here = agreed(&alice, &bobbo, 100);
    let there = agreed(&bobbo, &alice, 100);
    let mine = here.digest(&alice).ok().unwrap();
    let theirs = there.digest(&bobbo).ok().unwrap();
    assert_eq!(mine.count(), 0);
    assert_eq!(theirs.count(), 0);
    let here = here.exchange(mine, theirs).ok().unwrap().diff().ok().unwrap();
    assert!(here.regions().unwrap().is_empty());
    let out = here.outgoing(&alice).ok().unwrap();
    assert!(out.is_empty());
    let here = here.deliver(&out, Vec::new()).ok().unwrap().finish(&mut alice).ok().unwrap();
    let stats = here.stats().unwrap();
    assert_eq!(stats.total_sent(), 0);
    assert_eq!(stats.total_rcvd(), 0);
    assert_eq!(count(&alice), 1);
}

#[test]
fn steps_out_of_turn_are_refused() {
    let (mut alice, bobbo) = pair();
    let topo = alice.topo();
    let now = Timestamp::from_micros(100);
    let digest = agreed(&alice, &bobbo, 100).digest(&alice).ok().unwrap();

    let idle = || Round::new(topo, now);
    assert_eq!(idle().digest(&alice).err(), Some(RoundError::WrongState));
    assert_eq!(idle().exchange(digest.duplicate(), digest.duplicate()).err(), Some(RoundError::WrongState));
    assert_eq!(idle().diff().err(), Some(RoundError::WrongState));
    assert_eq!(idle().outgoing(&alice).err(), Some(RoundError::WrongState));
    assert_eq!(idle().deliver(&Vec::new(), Vec::new()).err(), Some(RoundError::WrongState));
    assert_eq!(idle().finish(&mut alice).err(), Some(RoundError::WrongState));
    assert!(!idle().ready(&alice));

    let common = agreed(&alice, &bobbo, 100);
    assert_eq!(common.outgoing(&alice).err(), Some(RoundError::WrongState));
    assert_eq!(common.agree(&alice.arq_set(), &bobbo.arq_set()).err(), Some(RoundError::WrongState));
    assert_eq!(agreed(&alice, &bobbo, 100).diff().err(), Some(RoundError::WrongState));

    let exchanged = agreed(&alice, &bobbo, 100).exchange(digest.duplicate(), digest.duplicate()).ok().unwrap();
    assert_eq!(exchanged.digest(&alice).err(), Some(RoundError::WrongState));
    assert_eq!(exchanged.finish(&mut alice).err(), Some(RoundError::WrongState));
    assert_eq!(count(&alice), 2);
}

#[test]
fn a_store_of_another_topology_is_refused() {
    let (alice, bobbo) = pair();
    let mut carol = TestNode::new(Topology::standard(Timestamp::from_micros(0)), Arq::new(0, 6, 4));
    let common = agreed(&alice, &bobbo, 100);
    assert_eq!(common.digest(&carol).err(), Some(RoundError::TopologyMismatch));
    let digest = common.digest(&alice).ok().unwrap();
    let diffed = common.exchange(digest.duplicate(), digest).ok().unwrap().diff().ok().unwrap();
    assert_eq!(diffed.outgoing(&carol).err(), Some(RoundError::TopologyMismatch));
    let delivered = diffed.deliver(&Vec::new(), vec![Op::new(OpData::fake(1, 1, 1))]).ok().unwrap();
    assert!(!delivered.ready(&carol));
    assert_eq!(delivered.finish(&mut carol).err(), Some(RoundError::TopologyMismatch));
    assert_eq!(count(&carol), 0);
}

#[test]
fn digests_of_other_rounds_are_refused() {
    let (alice, bobbo) = pair();
    let topo = alice.topo();
    let mine = agreed(&alice, &bobbo, 100).digest(&alice).ok().unwrap();
    let later = agreed(&alice, &bobbo, 101).digest(&bobbo).ok().unwrap();
    let wider = agreed(&bobbo, &bobbo, 100).digest(&bobbo).ok().unwrap();
    assert!(!mine.comparable(&later, &topo));
    assert!(!mine.comparable(&wider, &topo));
    assert!(mine.comparable(&mine.duplicate(), &topo));
    assert_eq!(
        agreed(&alice, &bobbo, 100).exchange(mine.duplicate(), later.duplicate()).err(),
        Some(RoundError::Incomparable)
    );
    assert_eq!(
        agreed(&alice, &bobbo, 100).exchange(wider.duplicate(), mine.duplicate()).err(),
        Some(RoundError::Incomparable)
    );
    // both digests agree with each other, but not with the round
    assert_eq!(
        agreed(&alice, &bobbo, 100).exchange(later.duplicate(), later).err(),
        Some(RoundError::Incomparable)
    );
    assert!(agreed(&alice, &bobbo, 100).exchange(mine.duplicate(), mine.duplicate()).is_ok());
    // a digest does not fit another topology
    let coarse = Topology::new(1, 50, Timestamp::from_micros(0)).unwrap();
    assert!(!mine.comparable(&mine.duplicate(), &coarse));
}

#[test]
fn counters_that_would_overflow_refuse_the_step() {
    let (alice, bobbo) = pair();
    let digest = agreed(&alice, &bobbo, 100).digest(&alice).ok().unwrap();
    let diffed = || agreed(&alice, &bobbo, 100).exchange(digest.duplicate(), digest.duplicate()).ok().unwrap().diff().ok().unwrap();
    let big = vec![Op::new(OpData::fake(1, 1, 4294967295))];
    // 176 bytes of digest and 2^32 - 1 bytes of operations
    assert_eq!(diffed().deliver(&big, Vec::new()).err(), Some(RoundError::Overflow));
    assert_eq!(diffed().deliver(&Vec::new(), share_all(&big)).err(), Some(RoundError::Overflow));
    let fitting = vec![Op::new(OpData::fake(1, 1, 4294967295 - 176))];
    let done = diffed().deliver(&fitting, share_all(&fitting)).ok().unwrap();
    let stats = done.stats().unwrap();
    assert_eq!(stats.total_sent(), 4294967295);
    assert_eq!(stats.total_rcvd(), 4294967295);
    let one_more = vec![Op::new(OpData::fake(1, 1, 4294967295 - 176)), Op::new(OpData::fake(1, 1, 1))];
    assert_eq!(diffed().deliver(&one_more, Vec::new()).err(), Some(RoundError::Overflow));
}

#[test]
fn sums_of_sizes() {
    let ops = vec![
        Op::new(OpData::fake(1, 1, 4000000000)),
        Op::new(OpData::fake(1, 1, 294967295)),
    ];
    assert_eq!(sum_sizes(&ops, 0), Some(4294967295));
    assert_eq!(sum_sizes(&ops, 1), None);
    assert_eq!(sum_sizes(&Vec::new(), 7), Some(7));
    assert_eq!(sum_sizes(&Vec::new(), 4294967295), Some(4294967295));
    assert_eq!(sum_sizes(&ops[..1].to_vec(), 294967295), Some(4294967295));
    assert_eq!(sum_sizes(&ops[..1].to_vec(), 294967296), None);
}

#[test]
fn fetching_and_integrating() {
    let (alice, mut bobbo) = pair();
    let whole = Region {
        coords: RegionCoords {
            space: Segment { power: 32, start: 0 },
            time: Segment { power: 32, start: 0 },
        },
        data: RegionData::zero(),
    };
    let early = Region {
        coords: RegionCoords {
            space: Segment { power: 8, start: 0 },
            time: Segment { power: 3, start: 8 },
        },
        data: RegionData::zero(),
    };
    let ops = fetch_ops(&alice, &vec![early, whole]);
    let sizes: Vec<u32> = ops.iter().map(|op: &Op| op.size).collect();
    // [0, 255] x [8, 15] holds both; then everything again
    assert_eq!(sizes, vec![4321, 50, 4321, 50]);
    assert_eq!(sum_sizes(&ops, 0), Some(8742));
    let copies = share_all(&ops);
    assert_eq!(copies.len(), 4);
    assert_eq!(copies[1].hash, ops[1].hash);
    assert!(has_room(&bobbo, 4));
    assert!(has_room(&bobbo, 4294967294));
    assert!(!has_room(&bobbo, 4294967295));
    integrate_ops(&mut bobbo, &copies);
    assert_eq!(count(&bobbo), 5);
    assert!(has_room(&bobbo, 4294967290));
    assert!(!has_room(&bobbo, 4294967291));
}

#[test]
fn digest_of_a_store() {
    let (alice, _) = pair();
    let set = region_set_of(&alice, alice.arq_set(), Timestamp::from_micros(11));
    // four space segments of 64; [0, 11] is cut into [0, 7], [8, 11]
    assert_eq!(set.count(), 8);
    let dht_gossip::region::RegionSet::Xtcs(xtcs) = set;
    let rows: Vec<Vec<(u32, u64)>> = xtcs.data.iter().map(|row| row.iter().map(|d| (d.count, d.size)).collect()).collect();
    assert_eq!(
        rows,
        vec![
            vec![(0, 0), (1, 4321)],
            vec![(0, 0), (0, 0)],
            vec![(0, 0), (1, 50)],
            vec![(0, 0), (0, 0)],
        ]
    );
}
