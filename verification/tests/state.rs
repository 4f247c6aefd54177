//! The tick, the stores, the identity map and the input queues, piece by
//! piece.

use sabi::identity::{LocalWorld, ServerEntities};
use sabi::input::{PerClientQueuedInputs, QueuedInputs};
use sabi::interest::{
    select_interests, PriorityAccumulator, ReplicateRegistry, ReplicateSizeEstimates,
};
use sabi::tick::{correct_clock, NetworkAck, NetworkTick, RateAdjust};
use sabi::update::{ComponentsUpdate, EntityUpdate, UpdateMessage, UpdateMessages};

#[test]
fn tick_increment_and_ack_bitmap() {
    let mut t = NetworkTick::new(41);
    t.increment();
    assert_eq!(t.tick(), 42);

    let mut ack = NetworkAck::new(t);
    assert_eq!(ack.base(), 42);
    assert_eq!(ack.bitmap(), 0);
    ack.set_ack(0);
    ack.set_ack(5);
    assert!(ack.is_acked(0));
    assert!(ack.is_acked(5));
    assert!(!ack.is_acked(1));
}

#[test]
fn clock_correction_rates() {
    // Exactly FRAME_BUFFER ahead: nominal.
    let c = correct_clock(NetworkTick::new(16), NetworkTick::new(10));
    assert_eq!(c.adjust, RateAdjust::Nominal);
    assert_eq!(c.tick.tick(), 16);
    // Further ahead: accelerate.
    let c = correct_clock(NetworkTick::new(20), NetworkTick::new(10));
    assert_eq!(c.adjust, RateAdjust::Accelerate);
    // Closer than the buffer: decelerate.
    let c = correct_clock(NetworkTick::new(12), NetworkTick::new(10));
    assert_eq!(c.adjust, RateAdjust::Decelerate);
    // Behind the server: hard jump.
    let c = correct_clock(NetworkTick::new(9), NetworkTick::new(10));
    assert_eq!(c.tick.tick(), 16);
}

#[test]
fn components_update_last_writer_wins() {
    let mut a = ComponentsUpdate::new();
    a.insert(1, b"one".to_vec());
    a.insert(2, b"two".to_vec());
    let mut b = ComponentsUpdate::new();
    b.insert(2, b"TWO".to_vec());
    b.insert(3, b"three".to_vec());
    a.apply(b);
    assert_eq!(a.len(), 3);
    assert_eq!(a.get(1).unwrap().as_slice(), b"one");
    assert_eq!(a.get(2).unwrap().as_slice(), b"TWO");
    assert_eq!(a.get(3).unwrap().as_slice(), b"three");
}

#[test]
fn entity_update_merges_per_entity() {
    let mut a = EntityUpdate::new();
    a.insert_component(10, 1, b"a1".to_vec());
    a.insert_component(11, 1, b"b1".to_vec());
    let mut b = EntityUpdate::new();
    b.insert_component(10, 2, b"a2".to_vec());
    b.insert_component(12, 1, b"c1".to_vec());
    a.apply(b);
    assert_eq!(a.len(), 3);
    let e10 = a.get(10).unwrap();
    assert_eq!(e10.get(1).unwrap().as_slice(), b"a1");
    assert_eq!(e10.get(2).unwrap().as_slice(), b"a2");
    assert!(a.get(12).unwrap().get(1).is_some());
}

#[test]
fn snapshot_store_retention_window() {
    let mut store = UpdateMessages::new();
    let mut eu = EntityUpdate::new();
    eu.insert_component(1, 1, vec![1]);
    store.push(UpdateMessage::new(NetworkTick::new(0), eu));
    let mut eu = EntityUpdate::new();
    eu.insert_component(1, 1, vec![2]);
    store.push(UpdateMessage::new(NetworkTick::new(16), eu));
    assert_eq!(store.latest().map(|t| t.tick()), Some(16));

    // 16 - 0 equals the retention buffer, which is not strictly inside
    // the window: tick 0 is evicted, tick 16 stays.
    store.retain();
    assert!(store.get(&NetworkTick::new(0)).is_none());
    assert!(store.get(&NetworkTick::new(16)).is_some());
}

#[test]
fn snapshot_push_does_not_touch_other_ticks() {
    let mut store = UpdateMessages::new();
    let mut eu = EntityUpdate::new();
    eu.insert_component(1, 1, b"old".to_vec());
    store.push(UpdateMessage::new(NetworkTick::new(5), eu));

    let mut eu = EntityUpdate::new();
    eu.insert_component(1, 1, b"new".to_vec());
    store.push(UpdateMessage::new(NetworkTick::new(6), eu));

    let at5 = store.get(&NetworkTick::new(5)).unwrap();
    assert_eq!(at5.entity_update.get(1).unwrap().get(1).unwrap().as_slice(), b"old");
}

#[test]
fn identity_map_lifecycle() {
    let mut world = LocalWorld::new();
    let mut map = ServerEntities::new();

    let l1 = map.spawn_or_get(&mut world, 100);
    let l1_again = map.spawn_or_get(&mut world, 100);
    assert_eq!(l1, l1_again);
    let l2 = map.spawn_or_get(&mut world, 200);
    assert_ne!(l1, l2);

    // A despawned local entity drops out of reads and is pruned.
    world.despawn(l1);
    assert!(map.get(&world, 100).is_none());
    assert_eq!(map.get(&world, 200), Some(l2));
    assert!(map.clean(&world));
    assert!(!map.clean(&world), "second clean finds nothing to prune");

    // Disconnect despawns what is left and empties the map.
    map.disconnect(&mut world);
    assert!(!world.contains(l2));
    assert!(map.get(&world, 200).is_none());
}

#[test]
fn upsert_is_idempotent_and_reject_guards_old_ticks() {
    let mut q: QueuedInputs<u8> = QueuedInputs::new();
    q.upsert(NetworkTick::new(9), 7);
    q.upsert(NetworkTick::new(9), 7);
    assert_eq!(q.len(), 1);
    assert_eq!(q.get(&NetworkTick::new(9)), Some(&7));

    q.upsert_reject(NetworkTick::new(10), NetworkTick::new(9), 8);
    assert_eq!(q.get(&NetworkTick::new(9)), Some(&7), "older tick refused");
    q.upsert_reject(NetworkTick::new(10), NetworkTick::new(11), 8);
    assert_eq!(q.get(&NetworkTick::new(11)), Some(&8));
}

#[test]
fn per_client_inputs_merge_and_clean() {
    let mut per: PerClientQueuedInputs<u8> = PerClientQueuedInputs::new();
    let mut w1: QueuedInputs<u8> = QueuedInputs::new();
    w1.upsert(NetworkTick::new(4), 1);
    w1.upsert(NetworkTick::new(5), 2);
    per.upsert(9, w1);

    let mut w2: QueuedInputs<u8> = QueuedInputs::new();
    w2.upsert(NetworkTick::new(5), 20);
    w2.upsert(NetworkTick::new(6), 30);
    per.upsert(9, w2);

    assert_eq!(per.get(9, &NetworkTick::new(4)), Some(&1));
    assert_eq!(per.get(9, &NetworkTick::new(5)), Some(&20), "retransmit wins");
    assert_eq!(per.get(9, &NetworkTick::new(6)), Some(&30));

    // Evict everything before the server's current tick.
    per.clean_old(NetworkTick::new(5));
    assert_eq!(per.get(9, &NetworkTick::new(4)), None);
    assert_eq!(per.get(9, &NetworkTick::new(5)), Some(&20));
}

#[test]
fn size_estimates_are_rolling_means() {
    let mut est = ReplicateSizeEstimates::new();
    assert_eq!(est.estimate(1), 0);
    est.add(1, 4);
    est.add(1, 6);
    assert_eq!(est.estimate(1), 5);
    est.add(1, 8);
    assert_eq!(est.estimate(1), 6);
}

#[test]
fn budget_prefers_higher_priority() {
    let mut registry = ReplicateRegistry::new();
    registry.register(1, 10);
    registry.register(2, 1);
    let mut priorities = PriorityAccumulator::new();
    let mut estimates = ReplicateSizeEstimates::new();
    // Both component types cost about 8 bytes.
    estimates.add(1, 8);
    estimates.add(2, 8);

    // A budget of 8 takes only the fastest-rising pair.
    let interest = vec![(50u64, 1u64), (50u64, 2u64)];
    let sent = select_interests(&registry, &mut priorities, &estimates, &interest, 8);
    assert_eq!(sent, vec![(50, 1)]);

    // The pair left behind kept its priority and outgrows the winner,
    // so it is sent on a later tick: nothing starves.
    assert_eq!(priorities.priority_of(50, 1), 0);
    assert_eq!(priorities.priority_of(50, 2), 1);
    let mut slow_pair_sent = false;
    for _ in 0..12 {
        let sent = select_interests(&registry, &mut priorities, &estimates, &interest, 8);
        if sent.contains(&(50, 2)) {
            slow_pair_sent = true;
        }
    }
    assert!(slow_pair_sent);
}
