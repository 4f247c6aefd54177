//! End-to-end scenarios of the replication protocol.

use sabi::identity::{LocalWorld, ServerEntities};
use sabi::input::QueuedInputs;
use sabi::interest::{PriorityAccumulator, ReplicateRegistry, ReplicateSizeEstimates};
use sabi::pipeline::{client_receive_update, plan_component_apply, ApplyAction};
use sabi::tick::{NetworkTick, RateAdjust};
use sabi::update::{ComponentsUpdate, EntityUpdate, UpdateMessage, UpdateMessages};

const C_TRANSFORM: u64 = 7;
const E1: u64 = 401;

fn message(tick: u64, entity: u64, id: u64, bytes: &[u8]) -> UpdateMessage {
    let mut eu = EntityUpdate::new();
    eu.insert_component(entity, id, bytes.to_vec());
    UpdateMessage::new(NetworkTick::new(tick), eu)
}

#[test]
fn spawn_on_first_sight() {
    let mut tick = NetworkTick::new(10);
    let mut store = UpdateMessages::new();
    let mut entities = ServerEntities::new();
    let mut world = LocalWorld::new();
    let mut rewind = None;

    let msg = message(10, E1, C_TRANSFORM, &[0, 0, 0]);
    client_receive_update(
        &mut tick,
        &mut store,
        &mut entities,
        &mut world,
        &mut rewind,
        msg,
    );

    // The identity map now holds E1 against a live local entity.
    let local = entities.get(&world, E1).expect("E1 must be mapped");
    assert!(world.contains(local));

    // The apply stage for tick 10 decodes the stored component.
    let stored = store.get(&NetworkTick::new(10)).expect("snapshot at 10");
    let components = stored.entity_update.get(E1).expect("components for E1");
    assert_eq!(components.get(C_TRANSFORM).unwrap().as_slice(), &[0, 0, 0]);

    // A live entity without the component gets an insert.
    let action = plan_component_apply(components, C_TRANSFORM, true, None);
    assert_eq!(action, Some(ApplyAction::Insert));
}

#[test]
fn merge_at_same_tick() {
    const C_A: u64 = 1;
    const C_B: u64 = 2;
    let mut store = UpdateMessages::new();
    store.push(message(42, E1, C_A, b"alpha"));
    store.push(message(42, E1, C_B, b"beta"));

    let stored = store.get(&NetworkTick::new(42)).expect("snapshot at 42");
    let components = stored.entity_update.get(E1).expect("components for E1");
    assert_eq!(components.len(), 2);
    assert_eq!(components.get(C_A).unwrap().as_slice(), b"alpha");
    assert_eq!(components.get(C_B).unwrap().as_slice(), b"beta");
}

#[test]
fn rewind_on_late_message() {
    let mut tick = NetworkTick::new(20);
    let mut store = UpdateMessages::new();
    let mut entities = ServerEntities::new();
    let mut world = LocalWorld::new();
    let mut rewind = None;

    client_receive_update(
        &mut tick,
        &mut store,
        &mut entities,
        &mut world,
        &mut rewind,
        message(17, E1, C_TRANSFORM, b"x"),
    );

    // Rewind(17) is emitted and the clock does not jump: the client
    // replays 17..=20 from its stores and returns to tick 20.
    assert_eq!(rewind.map(|t| t.tick()), Some(17));
    assert_eq!(tick.tick(), 20);
    assert!(store.get(&NetworkTick::new(17)).is_some());
}

#[test]
fn clock_hard_jump() {
    let mut tick = NetworkTick::new(5);
    let mut store = UpdateMessages::new();
    let mut entities = ServerEntities::new();
    let mut world = LocalWorld::new();
    let mut rewind = None;

    let adjust = client_receive_update(
        &mut tick,
        &mut store,
        &mut entities,
        &mut world,
        &mut rewind,
        message(100, E1, C_TRANSFORM, b"x"),
    );

    assert_eq!(tick.tick(), 106);
    assert_eq!(adjust, RateAdjust::Decelerate);
}

#[test]
fn input_window_retention() {
    let mut inputs: QueuedInputs<u8> = QueuedInputs::new();
    for t in 10..=15u64 {
        inputs.push(NetworkTick::new(t), t as u8);
    }
    // Newest is 15; every tick from 10 on is within the window.
    for t in 10..=15u64 {
        assert!(inputs.get(&NetworkTick::new(t)).is_some(), "tick {t} kept");
    }
    // A new input at 16 evicts tick 10: distance 6 is not strictly
    // under the retention buffer.
    inputs.push(NetworkTick::new(16), 16);
    assert!(inputs.get(&NetworkTick::new(10)).is_none());
    for t in 11..=16u64 {
        assert!(inputs.get(&NetworkTick::new(t)).is_some(), "tick {t} kept");
    }
}

#[test]
fn dependency_closure_pulls_rigid_body() {
    const RIGID_BODY: u64 = 1;
    const COLLIDER: u64 = 2;
    let mut registry = ReplicateRegistry::new();
    registry.register(RIGID_BODY, 5);
    registry.register(COLLIDER, 5);
    registry.require_dependency(COLLIDER, RIGID_BODY);

    let mut priorities = PriorityAccumulator::new();
    let estimates = ReplicateSizeEstimates::new();
    // The interest set carries only (E1, Collider).
    let interest = vec![(E1, COLLIDER)];
    let sent = select_all(&registry, &mut priorities, &estimates, &interest);

    assert!(sent.contains(&(E1, COLLIDER)));
    assert!(sent.contains(&(E1, RIGID_BODY)), "closure must add the rigid body");
}

fn select_all(
    registry: &ReplicateRegistry,
    priorities: &mut PriorityAccumulator,
    estimates: &ReplicateSizeEstimates,
    interest: &Vec<(u64, u64)>,
) -> Vec<(u64, u64)> {
    sabi::interest::select_interests(registry, priorities, estimates, interest, 1024)
}
