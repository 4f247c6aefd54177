//! The wire codec and the compressed send/receive paths.

use sabi::codec::{
    decode_input_message, decode_update_message, encode_input_message, encode_update_message,
};
use sabi::input::{ClientInputMessage, QueuedInputs};
use sabi::interest::ReplicateSizeEstimates;
use sabi::pipeline::{
    client_build_input_message, decompress_input_message, decompress_update_message,
    plan_component_apply, server_build_outgoing, server_queue_component, ApplyAction,
};
use sabi::pipeline::ReceiveError;
use sabi::tick::NetworkTick;
use sabi::update::{ClientEntityUpdates, EntityUpdate, UpdateMessage};

fn le64(x: u64) -> Vec<u8> {
    x.to_le_bytes().to_vec()
}

#[test]
fn update_message_wire_layout_is_exact() {
    let mut eu = EntityUpdate::new();
    eu.insert_component(9, 3, vec![0xAA, 0xBB]);
    let msg = UpdateMessage::new(NetworkTick::new(7), eu);
    let bytes = encode_update_message(&msg);

    let mut expected = Vec::new();
    expected.extend_from_slice(&le64(7)); // tick
    expected.extend_from_slice(&le64(1)); // one entity
    expected.extend_from_slice(&le64(9)); // server entity
    expected.extend_from_slice(&le64(1)); // one component
    expected.extend_from_slice(&le64(3)); // replicate id
    expected.extend_from_slice(&le64(2)); // blob length
    expected.extend_from_slice(&[0xAA, 0xBB]);
    assert_eq!(bytes, expected);
}

#[test]
fn update_message_round_trip() {
    let mut eu = EntityUpdate::new();
    eu.insert_component(2, 1, b"north".to_vec());
    eu.insert_component(2, 5, b"east".to_vec());
    eu.insert_component(30, 1, b"south".to_vec());
    let msg = UpdateMessage::new(NetworkTick::new(99), eu);

    let bytes = encode_update_message(&msg);
    let decoded = decode_update_message(&bytes).expect("canonical bytes decode");
    assert_eq!(decoded.tick.tick(), 99);
    let e2 = decoded.entity_update.get(2).unwrap();
    assert_eq!(e2.get(1).unwrap().as_slice(), b"north");
    assert_eq!(e2.get(5).unwrap().as_slice(), b"east");
    let e30 = decoded.entity_update.get(30).unwrap();
    assert_eq!(e30.get(1).unwrap().as_slice(), b"south");
    // Re-encoding reproduces the input byte for byte.
    assert_eq!(encode_update_message(&decoded), bytes);
}

#[test]
fn decoder_rejects_trailing_and_unsorted_bytes() {
    let mut eu = EntityUpdate::new();
    eu.insert_component(1, 1, vec![1]);
    let msg = UpdateMessage::new(NetworkTick::new(1), eu);
    let mut bytes = encode_update_message(&msg);

    let mut trailing = bytes.clone();
    trailing.push(0);
    assert!(decode_update_message(&trailing).is_none());

    bytes.pop();
    assert!(decode_update_message(&bytes).is_none(), "truncated");

    // Two entities out of order: 5 then 4.
    let mut raw = Vec::new();
    raw.extend_from_slice(&le64(1)); // tick
    raw.extend_from_slice(&le64(2)); // two entities
    for entity in [5u64, 4u64] {
        raw.extend_from_slice(&le64(entity));
        raw.extend_from_slice(&le64(0)); // no components
    }
    assert!(decode_update_message(&raw).is_none());
}

#[test]
fn merge_order_yields_identical_bytes() {
    // Two same-tick updates that agree on their overlap merge to byte
    // identical messages in either order.
    let mut m1 = EntityUpdate::new();
    m1.insert_component(1, 1, b"shared".to_vec());
    m1.insert_component(1, 2, b"left".to_vec());
    let mut m2 = EntityUpdate::new();
    m2.insert_component(1, 1, b"shared".to_vec());
    m2.insert_component(2, 9, b"right".to_vec());

    let mut ab = m1.duplicate();
    ab.apply(m2.duplicate());
    let mut ba = m2.duplicate();
    ba.apply(m1.duplicate());

    let t = NetworkTick::new(42);
    let bytes_ab = encode_update_message(&UpdateMessage::new(t, ab));
    let bytes_ba = encode_update_message(&UpdateMessage::new(t, ba));
    assert_eq!(bytes_ab, bytes_ba);
}

#[test]
fn input_message_round_trip() {
    let mut window: QueuedInputs<Vec<u8>> = QueuedInputs::new();
    window.insert_bytes(3, b"jump".to_vec());
    window.insert_bytes(4, b"duck".to_vec());
    let msg = ClientInputMessage::new(NetworkTick::new(4), window);
    let bytes = encode_input_message(&msg);
    let decoded = decode_input_message(&bytes).expect("canonical bytes decode");
    assert_eq!(decoded.tick.tick(), 4);
    assert_eq!(decoded.ack.base(), 4);
    assert_eq!(decoded.ack.bitmap(), 0);
    assert_eq!(
        decoded.inputs.get(&NetworkTick::new(3)).unwrap().as_slice(),
        b"jump"
    );
    assert_eq!(encode_input_message(&decoded), bytes);
}

#[test]
fn compressed_update_round_trip() {
    let dict = b"update-dictionary-sample".to_vec();
    let mut estimates = ReplicateSizeEstimates::new();
    let mut outbox = ClientEntityUpdates::new();
    server_queue_component(&mut estimates, &mut outbox, 12, 70, 1, b"payload".to_vec());
    assert_eq!(estimates.estimate(1), 7);

    let outgoing = server_build_outgoing(NetworkTick::new(8), &outbox, &dict).expect("compresses");
    assert_eq!(outgoing.len(), 1);
    let (client, payload) = &outgoing[0];
    assert_eq!(*client, 12);

    let msg = decompress_update_message(&dict, payload).expect("round trip");
    assert_eq!(msg.tick.tick(), 8);
    let components = msg.entity_update.get(70).unwrap();
    assert_eq!(components.get(1).unwrap().as_slice(), b"payload");
}

#[test]
fn compressed_input_round_trip() {
    let mut window: QueuedInputs<Vec<u8>> = QueuedInputs::new();
    window.insert_bytes(21, vec![1, 2, 3]);
    let payload = client_build_input_message(NetworkTick::new(21), window).expect("compresses");
    let msg = decompress_input_message(&payload).expect("round trip");
    assert_eq!(msg.tick.tick(), 21);
    assert_eq!(
        msg.inputs.get(&NetworkTick::new(21)).unwrap().as_slice(),
        &[1, 2, 3]
    );
}

#[test]
fn receive_errors_are_told_apart() {
    let dict = b"update-dictionary-sample".to_vec();
    // Bytes that are no zstd frame at all.
    let garbage = vec![0u8, 1, 2, 3, 4, 5, 6, 7];
    match decompress_update_message(&dict, &garbage) {
        Err(e) => assert_eq!(e, ReceiveError::Decompress),
        Ok(_) => panic!("garbage must not decode"),
    }

    // A valid frame whose contents are not a canonical message.
    let not_a_message = zstd::bulk::compress(b"not a message", 0).unwrap();
    match decompress_update_message(&Vec::new(), &not_a_message) {
        Err(e) => assert_eq!(e, ReceiveError::Decode),
        Ok(_) => panic!("junk payload must not decode"),
    }
    match decompress_input_message(&not_a_message) {
        Err(e) => assert_eq!(e, ReceiveError::Decode),
        Ok(_) => panic!("junk payload must not decode"),
    }
}

#[test]
fn apply_plan_is_idempotent() {
    let mut eu = EntityUpdate::new();
    eu.insert_component(1, 4, b"pose".to_vec());
    let components = eu.get(1).unwrap();

    let same = b"pose".to_vec();
    let stale = b"old-pose".to_vec();
    assert_eq!(
        plan_component_apply(components, 4, true, Some(&same)),
        Some(ApplyAction::Skip)
    );
    assert_eq!(
        plan_component_apply(components, 4, true, Some(&stale)),
        Some(ApplyAction::Update)
    );
    assert_eq!(
        plan_component_apply(components, 4, true, None),
        Some(ApplyAction::Insert)
    );
    assert_eq!(
        plan_component_apply(components, 4, false, None),
        Some(ApplyAction::Missing)
    );
    assert_eq!(plan_component_apply(components, 99, true, None), None);
}
