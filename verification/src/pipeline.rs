//! The update and input pipelines around the wire codec: compress and
//! send on the server, receive, correct the clock, track the rewind
//! target, spawn on first sight and store on the client; and the byte
//! paths of the input window in both directions.

use vstd::prelude::*;

verus! {

use crate::codec::{
    decode_input_message,
    decode_update_message,
    encode_input_message,
    encode_update_message,
    input_message_run,
    spec_encode_input_message,
    spec_encode_update_message,
    update_message_run,
};
use crate::ordmap::entries_to_map;
use crate::identity::{injective, LocalWorld, ServerEntities};
use crate::input::{ClientInputMessage, QueuedInputs};
use crate::interest::ReplicateSizeEstimates;
use crate::tick::{correct_clock, spec_corrected_tick, spec_rate_adjust, NetworkTick, RateAdjust};
use crate::update::{
    merge_entities,
    spec_outbox_with,
    ClientEntityUpdates,
    ComponentsUpdate,
    UpdateMessage,
    UpdateMessages,
};
use crate::FRAME_BUFFER;

/// The upper bound on a decompressed message, in bytes.
pub const MAX_MESSAGE_BYTES: usize = 10240;

/// The bytes that zstd block compression produces for an input under a
/// dictionary, at the default level: a function of the dictionary and
/// the input alone. The plain (dictionary-less) path is the empty
/// dictionary, exactly as `zstd::bulk::compress` constructs it.
pub uninterp spec fn zstd_compressed(dict: Seq<u8>, data: Seq<u8>) -> Seq<u8>;

/// The bytes that zstd block decompression recovers from a compressed
/// input under a dictionary: a function of the dictionary and the input
/// alone, independent of the capacity bound the caller passes.
pub uninterp spec fn zstd_decompressed(dict: Seq<u8>, data: Seq<u8>) -> Seq<u8>;

/// Relies on zstd::bulk::Compressor::with_dictionary and
/// Compressor::compress: single-block compression at the default level,
/// deterministic in the dictionary and the input.
#[verifier::external_body]
fn compress_with_dictionary(dict: &Vec<u8>, data: &Vec<u8>) -> (r: Option<Vec<u8>>)
    ensures
        r matches Some(v) ==> v@ == zstd_compressed(dict@, data@),
{
    let mut compressor = match zstd::bulk::Compressor::with_dictionary(0, dict.as_slice()) {
        Ok(c) => c,
        Err(_) => {
            return None;
        },
    };
    compressor.compress(data.as_slice()).ok()
}

/// Relies on zstd::bulk::Decompressor::with_dictionary and
/// Decompressor::decompress: single-block decompression inverts
/// compression under the same dictionary, provided the original fits the
/// given capacity; the result never exceeds the capacity.
#[verifier::external_body]
fn decompress_with_dictionary(dict: &Vec<u8>, data: &Vec<u8>, capacity: usize) -> (r: Option<
    Vec<u8>,
>)
    ensures
        r matches Some(v) ==> v@ == zstd_decompressed(dict@, data@) && v@.len() <= capacity,
        r is None ==> forall|orig: Seq<u8>|
            data@ == zstd_compressed(dict@, orig) ==> orig.len() > capacity,
        r matches Some(v) ==> forall|orig: Seq<u8>|
            data@ == zstd_compressed(dict@, orig) && orig.len() <= capacity ==> v@ == orig,
{
    let mut decompressor = match zstd::bulk::Decompressor::with_dictionary(dict.as_slice()) {
        Ok(d) => d,
        Err(_) => {
            return None;
        },
    };
    decompressor.decompress(data.as_slice(), capacity).ok()
}

/// Why an incoming message was dropped; both are fatal for the session.
#[derive(Clone, Copy, Debug, PartialEq, Eq, Structural)]
pub enum ReceiveError {
    /// The payload did not decompress within the message bound.
    Decompress,
    /// The decompressed payload was not a canonical message encoding.
    Decode,
}

/// Decompress and decode one update message. Success means the payload
/// decompressed to exactly the canonical encoding of the returned
/// message; conversely, the compression of any canonical message within
/// the message bound is accepted and gives that message back.
pub fn decompress_update_message(dict: &Vec<u8>, raw: &Vec<u8>) -> (r: Result<
    UpdateMessage,
    ReceiveError,
>)
    ensures
        r matches Ok(m) ==> m.wf() && zstd_decompressed(dict@, raw@)
            == spec_encode_update_message(m.tick.spec_tick(), m@),
        forall|b: Seq<u8>, t: u64, s: Seq<(u64, Map<u64, Seq<u8>>)>|
            #![trigger zstd_compressed(dict@, b), update_message_run(b, t, s)]
            update_message_run(b, t, s) && raw@ == zstd_compressed(dict@, b) && b.len()
                <= MAX_MESSAGE_BYTES ==> (r matches Ok(m) && m.tick.spec_tick() == t && m@
                == entries_to_map(s)),
{
    let decompressed = match decompress_with_dictionary(dict, raw, MAX_MESSAGE_BYTES) {
        Some(d) => d,
        None => {
            return Err(ReceiveError::Decompress);
        },
    };
    match decode_update_message(&decompressed) {
        Some(m) => Ok(m),
        None => Err(ReceiveError::Decode),
    }
}

/// Fold one decoded update message into the client state: correct the
/// clock toward `message tick + FRAME_BUFFER`, lower the pending rewind
/// target to the message tick, spawn a local entity for every server
/// entity seen for the first time, and merge the message into the
/// snapshot store. Returns the rate adjustment the simulation should
/// apply.
pub fn client_receive_update(
    tick: &mut NetworkTick,
    store: &mut UpdateMessages,
    entities: &mut ServerEntities,
    world: &mut LocalWorld,
    rewind: &mut Option<NetworkTick>,
    message: UpdateMessage,
) -> (r: RateAdjust)
    requires
        message.wf(),
        old(store).wf(),
        old(entities).wf(),
        old(world).wf(),
        old(entities).consistent_with(*old(world)),
        injective(old(entities)@),
        message.tick.spec_tick() + FRAME_BUFFER <= u64::MAX,
        old(world).spec_next() + message.entity_update.pairs().len() <= u64::MAX,
    ensures
        final(store).wf(),
        final(entities).wf(),
        final(world).wf(),
        final(entities).consistent_with(*final(world)),
        injective(final(entities)@),
        // The clock correction rule, applied to this message.
        final(tick).spec_tick() == spec_corrected_tick(
            old(tick).spec_tick(),
            message.tick.spec_tick(),
        ),
        r == spec_rate_adjust(old(tick).spec_tick(), message.tick.spec_tick()),
        // The rewind target after this message is the least tick seen.
        (match (*old(rewind), *final(rewind)) {
            (None, Some(t)) => t.spec_tick() == message.tick.spec_tick(),
            (Some(p), Some(t)) => t.spec_tick() == (if message.tick.spec_tick() < p.spec_tick() {
                message.tick.spec_tick()
            } else {
                p.spec_tick()
            }),
            _ => false,
        }),
        // Every server entity named by the message has a local entity.
        forall|i: int|
            0 <= i < message.entity_update.pairs().len() ==> final(entities)@.contains_key(
                (#[trigger] message.entity_update.pairs()[i]).0,
            ),
        // Previously mapped entities keep their mapping.
        forall|s: u64| #[trigger]
            old(entities)@.contains_key(s) ==> final(entities)@.contains_key(s) && final(entities)@[s] == old(entities)@[s],
        // The store gains exactly this message, merged by tick.
        final(store)@.contains_key(message.tick.spec_tick()),
        forall|k: u64|
            k != message.tick.spec_tick() ==> ((#[trigger] final(store)@.contains_key(k)) <==> old(store)@.contains_key(k)),
        forall|k: u64|
            k != message.tick.spec_tick() && old(store)@.contains_key(k)
                ==> #[trigger] final(store)@[k] == old(store)@[k],
        old(store)@.contains_key(message.tick.spec_tick()) ==> final(store)@[message.tick.spec_tick()] == merge_entities(
            old(store)@[message.tick.spec_tick()],
            message@,
        ),
        !old(store)@.contains_key(message.tick.spec_tick()) ==> final(store)@[message.tick.spec_tick()] == message@,
{
    let correction = correct_clock(*tick, message.tick);
    *tick = correction.tick;
    let new_rewind = match rewind {
        Some(prev) => {
            if message.tick.tick() < prev.tick() {
                message.tick
            } else {
                *prev
            }
        },
        None => message.tick,
    };
    *rewind = Some(new_rewind);
    let n = message.entity_update.len();
    let mut i: usize = 0;
    while i < n
        invariant
            message.wf(),
            n == message.entity_update.pairs().len(),
            i <= n,
            entities.wf(),
            world.wf(),
            entities.consistent_with(*world),
            injective(entities@),
            world.spec_next() + (n - i) <= u64::MAX,
            forall|j: int|
                0 <= j < i ==> entities@.contains_key(
                    (#[trigger] message.entity_update.pairs()[j]).0,
                ),
            forall|s: u64| #[trigger]
                old(entities)@.contains_key(s) ==> entities@.contains_key(s) && entities@[s] == old(entities)@[s],
        decreases n - i,
    {
        let server_entity = message.entity_update.entity_at(i);
        entities.spawn_or_get(world, server_entity);
        i = i + 1;
    }
    store.push(message);
    correction.adjust
}

/// What the per-component apply stage should do with one decoded blob,
/// mirroring the idempotent apply rule: skip when the carried bytes equal
/// the component's current encoding, update in place when the component
/// exists, insert when the entity lacks it, and report a missing entity
/// mapping (a recoverable error: the spawn is in flight).
#[derive(Clone, Copy, Debug, PartialEq, Eq, Structural)]
pub enum ApplyAction {
    Skip,
    Update,
    Insert,
    Missing,
}

/// Decide the apply action for one component of one entity update.
/// `current` is the entity's present component, encoded, if the entity is
/// live and carries it; `entity_live` says whether the identity map gave
/// a live local entity.
pub fn plan_component_apply(
    components: &ComponentsUpdate,
    id: u64,
    entity_live: bool,
    current: Option<&Vec<u8>>,
) -> (r: Option<ApplyAction>)
    requires
        components.wf(),
    ensures
        r is Some <==> components@.contains_key(id),
        r matches Some(a) ==> a == (if !entity_live {
            ApplyAction::Missing
        } else {
            match current {
                Some(c) => if c@ == components@[id] {
                    ApplyAction::Skip
                } else {
                    ApplyAction::Update
                },
                None => ApplyAction::Insert,
            }
        }),
{
    let data = match components.get(id) {
        Some(d) => d,
        None => {
            return None;
        },
    };
    if !entity_live {
        return Some(ApplyAction::Missing);
    }
    match current {
        Some(c) => {
            if c.len() != data.len() {
                proof {
                    assert(c@ != data@);
                }
                return Some(ApplyAction::Update);
            }
            let mut k: usize = 0;
            while k < data.len() && c[k] == data[k]
                invariant
                    c@.len() == data@.len(),
                    k <= data@.len(),
                    forall|j: int| 0 <= j < k ==> c@[j] == data@[j],
                decreases data@.len() - k,
            {
                k = k + 1;
            }
            if k == data.len() {
                proof {
                    assert(c@ =~= data@);
                }
                Some(ApplyAction::Skip)
            } else {
                proof {
                    assert(c@[k as int] != data@[k as int]);
                    assert(c@ != data@);
                }
                Some(ApplyAction::Update)
            }
        },
        None => Some(ApplyAction::Insert),
    }
}

/// Record one encoded component for one client's outgoing update and
/// feed its size into the rolling estimates.
pub fn server_queue_component(
    estimates: &mut ReplicateSizeEstimates,
    outbox: &mut ClientEntityUpdates,
    client: u64,
    entity: u64,
    id: u64,
    bytes: Vec<u8>,
)
    requires
        old(estimates).wf(),
        old(outbox).wf(),
        bytes@.len() <= u64::MAX,
    ensures
        final(estimates).wf(),
        final(outbox).wf(),
        final(outbox)@ == old(outbox)@.insert(
            client,
            spec_outbox_with(old(outbox)@, client, entity, id, bytes@),
        ),
        ({
            let prev = if old(estimates).spec_counts().contains_key(id) {
                old(estimates).spec_counts()[id]
            } else {
                (0u64, 0u64)
            };
            let count = if prev.0 == u64::MAX {
                u64::MAX
            } else {
                (prev.0 + 1) as u64
            };
            let total = if prev.1 > u64::MAX - bytes@.len() as u64 {
                u64::MAX
            } else {
                (prev.1 + bytes@.len() as u64) as u64
            };
            final(estimates).spec_counts() == old(estimates).spec_counts().insert(
                id,
                (count, total),
            )
        }),
{
    estimates.add(id, bytes.len() as u64);
    outbox.insert_component(client, entity, id, bytes);
}

/// Why an outgoing message could not be produced.
#[derive(Clone, Copy, Debug, PartialEq, Eq, Structural)]
pub enum SendError {
    /// The compressor refused the payload.
    Compress,
}

/// Build the tick's outgoing payload for every client with a pending
/// entry: encode each client's entity update under the tick, compress it
/// under the update dictionary, and pair it with the client id, in
/// ascending client order. The outbox is left for the caller to clear
/// once the payloads are handed to the transport.
pub fn server_build_outgoing(
    tick: NetworkTick,
    outbox: &ClientEntityUpdates,
    dict: &Vec<u8>,
) -> (r: Result<Vec<(u64, Vec<u8>)>, SendError>)
    requires
        outbox.wf(),
    ensures
        r matches Ok(v) ==> v@.len() == outbox.pairs().len() && forall|i: int|
            0 <= i < v@.len() ==> (#[trigger] v@[i]).0 == outbox.pairs()[i].0 && v@[i].1@
                == zstd_compressed(
                dict@,
                spec_encode_update_message(tick.spec_tick(), outbox.pairs()[i].1),
            ),
{
    let mut out: Vec<(u64, Vec<u8>)> = Vec::new();
    let n = outbox.len();
    let mut i: usize = 0;
    while i < n
        invariant
            outbox.wf(),
            n == outbox.pairs().len(),
            i <= n,
            out@.len() == i,
            forall|j: int|
                0 <= j < i ==> (#[trigger] out@[j]).0 == outbox.pairs()[j].0 && out@[j].1@
                    == zstd_compressed(
                    dict@,
                    spec_encode_update_message(tick.spec_tick(), outbox.pairs()[j].1),
                ),
        decreases n - i,
    {
        let client = outbox.client_at(i);
        let update = outbox.update_at(i);
        let message = UpdateMessage::new(tick, update.duplicate());
        let encoded = encode_update_message(&message);
        let compressed = match compress_with_dictionary(dict, &encoded) {
            Some(c) => c,
            None => {
                return Err(SendError::Compress);
            },
        };
        out.push((client, compressed));
        i = i + 1;
    }
    Ok(out)
}

/// Assemble, encode and compress the client's input message for a send
/// opportunity: its tick, a fresh ack based on that tick, and the whole
/// buffered window of already-encoded inputs.
pub fn client_build_input_message(tick: NetworkTick, inputs: QueuedInputs<Vec<u8>>) -> (r: Result<
    Vec<u8>,
    SendError,
>)
    requires
        inputs.wf(),
    ensures
        r matches Ok(v) ==> v@ == zstd_compressed(
            Seq::<u8>::empty(),
            spec_encode_input_message(
                tick.spec_tick(),
                tick.spec_tick(),
                0u32,
                inputs.byte_view(),
            ),
        ),
{
    let message = ClientInputMessage::new(tick, inputs);
    let encoded = encode_input_message(&message);
    let empty_dict: Vec<u8> = Vec::new();
    match compress_with_dictionary(&empty_dict, &encoded) {
        Some(c) => Ok(c),
        None => Err(SendError::Compress),
    }
}

/// Decompress and decode one client input message. Success means the
/// payload decompressed to exactly the canonical encoding of the
/// returned message; conversely, the compression of any canonical input
/// message within the message bound is accepted and gives that message
/// back. The caller merges the carried window into the client's stored
/// window with `PerClientQueuedInputs::upsert`.
pub fn decompress_input_message(raw: &Vec<u8>) -> (r: Result<
    ClientInputMessage<Vec<u8>>,
    ReceiveError,
>)
    ensures
        r matches Ok(m) ==> m.wf() && zstd_decompressed(Seq::<u8>::empty(), raw@)
            == spec_encode_input_message(
            m.tick.spec_tick(),
            m.ack.spec_base(),
            m.ack.spec_bitmap(),
            m.inputs.byte_view(),
        ),
        forall|b: Seq<u8>, t: u64, base: u64, bitmap: u32, s: Seq<(u64, Seq<u8>)>|
            #![trigger zstd_compressed(Seq::<u8>::empty(), b), input_message_run(b, t, base, bitmap, s)]
            input_message_run(b, t, base, bitmap, s) && raw@ == zstd_compressed(
                Seq::<u8>::empty(),
                b,
            ) && b.len() <= MAX_MESSAGE_BYTES ==> (r matches Ok(m) && m.tick.spec_tick() == t
                && m.ack.spec_base() == base && m.ack.spec_bitmap() == bitmap
                && m.inputs.byte_view() == entries_to_map(s)),
{
    let empty_dict: Vec<u8> = Vec::new();
    let decompressed = match decompress_with_dictionary(&empty_dict, raw, MAX_MESSAGE_BYTES) {
        Some(d) => d,
        None => {
            return Err(ReceiveError::Decompress);
        },
    };
    match decode_input_message(&decompressed) {
        Some(m) => Ok(m),
        None => Err(ReceiveError::Decode),
    }
}

} // verus!
