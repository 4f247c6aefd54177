//! The wire codec: little-endian fixed-width scalars, length-prefixed
//! sequences, maps emitted in ascending key order. One encoding per
//! message type, and a decoder that accepts exactly the canonical form
//! and gives back the message it encodes.

use vstd::prelude::*;

verus! {

use vstd::bytes::{
    lemma_auto_spec_u32_to_from_le_bytes,
    lemma_auto_spec_u64_to_from_le_bytes,
    spec_u32_to_le_bytes,
    spec_u64_to_le_bytes,
    u32_from_le_bytes,
    u32_to_le_bytes,
    u64_from_le_bytes,
    u64_to_le_bytes,
};
use vstd::slice::{slice_subrange, slice_to_vec};

use crate::input::{ClientInputMessage, QueuedInputs};
use crate::ordmap::{entries_sorted, entries_to_map, lemma_sorted_entries_canonical};
use crate::tick::{NetworkAck, NetworkTick};
use crate::update::{ComponentsUpdate, EntityUpdate, UpdateMessage};

/// One component pair on the wire: replicate id, blob length, blob bytes.
pub open spec fn spec_encode_component(p: (u64, Seq<u8>)) -> Seq<u8> {
    spec_u64_to_le_bytes(p.0) + spec_u64_to_le_bytes(p.1.len() as u64) + p.1
}

/// Component pairs in the order given.
pub open spec fn spec_encode_components(s: Seq<(u64, Seq<u8>)>) -> Seq<u8>
    decreases s.len(),
{
    if s.len() == 0 {
        Seq::empty()
    } else {
        spec_encode_components(s.drop_last()) + spec_encode_component(s.last())
    }
}

/// The canonical (ascending-key) entry sequence of a component map.
pub open spec fn canon_components(m: Map<u64, Seq<u8>>) -> Seq<(u64, Seq<u8>)> {
    choose|s: Seq<(u64, Seq<u8>)>| entries_sorted(s) && entries_to_map(s) == m
}

/// A counted run of component pairs: count, then the pairs in order.
pub open spec fn spec_encode_counted(s: Seq<(u64, Seq<u8>)>) -> Seq<u8> {
    spec_u64_to_le_bytes(s.len() as u64) + spec_encode_components(s)
}

/// A component map on the wire: count, then its pairs in ascending order.
pub open spec fn spec_encode_components_update(m: Map<u64, Seq<u8>>) -> Seq<u8> {
    spec_encode_counted(canon_components(m))
}

/// Component runs encode piecewise.
pub proof fn lemma_encode_components_concat(a: Seq<(u64, Seq<u8>)>, b: Seq<(u64, Seq<u8>)>)
    ensures
        spec_encode_components(a + b) == spec_encode_components(a) + spec_encode_components(b),
    decreases b.len(),
{
    if b.len() == 0 {
        assert(a + b =~= a);
        assert(spec_encode_components(a) + spec_encode_components(b) =~= spec_encode_components(
            a,
        ));
    } else {
        lemma_encode_components_concat(a, b.drop_last());
        assert((a + b).drop_last() =~= a + b.drop_last());
        assert((a + b).last() == b.last());
        assert(spec_encode_components(a) + (spec_encode_components(b.drop_last())
            + spec_encode_component(b.last())) =~= (spec_encode_components(a)
            + spec_encode_components(b.drop_last())) + spec_encode_component(b.last()));
    }
}

/// A nonempty component run starts with its first pair's encoding.
pub proof fn lemma_encode_components_first(s: Seq<(u64, Seq<u8>)>)
    requires
        s.len() > 0,
    ensures
        spec_encode_components(s) == spec_encode_component(s[0]) + spec_encode_components(
            s.drop_first(),
        ),
{
    let head = seq![s[0]];
    assert(s =~= head + s.drop_first());
    lemma_encode_components_concat(head, s.drop_first());
    assert(head.drop_last() =~= Seq::<(u64, Seq<u8>)>::empty());
    assert(spec_encode_components(Seq::<(u64, Seq<u8>)>::empty()) == Seq::<u8>::empty());
    assert(head.last() == s[0]);
    assert(spec_encode_components(head) == spec_encode_components(head.drop_last())
        + spec_encode_component(head.last()));
    assert(spec_encode_components(head) =~= spec_encode_component(s[0]));
}

/// Entity runs encode piecewise.
pub proof fn lemma_encode_entities_concat(
    a: Seq<(u64, Map<u64, Seq<u8>>)>,
    b: Seq<(u64, Map<u64, Seq<u8>>)>,
)
    ensures
        spec_encode_entities(a + b) == spec_encode_entities(a) + spec_encode_entities(b),
    decreases b.len(),
{
    if b.len() == 0 {
        assert(a + b =~= a);
        assert(spec_encode_entities(a) + spec_encode_entities(b) =~= spec_encode_entities(a));
    } else {
        lemma_encode_entities_concat(a, b.drop_last());
        assert((a + b).drop_last() =~= a + b.drop_last());
        assert((a + b).last() == b.last());
        assert(spec_encode_entities(a) + (spec_encode_entities(b.drop_last()) + spec_encode_entity(
            b.last(),
        )) =~= (spec_encode_entities(a) + spec_encode_entities(b.drop_last()))
            + spec_encode_entity(b.last()));
    }
}

/// A nonempty entity run starts with its first pair's encoding.
pub proof fn lemma_encode_entities_first(s: Seq<(u64, Map<u64, Seq<u8>>)>)
    requires
        s.len() > 0,
    ensures
        spec_encode_entities(s) == spec_encode_entity(s[0]) + spec_encode_entities(
            s.drop_first(),
        ),
{
    let head = seq![s[0]];
    assert(s =~= head + s.drop_first());
    lemma_encode_entities_concat(head, s.drop_first());
    assert(head.drop_last() =~= Seq::<(u64, Map<u64, Seq<u8>>)>::empty());
    assert(spec_encode_entities(Seq::<(u64, Map<u64, Seq<u8>>)>::empty()) == Seq::<u8>::empty());
    assert(head.last() == s[0]);
    assert(spec_encode_entities(head) == spec_encode_entities(head.drop_last())
        + spec_encode_entity(head.last()));
    assert(spec_encode_entities(head) =~= spec_encode_entity(s[0]));
}

/// A byte run that holds a concatenation splits at the seam.
pub proof fn lemma_subrange_split(bytes: Seq<u8>, a: int, x: Seq<u8>, y: Seq<u8>)
    requires
        0 <= a,
        a + x.len() + y.len() <= bytes.len(),
        bytes.subrange(a, a + x.len() + y.len()) == x + y,
    ensures
        bytes.subrange(a, a + x.len() as int) == x,
        bytes.subrange(a + x.len() as int, a + x.len() + y.len()) == y,
{
    assert(bytes.subrange(a, a + x.len() as int) =~= x);
    assert forall|i: int| 0 <= i < y.len() implies bytes[a + x.len() + i] == y[i] by {
        assert(bytes.subrange(a, a + x.len() + y.len())[x.len() + i] == y[i]);
    }
    assert(bytes.subrange(a + x.len() as int, a + x.len() + y.len()) =~= y);
}

/// Where entry `k`'s fields lie inside a counted component run laid down
/// at `pos`: the id, the blob length and the blob bytes, each at its
/// offset, and the bounds that keep every field inside the run.
pub proof fn lemma_counted_entry_bytes(bytes: Seq<u8>, pos: int, s: Seq<(u64, Seq<u8>)>, k: int)
    requires
        s.len() <= u64::MAX,
        forall|i: int| 0 <= i < s.len() ==> (#[trigger] s[i]).1.len() <= u64::MAX,
        0 <= k < s.len(),
        0 <= pos,
        pos + spec_encode_counted(s).len() <= bytes.len(),
        bytes.subrange(pos, pos + spec_encode_counted(s).len() as int) == spec_encode_counted(s),
    ensures
        ({
            let cur = pos + 8 + spec_encode_components(s.take(k)).len();
            &&& bytes.subrange(pos, pos + 8) == spec_u64_to_le_bytes(s.len() as u64)
            &&& cur + 16 + s[k].1.len() == pos + 8 + spec_encode_components(
                s.take(k + 1),
            ).len()
            &&& cur + 16 + s[k].1.len() <= pos + spec_encode_counted(s).len()
            &&& bytes.subrange(cur, cur + 8) == spec_u64_to_le_bytes(s[k].0)
            &&& bytes.subrange(cur + 8, cur + 16) == spec_u64_to_le_bytes(s[k].1.len() as u64)
            &&& bytes.subrange(cur + 16, cur + 16 + s[k].1.len() as int) == s[k].1
        }),
{
    lemma_auto_spec_u64_to_from_le_bytes();
    let take = s.take(k);
    let skip = s.skip(k);
    assert(s =~= take + skip);
    lemma_encode_components_concat(take, skip);
    assert(skip.len() > 0);
    lemma_encode_components_first(skip);
    assert(skip[0] == s[k]);
    assert(skip.drop_first() =~= s.skip(k + 1));
    assert(s.take(k + 1) =~= take + seq![s[k]]);
    lemma_encode_components_concat(take, seq![s[k]]);
    assert(seq![s[k]].drop_last() =~= Seq::<(u64, Seq<u8>)>::empty());
    assert(spec_encode_components(Seq::<(u64, Seq<u8>)>::empty()) == Seq::<u8>::empty());
    assert(spec_encode_components(seq![s[k]]) =~= spec_encode_component(s[k]));
    let enc = spec_encode_counted(s);
    let cur = pos + 8 + spec_encode_components(take).len();
    let count_bytes = spec_u64_to_le_bytes(s.len() as u64);
    let take_bytes = spec_encode_components(take);
    let id_bytes = spec_u64_to_le_bytes(s[k].0);
    let len_bytes = spec_u64_to_le_bytes(s[k].1.len() as u64);
    let rest_bytes = spec_encode_components(s.skip(k + 1));
    assert(enc =~= count_bytes + (take_bytes + (id_bytes + (len_bytes + (s[k].1 + rest_bytes)))));
    lemma_subrange_split(
        bytes,
        pos,
        count_bytes,
        take_bytes + (id_bytes + (len_bytes + (s[k].1 + rest_bytes))),
    );
    lemma_subrange_split(
        bytes,
        pos + 8,
        take_bytes,
        id_bytes + (len_bytes + (s[k].1 + rest_bytes)),
    );
    lemma_subrange_split(bytes, cur, id_bytes, len_bytes + (s[k].1 + rest_bytes));
    lemma_subrange_split(bytes, cur + 8, len_bytes, s[k].1 + rest_bytes);
    lemma_subrange_split(bytes, cur + 16, s[k].1, rest_bytes);
}

/// One entity pair on the wire: server entity, then its component map.
pub open spec fn spec_encode_entity(p: (u64, Map<u64, Seq<u8>>)) -> Seq<u8> {
    spec_u64_to_le_bytes(p.0) + spec_encode_components_update(p.1)
}

/// Entity pairs in the order given.
pub open spec fn spec_encode_entities(s: Seq<(u64, Map<u64, Seq<u8>>)>) -> Seq<u8>
    decreases s.len(),
{
    if s.len() == 0 {
        Seq::empty()
    } else {
        spec_encode_entities(s.drop_last()) + spec_encode_entity(s.last())
    }
}

/// The canonical (ascending-key) entry sequence of a per-entity map.
pub open spec fn canon_entities(m: Map<u64, Map<u64, Seq<u8>>>) -> Seq<(u64, Map<u64, Seq<u8>>)> {
    choose|s: Seq<(u64, Map<u64, Seq<u8>>)>| entries_sorted(s) && entries_to_map(s) == m
}

/// An update message on the wire: tick, entity count, entity pairs in
/// ascending order. The encoding is a function of the message's view
/// alone, so equal stores produce byte-identical messages.
pub open spec fn spec_encode_update_message(tick: u64, m: Map<u64, Map<u64, Seq<u8>>>) -> Seq<u8> {
    spec_u64_to_le_bytes(tick) + spec_u64_to_le_bytes(canon_entities(m).len() as u64)
        + spec_encode_entities(canon_entities(m))
}

/// A client input message on the wire: tick, ack base, ack bitmap, input
/// count, then (tick, blob length, blob) triples in ascending tick order.
pub open spec fn spec_encode_input_message(
    tick: u64,
    ack_base: u64,
    ack_bitmap: u32,
    inputs: Map<u64, Seq<u8>>,
) -> Seq<u8> {
    spec_u64_to_le_bytes(tick) + spec_u64_to_le_bytes(ack_base) + spec_u32_to_le_bytes(ack_bitmap)
        + spec_encode_components_update(inputs)
}

/// A wf component update's own pairs are the canonical sequence of its
/// view.
proof fn lemma_canon_of_components(cu: ComponentsUpdate)
    requires
        cu.wf(),
    ensures
        canon_components(cu@) == cu.pairs(),
{
    cu.lemma_pairs();
    let s = canon_components(cu@);
    assert(entries_sorted(s) && entries_to_map(s) == cu@);
    lemma_sorted_entries_canonical(s, cu.pairs());
}

/// A wf entity update's own pairs are the canonical sequence of its view.
proof fn lemma_canon_of_entities(eu: EntityUpdate)
    requires
        eu.wf(),
    ensures
        canon_entities(eu@) == eu.pairs(),
{
    eu.lemma_pairs();
    let s = canon_entities(eu@);
    assert(entries_sorted(s) && entries_to_map(s) == eu@);
    lemma_sorted_entries_canonical(s, eu.pairs());
}

/// A wf byte-input window's pairs are the canonical sequence of its byte
/// view.
proof fn lemma_canon_of_inputs(q: QueuedInputs<Vec<u8>>)
    requires
        q.wf(),
    ensures
        canon_components(q.byte_view()) == q.byte_pairs(),
{
    q.lemma_byte_pairs();
    let s = canon_components(q.byte_view());
    assert(entries_sorted(q.byte_pairs()) && entries_to_map(q.byte_pairs()) == q.byte_view());
    assert(entries_sorted(s) && entries_to_map(s) == q.byte_view());
    lemma_sorted_entries_canonical(s, q.byte_pairs());
}

/// Append a byte run.
fn append_bytes(out: &mut Vec<u8>, data: &Vec<u8>)
    ensures
        final(out)@ == old(out)@ + data@,
{
    let n = data.len();
    let mut k: usize = 0;
    while k < n
        invariant
            n == data@.len(),
            k <= n,
            out@ == old(out)@ + data@.take(k as int),
        decreases n - k,
    {
        out.push(data[k]);
        proof {
            assert(data@.take(k as int + 1) =~= data@.take(k as int).push(data@[k as int]));
            assert(old(out)@ + data@.take(k as int + 1) =~= (old(out)@ + data@.take(k as int)).push(
                data@[k as int],
            ));
        }
        k = k + 1;
    }
    proof {
        assert(data@.take(n as int) =~= data@);
    }
}

/// Append a little-endian u64.
fn append_u64(out: &mut Vec<u8>, x: u64)
    ensures
        final(out)@ == old(out)@ + spec_u64_to_le_bytes(x),
{
    let b = u64_to_le_bytes(x);
    append_bytes(out, &b);
}

/// Append a little-endian u32.
fn append_u32(out: &mut Vec<u8>, x: u32)
    ensures
        final(out)@ == old(out)@ + spec_u32_to_le_bytes(x),
{
    let b = u32_to_le_bytes(x);
    append_bytes(out, &b);
}

/// Append one component map in wire form.
fn encode_components_update(cu: &ComponentsUpdate, out: &mut Vec<u8>)
    requires
        cu.wf(),
    ensures
        final(out)@ == old(out)@ + spec_encode_components_update(cu@),
{
    proof {
        cu.lemma_pairs();
        lemma_canon_of_components(*cu);
    }
    let n = cu.len();
    append_u64(out, n as u64);
    let ghost base = out@;
    let mut i: usize = 0;
    while i < n
        invariant
            cu.wf(),
            n == cu.pairs().len(),
            i <= n,
            out@ == base + spec_encode_components(cu.pairs().take(i as int)),
        decreases n - i,
    {
        let id = cu.id_at(i);
        let data = cu.data_at(i);
        append_u64(out, id);
        append_u64(out, data.len() as u64);
        append_bytes(out, data);
        proof {
            let t = cu.pairs().take(i as int + 1);
            assert(t.drop_last() =~= cu.pairs().take(i as int));
            assert(t.last() == cu.pairs()[i as int]);
            assert(out@ =~= base + spec_encode_components(t));
        }
        i = i + 1;
    }
    proof {
        assert(cu.pairs().take(n as int) =~= cu.pairs());
    }
}

/// Encode an update message in wire form.
pub fn encode_update_message(msg: &UpdateMessage) -> (r: Vec<u8>)
    requires
        msg.wf(),
    ensures
        r@ == spec_encode_update_message(msg.tick.spec_tick(), msg@),
{
    proof {
        msg.entity_update.lemma_pairs();
        lemma_canon_of_entities(msg.entity_update);
    }
    let mut out: Vec<u8> = Vec::new();
    append_u64(&mut out, msg.tick.tick());
    let n = msg.entity_update.len();
    append_u64(&mut out, n as u64);
    let ghost base = out@;
    let mut i: usize = 0;
    while i < n
        invariant
            msg.wf(),
            n == msg.entity_update.pairs().len(),
            i <= n,
            out@ == base + spec_encode_entities(msg.entity_update.pairs().take(i as int)),
        decreases n - i,
    {
        let entity = msg.entity_update.entity_at(i);
        let components = msg.entity_update.components_at(i);
        append_u64(&mut out, entity);
        encode_components_update(components, &mut out);
        proof {
            let t = msg.entity_update.pairs().take(i as int + 1);
            assert(t.drop_last() =~= msg.entity_update.pairs().take(i as int));
            assert(t.last() == msg.entity_update.pairs()[i as int]);
            assert(out@ =~= base + spec_encode_entities(t));
        }
        i = i + 1;
    }
    proof {
        assert(msg.entity_update.pairs().take(n as int) =~= msg.entity_update.pairs());
        assert(out@ =~= spec_encode_update_message(msg.tick.spec_tick(), msg@));
    }
    out
}

/// Encode a client input message in wire form; the inputs are already
/// encoded to bytes per tick.
pub fn encode_input_message(msg: &ClientInputMessage<Vec<u8>>) -> (r: Vec<u8>)
    requires
        msg.wf(),
    ensures
        r@ == spec_encode_input_message(
            msg.tick.spec_tick(),
            msg.ack.spec_base(),
            msg.ack.spec_bitmap(),
            msg.inputs.byte_view(),
        ),
{
    proof {
        msg.inputs.lemma_byte_pairs();
        lemma_canon_of_inputs(msg.inputs);
    }
    let mut out: Vec<u8> = Vec::new();
    append_u64(&mut out, msg.tick.tick());
    append_u64(&mut out, msg.ack.base());
    append_u32(&mut out, msg.ack.bitmap());
    let n = msg.inputs.len();
    append_u64(&mut out, n as u64);
    let ghost base = out@;
    let mut i: usize = 0;
    while i < n
        invariant
            msg.wf(),
            n == msg.inputs.entries().len(),
            n == msg.inputs.byte_pairs().len(),
            forall|j: int|
                0 <= j < n ==> #[trigger] msg.inputs.byte_pairs()[j] == (
                    msg.inputs.entries()[j].0,
                    msg.inputs.entries()[j].1@,
                ),
            i <= n,
            out@ == base + spec_encode_components(msg.inputs.byte_pairs().take(i as int)),
        decreases n - i,
    {
        let tick = msg.inputs.tick_at(i);
        let data = msg.inputs.input_at(i);
        append_u64(&mut out, tick);
        append_u64(&mut out, data.len() as u64);
        append_bytes(&mut out, data);
        proof {
            let t = msg.inputs.byte_pairs().take(i as int + 1);
            assert(t.drop_last() =~= msg.inputs.byte_pairs().take(i as int));
            assert(t.last() == msg.inputs.byte_pairs()[i as int]);
            assert(out@ =~= base + spec_encode_components(t));
        }
        i = i + 1;
    }
    proof {
        assert(msg.inputs.byte_pairs().take(n as int) =~= msg.inputs.byte_pairs());
        assert(out@ =~= spec_encode_input_message(
            msg.tick.spec_tick(),
            msg.ack.spec_base(),
            msg.ack.spec_bitmap(),
            msg.inputs.byte_view(),
        ));
    }
    out
}

/// Read a little-endian u64 at a cursor.
fn read_u64(bytes: &Vec<u8>, pos: usize) -> (r: Option<(u64, usize)>)
    ensures
        r is Some <==> pos + 8 <= bytes@.len(),
        r matches Some(p) ==> p.1 == pos + 8 && bytes@.subrange(pos as int, pos as int + 8)
            == spec_u64_to_le_bytes(p.0),
{
    if bytes.len() >= 8 && pos <= bytes.len() - 8 {
        let s = slice_subrange(bytes.as_slice(), pos, pos + 8);
        let x = u64_from_le_bytes(s);
        proof {
            lemma_auto_spec_u64_to_from_le_bytes();
        }
        Some((x, pos + 8))
    } else {
        None
    }
}

/// Read a little-endian u32 at a cursor.
fn read_u32(bytes: &Vec<u8>, pos: usize) -> (r: Option<(u32, usize)>)
    ensures
        r is Some <==> pos + 4 <= bytes@.len(),
        r matches Some(p) ==> p.1 == pos + 4 && bytes@.subrange(pos as int, pos as int + 4)
            == spec_u32_to_le_bytes(p.0),
{
    if bytes.len() >= 4 && pos <= bytes.len() - 4 {
        let s = slice_subrange(bytes.as_slice(), pos, pos + 4);
        let x = u32_from_le_bytes(s);
        proof {
            lemma_auto_spec_u32_to_from_le_bytes();
        }
        Some((x, pos + 4))
    } else {
        None
    }
}

/// Read a blob: length then bytes. Succeeds on exactly the length-prefixed
/// runs that fit.
fn read_blob(bytes: &Vec<u8>, pos: usize) -> (r: Option<(Vec<u8>, usize)>)
    ensures
        r matches Some(p) ==> pos <= p.1 <= bytes@.len() && bytes@.subrange(
            pos as int,
            p.1 as int,
        ) == spec_u64_to_le_bytes(p.0@.len() as u64) + p.0@,
        forall|b: Seq<u8>|
            #![trigger b.len()]
            b.len() <= usize::MAX && pos + 8 + b.len() <= bytes@.len() && bytes@.subrange(
                pos as int,
                pos as int + 8,
            ) == spec_u64_to_le_bytes(b.len() as u64) && bytes@.subrange(
                pos as int + 8,
                pos as int + 8 + b.len() as int,
            ) == b ==> (r matches Some(p) && p.0@ == b && p.1 == pos + 8 + b.len()),
{
    proof {
        lemma_auto_spec_u64_to_from_le_bytes();
    }
    match read_u64(bytes, pos) {
        None => None,
        Some((len, p2)) => {
            if len > (usize::MAX as u64) {
                proof {
                    assert forall|b: Seq<u8>|
                        #![trigger b.len()]
                        !(b.len() <= usize::MAX && pos + 8 + b.len() <= bytes@.len()
                            && bytes@.subrange(pos as int, pos as int + 8)
                            == spec_u64_to_le_bytes(b.len() as u64) && bytes@.subrange(
                            pos as int + 8,
                            pos as int + 8 + b.len() as int,
                        ) == b) by {
                        if b.len() <= usize::MAX && bytes@.subrange(pos as int, pos as int + 8)
                            == spec_u64_to_le_bytes(b.len() as u64) {
                            assert(len == b.len() as u64);
                        }
                    }
                }
                return None;
            }
            let len = len as usize;
            if len > bytes.len() || p2 > bytes.len() - len {
                proof {
                    assert forall|b: Seq<u8>|
                        #![trigger b.len()]
                        !(b.len() <= usize::MAX && pos + 8 + b.len() <= bytes@.len()
                            && bytes@.subrange(pos as int, pos as int + 8)
                            == spec_u64_to_le_bytes(b.len() as u64) && bytes@.subrange(
                            pos as int + 8,
                            pos as int + 8 + b.len() as int,
                        ) == b) by {
                        if b.len() <= usize::MAX && bytes@.subrange(pos as int, pos as int + 8)
                            == spec_u64_to_le_bytes(b.len() as u64) {
                            assert(len == b.len());
                        }
                    }
                }
                return None;
            }
            let s = slice_subrange(bytes.as_slice(), p2, p2 + len);
            let blob = slice_to_vec(s);
            proof {
                assert(bytes@.subrange(pos as int, p2 as int + len as int) =~= bytes@.subrange(
                    pos as int,
                    p2 as int,
                ) + bytes@.subrange(p2 as int, p2 as int + len as int));
                assert forall|b: Seq<u8>|
                    #![trigger b.len()]
                    b.len() <= usize::MAX && pos + 8 + b.len() <= bytes@.len() && bytes@.subrange(
                        pos as int,
                        pos as int + 8,
                    ) == spec_u64_to_le_bytes(b.len() as u64) && bytes@.subrange(
                        pos as int + 8,
                        pos as int + 8 + b.len() as int,
                    ) == b implies blob@ == b && p2 + len == pos + 8 + b.len() by {
                    assert(len == b.len());
                    assert(blob@ =~= b);
                }
            }
            Some((blob, p2 + len))
        },
    }
}

/// Decode a component map: count, then pairs that must arrive in strictly
/// ascending id order — the canonical form the encoder emits.
/// Where entry `k`'s fields lie inside an entity run laid down at `pos`:
/// the entity id and its component map encoding, each at its offset, and
/// the bounds that keep both inside the run.
pub proof fn lemma_entities_entry_bytes(
    bytes: Seq<u8>,
    pos: int,
    s: Seq<(u64, Map<u64, Seq<u8>>)>,
    k: int,
)
    requires
        0 <= k < s.len(),
        0 <= pos,
        pos + spec_encode_entities(s).len() <= bytes.len(),
        bytes.subrange(pos, pos + spec_encode_entities(s).len() as int) == spec_encode_entities(s),
    ensures
        ({
            let cur = pos + spec_encode_entities(s.take(k)).len();
            let body = spec_encode_components_update(s[k].1);
            &&& cur + 8 + body.len() == pos + spec_encode_entities(s.take(k + 1)).len()
            &&& cur + 8 + body.len() <= pos + spec_encode_entities(s).len()
            &&& bytes.subrange(cur, cur + 8) == spec_u64_to_le_bytes(s[k].0)
            &&& bytes.subrange(cur + 8, cur + 8 + body.len() as int) == body
        }),
{
    lemma_auto_spec_u64_to_from_le_bytes();
    let take = s.take(k);
    let skip = s.skip(k);
    assert(s =~= take + skip);
    lemma_encode_entities_concat(take, skip);
    assert(skip.len() > 0);
    lemma_encode_entities_first(skip);
    assert(skip[0] == s[k]);
    assert(skip.drop_first() =~= s.skip(k + 1));
    assert(s.take(k + 1) =~= take + seq![s[k]]);
    lemma_encode_entities_concat(take, seq![s[k]]);
    assert(seq![s[k]].drop_last() =~= Seq::<(u64, Map<u64, Seq<u8>>)>::empty());
    assert(spec_encode_entities(Seq::<(u64, Map<u64, Seq<u8>>)>::empty()) == Seq::<u8>::empty());
    assert(spec_encode_entities(seq![s[k]]) =~= spec_encode_entity(s[k]));
    let cur = pos + spec_encode_entities(take).len();
    let take_bytes = spec_encode_entities(take);
    let id_bytes = spec_u64_to_le_bytes(s[k].0);
    let body = spec_encode_components_update(s[k].1);
    let rest_bytes = spec_encode_entities(s.skip(k + 1));
    assert(spec_encode_entities(s) =~= take_bytes + (id_bytes + (body + rest_bytes)));
    lemma_subrange_split(bytes, pos, take_bytes, id_bytes + (body + rest_bytes));
    lemma_subrange_split(bytes, cur, id_bytes, body + rest_bytes);
    lemma_subrange_split(bytes, cur + 8, body, rest_bytes);
}

/// A counted component run, laid down in full at `pos` inside `bytes`:
/// the form the decoder is complete for.
pub open spec fn counted_run_at(bytes: Seq<u8>, pos: int, s: Seq<(u64, Seq<u8>)>) -> bool {
    &&& entries_sorted(s)
    &&& s.len() <= u64::MAX
    &&& (forall|i: int| 0 <= i < s.len() ==> (#[trigger] s[i]).1.len() <= usize::MAX)
    &&& pos + spec_encode_counted(s).len() <= bytes.len()
    &&& bytes.subrange(pos, pos + spec_encode_counted(s).len() as int) == spec_encode_counted(s)
}

#[verifier::rlimit(80)]
fn decode_components_update(bytes: &Vec<u8>, pos: usize) -> (r: Option<(ComponentsUpdate, usize)>)
    ensures
        r matches Some(p) ==> p.0.wf() && pos <= p.1 <= bytes@.len() && bytes@.subrange(
            pos as int,
            p.1 as int,
        ) == spec_encode_components_update(p.0@),
        forall|s: Seq<(u64, Seq<u8>)>|
            #[trigger] counted_run_at(bytes@, pos as int, s) ==> (r matches Some(p) && p.0@
                == entries_to_map(s) && p.1 == pos + spec_encode_counted(s).len()),
{
    proof {
        lemma_auto_spec_u64_to_from_le_bytes();
    }
    let header = read_u64(bytes, pos);
    let (count, mut cursor) = match header {
        None => {
            proof {
                assert forall|s: Seq<(u64, Seq<u8>)>|
                    !counted_run_at(bytes@, pos as int, s) by {
                    if counted_run_at(bytes@, pos as int, s) {
                        assert(spec_encode_counted(s).len() >= 8);
                    }
                }
            }
            return None;
        },
        Some(p) => p,
    };
    let mut cu = ComponentsUpdate::new();
    let mut read: u64 = 0;
    let mut last_id: u64 = 0;
    let mut gp: Ghost<Seq<(u64, Seq<u8>)>> = Ghost(Seq::empty());
    proof {
        assert(bytes@.subrange(pos as int, cursor as int) =~= spec_u64_to_le_bytes(count)
            + spec_encode_components(gp@));
        assert(cu@ =~= entries_to_map(gp@));
        assert forall|s: Seq<(u64, Seq<u8>)>|
            #[trigger] counted_run_at(bytes@, pos as int, s) implies s.len() == count && gp@
            == s.take(0) && cursor == pos + 8 + spec_encode_components(s.take(0)).len() by {
            lemma_subrange_split(
                bytes@,
                pos as int,
                spec_u64_to_le_bytes(s.len() as u64),
                spec_encode_components(s),
            );
            assert(s.take(0) =~= Seq::<(u64, Seq<u8>)>::empty());
            assert(spec_encode_components(Seq::<(u64, Seq<u8>)>::empty()) == Seq::<u8>::empty());
            assert(gp@ =~= s.take(0));
        }
    }
    while read < count
        invariant
            read <= count,
            pos <= cursor <= bytes@.len(),
            cu.wf(),
            entries_sorted(gp@),
            gp@.len() == read,
            cu@ == entries_to_map(gp@),
            read > 0 ==> gp@.len() > 0 && gp@.last().0 == last_id,
            bytes@.subrange(pos as int, cursor as int) == spec_u64_to_le_bytes(count)
                + spec_encode_components(gp@),
            forall|s: Seq<(u64, Seq<u8>)>|
                #[trigger] counted_run_at(bytes@, pos as int, s) ==> s.len() == count && gp@
                    == s.take(read as int) && cursor == pos + 8 + spec_encode_components(
                    s.take(read as int),
                ).len(),
        decreases count - read,
    {
        let next_id = read_u64(bytes, cursor);
        let (id, p2) = match next_id {
            None => {
                proof {
                    assert forall|s: Seq<(u64, Seq<u8>)>|
                        !counted_run_at(bytes@, pos as int, s) by {
                        if counted_run_at(bytes@, pos as int, s) {
                            lemma_auto_spec_u64_to_from_le_bytes();
                            lemma_counted_entry_bytes(bytes@, pos as int, s, read as int);
                        }
                    }
                }
                return None;
            },
            Some(p) => p,
        };
        if read > 0 && id <= last_id {
            proof {
                assert forall|s: Seq<(u64, Seq<u8>)>|
                    !counted_run_at(bytes@, pos as int, s) by {
                    if counted_run_at(bytes@, pos as int, s) {
                        lemma_auto_spec_u64_to_from_le_bytes();
                        lemma_counted_entry_bytes(bytes@, pos as int, s, read as int);
                        assert(id == s[read as int].0);
                        assert(gp@.last() == s.take(read as int).last());
                        assert(s[read as int - 1].0 < s[read as int].0);
                    }
                }
            }
            return None;
        }
        let next_blob = read_blob(bytes, p2);
        let (blob, p3) = match next_blob {
            None => {
                proof {
                    assert forall|s: Seq<(u64, Seq<u8>)>|
                        !counted_run_at(bytes@, pos as int, s) by {
                        if counted_run_at(bytes@, pos as int, s) {
                            lemma_auto_spec_u64_to_from_le_bytes();
                            lemma_counted_entry_bytes(bytes@, pos as int, s, read as int);
                            assert(s[read as int].1.len() <= usize::MAX);
                        }
                    }
                }
                return None;
            },
            Some(p) => p,
        };
        let ghost prev = gp@;
        let ghost prev_cursor = cursor as int;
        gp = Ghost(prev.push((id, blob@)));
        proof {
            assert(gp@.drop_last() =~= prev);
            assert forall|a: int, b: int| 0 <= a < b < gp@.len() implies (gp@[a]).0 < (
            gp@[b]).0 by {
                if b < gp@.len() - 1 {
                    assert(gp@[a] == prev[a] && gp@[b] == prev[b]);
                } else if a < gp@.len() - 1 {
                    assert(gp@[a] == prev[a]);
                    assert(prev[a].0 <= prev[prev.len() - 1].0);
                }
            }
        }
        cu.insert(id, blob);
        last_id = id;
        proof {
            assert(bytes@.subrange(pos as int, p3 as int) =~= bytes@.subrange(
                pos as int,
                prev_cursor,
            ) + bytes@.subrange(prev_cursor, p2 as int) + bytes@.subrange(p2 as int, p3 as int));
            assert(spec_encode_components(gp@) == spec_encode_components(prev)
                + spec_encode_component((id, blob@)));
            assert(bytes@.subrange(pos as int, p3 as int) =~= spec_u64_to_le_bytes(count)
                + spec_encode_components(gp@));
            assert forall|s: Seq<(u64, Seq<u8>)>|
                #[trigger] counted_run_at(bytes@, pos as int, s) implies gp@ == s.take(
                read as int + 1) && p3 == pos + 8 + spec_encode_components(
                s.take(read as int + 1)).len() by {
                lemma_auto_spec_u64_to_from_le_bytes();
                lemma_counted_entry_bytes(bytes@, pos as int, s, read as int);
                assert(id == s[read as int].0);
                assert(blob@ == s[read as int].1);
                assert(p3 == prev_cursor + 16 + s[read as int].1.len());
                assert(gp@ =~= s.take(read as int + 1));
            }
        }
        cursor = p3;
        read = read + 1;
    }
    proof {
        lemma_canon_of_components(cu);
        cu.lemma_pairs();
        lemma_sorted_entries_canonical(cu.pairs(), gp@);
        assert(canon_components(cu@).len() as u64 == count);
        assert forall|s: Seq<(u64, Seq<u8>)>|
            #[trigger] counted_run_at(bytes@, pos as int, s) implies entries_to_map(s) == cu@
            && pos + spec_encode_counted(s).len() == cursor by {
            assert(s.take(read as int) =~= s);
            assert(gp@ == s);
        }
    }
    Some((cu, cursor))
}

/// Decode an update message, accepting exactly the canonical wire form:
/// a decoded message re-encodes to the very bytes given, so anything
/// non-canonical (unsorted, duplicated, truncated, or trailing) is
/// rejected.
#[verifier::rlimit(80)]
/// A component map that a canonical entry sequence denotes, with every
/// blob of machine length: the values an update message can carry.
pub open spec fn componentable(m: Map<u64, Seq<u8>>) -> bool {
    &&& entries_sorted(canon_components(m))
    &&& entries_to_map(canon_components(m)) == m
    &&& canon_components(m).len() <= u64::MAX
    &&& forall|j: int|
        0 <= j < canon_components(m).len() ==> (#[trigger] canon_components(m)[j]).1.len()
            <= usize::MAX
}

/// A whole update message in canonical wire form: the form the decoder
/// is complete for.
pub open spec fn update_message_run(
    bytes: Seq<u8>,
    t: u64,
    s: Seq<(u64, Map<u64, Seq<u8>>)>,
) -> bool {
    &&& entries_sorted(s)
    &&& s.len() <= u64::MAX
    &&& (forall|i: int| 0 <= i < s.len() ==> componentable((#[trigger] s[i]).1))
    &&& bytes == spec_u64_to_le_bytes(t) + spec_u64_to_le_bytes(s.len() as u64)
        + spec_encode_entities(s)
}

/// Decoding inverts encoding: the canonical wire bytes of a well-formed
/// update message are an `update_message_run`, so `decode_update_message`
/// on them succeeds and returns a message with the same tick and the
/// same view.
pub proof fn lemma_update_message_round_trip(m: UpdateMessage)
    requires
        m.wf(),
    ensures
        update_message_run(
            spec_encode_update_message(m.tick.spec_tick(), m@),
            m.tick.spec_tick(),
            canon_entities(m@),
        ),
        entries_to_map(canon_entities(m@)) == m@,
{
    lemma_canon_of_entities(m.entity_update);
    m.entity_update.lemma_pairs();
    let s = m.entity_update.pairs();
    assert forall|i: int| 0 <= i < s.len() implies componentable((#[trigger] s[i]).1) by {
        let cs = m.entity_update.component_pairs_at(i);
        assert(entries_sorted(cs) && entries_to_map(cs) == s[i].1);
        let c = canon_components(s[i].1);
        assert(entries_sorted(c) && entries_to_map(c) == s[i].1);
        lemma_sorted_entries_canonical(c, cs);
    }
}

#[verifier::rlimit(100)]
pub fn decode_update_message(bytes: &Vec<u8>) -> (r: Option<UpdateMessage>)
    ensures
        r matches Some(m) ==> m.wf() && bytes@ == spec_encode_update_message(
            m.tick.spec_tick(),
            m@,
        ),
        forall|t: u64, s: Seq<(u64, Map<u64, Seq<u8>>)>|
            #[trigger] update_message_run(bytes@, t, s) ==> (r matches Some(m)
                && m.tick.spec_tick() == t && m@ == entries_to_map(s)),
{
    proof {
        lemma_auto_spec_u64_to_from_le_bytes();
        assert(bytes@.subrange(0, bytes@.len() as int) =~= bytes@);
    }
    let header_tick = read_u64(bytes, 0);
    let (tick, mut cursor) = match header_tick {
        None => {
            proof {
                assert forall|t: u64, s: Seq<(u64, Map<u64, Seq<u8>>)>|
                    !update_message_run(bytes@, t, s) by {
                    if update_message_run(bytes@, t, s) {
                        assert(bytes@.len() >= 16);
                    }
                }
            }
            return None;
        },
        Some(p) => p,
    };
    let header_count = read_u64(bytes, cursor);
    let (count, c2) = match header_count {
        None => {
            proof {
                assert forall|t: u64, s: Seq<(u64, Map<u64, Seq<u8>>)>|
                    !update_message_run(bytes@, t, s) by {
                    if update_message_run(bytes@, t, s) {
                        assert(bytes@.len() >= 16);
                    }
                }
            }
            return None;
        },
        Some(p) => p,
    };
    let mut eu = EntityUpdate::new();
    let mut gp: Ghost<Seq<(u64, Map<u64, Seq<u8>>)>> = Ghost(Seq::empty());
    let mut read: u64 = 0;
    let mut last_entity: u64 = 0;
    cursor = c2;
    proof {
        assert(bytes@.subrange(0, cursor as int) =~= spec_u64_to_le_bytes(tick)
            + spec_u64_to_le_bytes(count) + spec_encode_entities(gp@));
        assert forall|t: u64, s: Seq<(u64, Map<u64, Seq<u8>>)>|
            #[trigger] update_message_run(bytes@, t, s) implies tick == t && s.len() == count
            && gp@ == s.take(0) && cursor == 16 + spec_encode_entities(s.take(0)).len() by {
            assert(bytes@ =~= spec_u64_to_le_bytes(t) + (spec_u64_to_le_bytes(s.len() as u64)
                + spec_encode_entities(s)));
            assert(bytes@.subrange(0, bytes@.len() as int) =~= bytes@);
            lemma_subrange_split(
                bytes@,
                0,
                spec_u64_to_le_bytes(t),
                spec_u64_to_le_bytes(s.len() as u64) + spec_encode_entities(s),
            );
            lemma_subrange_split(
                bytes@,
                8,
                spec_u64_to_le_bytes(s.len() as u64),
                spec_encode_entities(s),
            );
            assert(s.take(0) =~= Seq::<(u64, Map<u64, Seq<u8>>)>::empty());
            assert(spec_encode_entities(Seq::<(u64, Map<u64, Seq<u8>>)>::empty())
                == Seq::<u8>::empty());
            assert(gp@ =~= s.take(0));
        }
    }
    while read < count
        invariant
            read <= count,
            cursor <= bytes@.len(),
            eu.wf(),
            entries_sorted(gp@),
            gp@.len() == read,
            eu@ == entries_to_map(gp@),
            read > 0 ==> gp@.len() > 0 && gp@.last().0 == last_entity,
            bytes@.subrange(0, cursor as int) == spec_u64_to_le_bytes(tick)
                + spec_u64_to_le_bytes(count) + spec_encode_entities(gp@),
            forall|t: u64, s: Seq<(u64, Map<u64, Seq<u8>>)>|
                #[trigger] update_message_run(bytes@, t, s) ==> tick == t && s.len() == count
                    && gp@ == s.take(read as int) && cursor == 16 + spec_encode_entities(
                    s.take(read as int),
                ).len(),
        decreases count - read,
    {
        proof {
            assert forall|t: u64, s: Seq<(u64, Map<u64, Seq<u8>>)>|
                #[trigger] update_message_run(bytes@, t, s) implies ({
                let cur: int = 16 + spec_encode_entities(s.take(read as int)).len() as int;
                let body = spec_encode_components_update(s[read as int].1);
                &&& cursor == cur
                &&& cur + 8 + body.len() <= bytes@.len()
                &&& bytes@.subrange(cur, cur + 8) == spec_u64_to_le_bytes(s[read as int].0)
                &&& counted_run_at(bytes@, cur + 8, canon_components(s[read as int].1))
            }) by {
                lemma_auto_spec_u64_to_from_le_bytes();
                assert(bytes@ =~= (spec_u64_to_le_bytes(t) + spec_u64_to_le_bytes(
                    s.len() as u64,
                )) + spec_encode_entities(s));
                assert(bytes@.subrange(0, bytes@.len() as int) =~= bytes@);
                lemma_subrange_split(
                    bytes@,
                    0,
                    spec_u64_to_le_bytes(t) + spec_u64_to_le_bytes(s.len() as u64),
                    spec_encode_entities(s),
                );
                lemma_entities_entry_bytes(bytes@, 16, s, read as int);
            }
        }
        let next_entity = read_u64(bytes, cursor);
        let (entity, p2) = match next_entity {
            None => {
                proof {
                    assert forall|t: u64, s: Seq<(u64, Map<u64, Seq<u8>>)>|
                        !update_message_run(bytes@, t, s) by {
                        if update_message_run(bytes@, t, s) {
                        }
                    }
                }
                return None;
            },
            Some(p) => p,
        };
        if read > 0 && entity <= last_entity {
            proof {
                assert forall|t: u64, s: Seq<(u64, Map<u64, Seq<u8>>)>|
                    !update_message_run(bytes@, t, s) by {
                    if update_message_run(bytes@, t, s) {
                        lemma_auto_spec_u64_to_from_le_bytes();
                        assert(entity == s[read as int].0);
                        assert(gp@.last() == s.take(read as int).last());
                        assert(s[read as int - 1].0 < s[read as int].0);
                    }
                }
            }
            return None;
        }
        let parsed = decode_components_update(bytes, p2);
        let (components, p3) = match parsed {
            None => {
                proof {
                    assert forall|t: u64, s: Seq<(u64, Map<u64, Seq<u8>>)>|
                        !update_message_run(bytes@, t, s) by {
                        if update_message_run(bytes@, t, s) {
                        }
                    }
                }
                return None;
            },
            Some(p) => p,
        };
        let ghost prev = gp@;
        let ghost prev_cursor = cursor as int;
        gp = Ghost(prev.push((entity, components@)));
        proof {
            assert(gp@.drop_last() =~= prev);
            assert forall|a: int, b: int| 0 <= a < b < gp@.len() implies (gp@[a]).0 < (
            gp@[b]).0 by {
                if b < gp@.len() - 1 {
                    assert(gp@[a] == prev[a] && gp@[b] == prev[b]);
                } else if a < gp@.len() - 1 {
                    assert(gp@[a] == prev[a]);
                    assert(prev[a].0 <= prev[prev.len() - 1].0);
                }
            }
        }
        eu.insert_entity(entity, components);
        last_entity = entity;
        proof {
            assert(bytes@.subrange(0, p3 as int) =~= bytes@.subrange(0, prev_cursor)
                + bytes@.subrange(prev_cursor, p2 as int) + bytes@.subrange(p2 as int, p3 as int));
            assert(spec_encode_entities(gp@) == spec_encode_entities(prev) + spec_encode_entity(
                (entity, components@),
            ));
            assert(bytes@.subrange(0, p3 as int) =~= spec_u64_to_le_bytes(tick)
                + spec_u64_to_le_bytes(count) + spec_encode_entities(gp@));
            assert forall|t: u64, s: Seq<(u64, Map<u64, Seq<u8>>)>|
                #[trigger] update_message_run(bytes@, t, s) implies gp@ == s.take(read as int + 1)
                && p3 == 16 + spec_encode_entities(s.take(read as int + 1)).len() by {
                lemma_auto_spec_u64_to_from_le_bytes();
                assert(entity == s[read as int].0);
                assert(components@ == entries_to_map(canon_components(s[read as int].1)));
                assert(components@ == s[read as int].1);
                assert(p3 == prev_cursor + 8 + spec_encode_components_update(
                    s[read as int].1,
                ).len());
                assert(gp@ =~= s.take(read as int + 1));
            }
        }
        cursor = p3;
        read = read + 1;
    }
    if cursor != bytes.len() {
        proof {
            assert forall|t: u64, s: Seq<(u64, Map<u64, Seq<u8>>)>|
                !update_message_run(bytes@, t, s) by {
                if update_message_run(bytes@, t, s) {
                    assert(s.take(read as int) =~= s);
                    assert(bytes@.len() == 16 + spec_encode_entities(s).len());
                }
            }
        }
        return None;
    }
    let msg = UpdateMessage::new(NetworkTick::new(tick), eu);
    proof {
        lemma_canon_of_entities(msg.entity_update);
        msg.entity_update.lemma_pairs();
        lemma_sorted_entries_canonical(msg.entity_update.pairs(), gp@);
        assert(bytes@.subrange(0, bytes@.len() as int) =~= bytes@);
        assert forall|t: u64, s: Seq<(u64, Map<u64, Seq<u8>>)>|
            #[trigger] update_message_run(bytes@, t, s) implies msg.tick.spec_tick() == t && msg@
            == entries_to_map(s) by {
            assert(s.take(read as int) =~= s);
            assert(gp@ == s);
        }
    }
    Some(msg)
}

/// Decode a client input message, accepting exactly the canonical wire
/// form.
#[verifier::rlimit(80)]
/// An independent copy of a byte run.
fn copy_byte_run(data: &Vec<u8>) -> (r: Vec<u8>)
    ensures
        r@ == data@,
{
    let n = data.len();
    let mut r: Vec<u8> = Vec::new();
    let mut k: usize = 0;
    while k < n
        invariant
            n == data@.len(),
            k <= n,
            r@ == data@.take(k as int),
        decreases n - k,
    {
        r.push(data[k]);
        proof {
            assert(data@.take(k as int + 1) =~= data@.take(k as int).push(data@[k as int]));
        }
        k = k + 1;
    }
    proof {
        assert(data@.take(n as int) =~= data@);
    }
    r
}

/// A whole client input message in canonical wire form: the form the
/// decoder is complete for.
pub open spec fn input_message_run(
    bytes: Seq<u8>,
    t: u64,
    base: u64,
    bitmap: u32,
    s: Seq<(u64, Seq<u8>)>,
) -> bool {
    &&& entries_sorted(s)
    &&& s.len() <= u64::MAX
    &&& (forall|i: int| 0 <= i < s.len() ==> (#[trigger] s[i]).1.len() <= usize::MAX)
    &&& bytes == spec_u64_to_le_bytes(t) + spec_u64_to_le_bytes(base) + spec_u32_to_le_bytes(
        bitmap,
    ) + spec_encode_counted(s)
}

/// Decoding inverts encoding: the canonical wire bytes of a well-formed
/// input message are an `input_message_run`, so `decode_input_message`
/// on them succeeds and returns a message with the same tick, ack and
/// window.
pub proof fn lemma_input_message_round_trip(m: ClientInputMessage<Vec<u8>>)
    requires
        m.wf(),
    ensures
        input_message_run(
            spec_encode_input_message(
                m.tick.spec_tick(),
                m.ack.spec_base(),
                m.ack.spec_bitmap(),
                m.inputs.byte_view(),
            ),
            m.tick.spec_tick(),
            m.ack.spec_base(),
            m.ack.spec_bitmap(),
            canon_components(m.inputs.byte_view()),
        ),
        entries_to_map(canon_components(m.inputs.byte_view())) == m.inputs.byte_view(),
{
    lemma_canon_of_inputs(m.inputs);
    m.inputs.lemma_byte_pairs();
}

pub fn decode_input_message(bytes: &Vec<u8>) -> (r: Option<ClientInputMessage<Vec<u8>>>)
    ensures
        r matches Some(m) ==> m.wf() && bytes@ == spec_encode_input_message(
            m.tick.spec_tick(),
            m.ack.spec_base(),
            m.ack.spec_bitmap(),
            m.inputs.byte_view(),
        ),
        forall|t: u64, base: u64, bitmap: u32, s: Seq<(u64, Seq<u8>)>|
            #[trigger] input_message_run(bytes@, t, base, bitmap, s) ==> (r matches Some(m)
                && m.tick.spec_tick() == t && m.ack.spec_base() == base && m.ack.spec_bitmap()
                == bitmap && m.inputs.byte_view() == entries_to_map(s)),
{
    proof {
        lemma_auto_spec_u64_to_from_le_bytes();
        lemma_auto_spec_u32_to_from_le_bytes();
        assert(bytes@.subrange(0, bytes@.len() as int) =~= bytes@);
        assert forall|t: u64, base: u64, bitmap: u32, s: Seq<(u64, Seq<u8>)>|
            #[trigger] input_message_run(bytes@, t, base, bitmap, s) implies counted_run_at(
            bytes@,
            20,
            s,
        ) && bytes@.subrange(0, 8) == spec_u64_to_le_bytes(t) && bytes@.subrange(8, 16)
            == spec_u64_to_le_bytes(base) && bytes@.subrange(16, 20) == spec_u32_to_le_bytes(
            bitmap,
        ) && bytes@.len() == 20 + spec_encode_counted(s).len() by {
            assert(bytes@ =~= spec_u64_to_le_bytes(t) + (spec_u64_to_le_bytes(base) + (
            spec_u32_to_le_bytes(bitmap) + spec_encode_counted(s))));
            lemma_subrange_split(
                bytes@,
                0,
                spec_u64_to_le_bytes(t),
                spec_u64_to_le_bytes(base) + (spec_u32_to_le_bytes(bitmap) + spec_encode_counted(
                    s,
                )),
            );
            lemma_subrange_split(
                bytes@,
                8,
                spec_u64_to_le_bytes(base),
                spec_u32_to_le_bytes(bitmap) + spec_encode_counted(s),
            );
            lemma_subrange_split(bytes@, 16, spec_u32_to_le_bytes(bitmap), spec_encode_counted(s));
        }
    }
    let h1 = read_u64(bytes, 0);
    let (tick, c1) = match h1 {
        None => {
            return None;
        },
        Some(p) => p,
    };
    let h2 = read_u64(bytes, c1);
    let (base, c2) = match h2 {
        None => {
            return None;
        },
        Some(p) => p,
    };
    let h3 = read_u32(bytes, c2);
    let (bitmap, c3) = match h3 {
        None => {
            return None;
        },
        Some(p) => p,
    };
    let parsed = decode_components_update(bytes, c3);
    let (cu, end) = match parsed {
        None => {
            return None;
        },
        Some(p) => p,
    };
    if end != bytes.len() {
        proof {
            assert forall|t: u64, base2: u64, bitmap2: u32, s: Seq<(u64, Seq<u8>)>|
                !input_message_run(bytes@, t, base2, bitmap2, s) by {
                if input_message_run(bytes@, t, base2, bitmap2, s) {
                    assert(end == 20 + spec_encode_counted(s).len());
                }
            }
        }
        return None;
    }
    let mut inputs: QueuedInputs<Vec<u8>> = QueuedInputs::new();
    let n = cu.len();
    let mut i: usize = 0;
    proof {
        inputs.lemma_byte_pairs();
        assert(inputs.byte_pairs().len() == 0);
        cu.lemma_pairs();
        assert(inputs.byte_view() =~= entries_to_map(cu.pairs().take(0)));
    }
    while i < n
        invariant
            cu.wf(),
            n == cu.pairs().len(),
            i <= n,
            inputs.wf(),
            inputs.byte_view() == entries_to_map(cu.pairs().take(i as int)),
        decreases n - i,
    {
        let id = cu.id_at(i);
        let data = cu.data_at(i);
        inputs.insert_bytes(id, copy_byte_run(data));
        proof {
            let tk = cu.pairs().take(i as int + 1);
            assert(tk.drop_last() =~= cu.pairs().take(i as int));
            assert(tk.last() == cu.pairs()[i as int]);
        }
        i = i + 1;
    }
    let msg = ClientInputMessage {
        tick: NetworkTick::new(tick),
        ack: NetworkAck::from_parts(base, bitmap),
        inputs,
    };
    proof {
        lemma_auto_spec_u64_to_from_le_bytes();
        lemma_auto_spec_u32_to_from_le_bytes();
        cu.lemma_pairs();
        assert(cu.pairs().take(n as int) =~= cu.pairs());
        assert(msg.inputs.byte_view() == cu@);
        lemma_canon_of_inputs(msg.inputs);
        msg.inputs.lemma_byte_pairs();
        lemma_sorted_entries_canonical(msg.inputs.byte_pairs(), cu.pairs());
        assert(bytes@.subrange(0, bytes@.len() as int) =~= bytes@);
        assert(bytes@ =~= bytes@.subrange(0, 8) + bytes@.subrange(8, 16) + bytes@.subrange(16, 20)
            + bytes@.subrange(20, bytes@.len() as int));
        assert(bytes@ =~= spec_encode_input_message(
            msg.tick.spec_tick(),
            msg.ack.spec_base(),
            msg.ack.spec_bitmap(),
            msg.inputs.byte_view(),
        ));
        assert forall|t: u64, base2: u64, bitmap2: u32, s: Seq<(u64, Seq<u8>)>|
            #[trigger] input_message_run(bytes@, t, base2, bitmap2, s) implies msg.tick.spec_tick()
            == t && msg.ack.spec_base() == base2 && msg.ack.spec_bitmap() == bitmap2
            && msg.inputs.byte_view() == entries_to_map(s) by {
            assert(cu@ == entries_to_map(s));
        }
    }
    return Some(msg);
}

} // verus!
