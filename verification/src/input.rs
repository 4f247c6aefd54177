//! The input pipeline: a sliding window of client inputs keyed by tick,
//! buffered on the client for resimulation and merged per client on the
//! server.

use vstd::prelude::*;

verus! {

use crate::ordmap::{deep_pairs, deep_view, lemma_deep_view, OrdMap};
use crate::tick::{NetworkAck, NetworkTick};
use crate::INPUT_RETAIN_BUFFER;

/// A map restricted to the keys at or above a bound.
pub open spec fn window_ge<I>(m: Map<u64, I>, lo: u64) -> Map<u64, I> {
    Map::new(|t: u64| m.contains_key(t) && t >= lo, |t: u64| m[t])
}

/// Inputs keyed by the tick they were sampled on. The queue retains only
/// ticks within `INPUT_RETAIN_BUFFER` of the newest buffered tick.
pub struct QueuedInputs<I> {
    data: OrdMap<I>,
}

impl<I> View for QueuedInputs<I> {
    type V = Map<u64, I>;

    closed spec fn view(&self) -> Map<u64, I> {
        self.data@
    }
}

impl<I> QueuedInputs<I> {
    pub closed spec fn wf(self) -> bool {
        self.data.wf()
    }

    /// The (tick, input) entries in ascending tick order.
    pub closed spec fn entries(self) -> Seq<(u64, I)> {
        self.data.entry_seq()
    }

    pub fn new() -> (r: Self)
        ensures
            r.wf(),
            r@ == Map::<u64, I>::empty(),
            r.entries() == Seq::<(u64, I)>::empty(),
    {
        QueuedInputs { data: OrdMap::new() }
    }

    pub fn len(&self) -> (r: usize)
        requires
            self.wf(),
        ensures
            r == self.entries().len(),
    {
        self.data.len()
    }

    /// The tick of the entry at an index.
    pub fn tick_at(&self, i: usize) -> (r: u64)
        requires
            self.wf(),
            i < self.entries().len(),
        ensures
            r == self.entries()[i as int].0,
            self@.contains_key(r),
            self@[r] == self.entries()[i as int].1,
    {
        self.data.key_at(i)
    }

    /// The input of the entry at an index.
    pub fn input_at(&self, i: usize) -> (r: &I)
        requires
            self.wf(),
            i < self.entries().len(),
        ensures
            *r == self.entries()[i as int].1,
    {
        self.data.value_at(i)
    }

    pub fn get(&self, tick: &NetworkTick) -> (r: Option<&I>)
        requires
            self.wf(),
        ensures
            r is Some <==> self@.contains_key(tick.spec_tick()),
            r matches Some(v) ==> *v == self@[tick.spec_tick()],
    {
        self.data.get(tick.tick())
    }

    /// Insert an input for a tick, overwriting any input already buffered
    /// for that tick.
    pub fn upsert(&mut self, tick: NetworkTick, input: I)
        requires
            old(self).wf(),
        ensures
            final(self).wf(),
            final(self)@ == old(self)@.insert(tick.spec_tick(), input),
    {
        self.data.insert(tick.tick(), input);
    }

    /// Upsert, but refuse inputs for ticks already before `current`: a
    /// late retransmit must not resurrect a consumed tick.
    pub fn upsert_reject(&mut self, current: NetworkTick, tick: NetworkTick, input: I)
        requires
            old(self).wf(),
        ensures
            final(self).wf(),
            tick.spec_tick() < current.spec_tick() ==> final(self)@ == old(self)@,
            tick.spec_tick() >= current.spec_tick() ==> final(self)@ == old(self)@.insert(
                tick.spec_tick(),
                input,
            ),
    {
        if tick.tick() < current.tick() {
            return ;
        }
        self.upsert(tick, input);
    }

    /// Merge a received window into this queue, the received entries
    /// winning on shared ticks.
    pub fn apply_buffer(&mut self, other: Self)
        requires
            old(self).wf(),
            other.wf(),
        ensures
            final(self).wf(),
            final(self)@ == old(self)@.union_prefer_right(other@),
    {
        self.data.merge(other.data);
    }

    /// Evict every tick strictly before `current`.
    pub fn clean_old(&mut self, current: NetworkTick)
        requires
            old(self).wf(),
        ensures
            final(self).wf(),
            final(self)@ == window_ge(old(self)@, current.spec_tick()),
    {
        self.data.retain_ge(current.tick());
        proof {
            assert(final(self)@ =~= window_ge(old(self)@, current.spec_tick()));
        }
    }

    /// Evict every tick that has fallen out of the retention window
    /// behind the newest buffered tick.
    pub fn retain(&mut self)
        requires
            old(self).wf(),
        ensures
            final(self).wf(),
            forall|k: u64| #[trigger]
                final(self)@.contains_key(k) ==> old(self)@.contains_key(k)
                    && final(self)@[k] == old(self)@[k],
            forall|k1: u64, k2: u64|
                #![trigger final(self)@.contains_key(k1), final(self)@.contains_key(k2)]
                final(self)@.contains_key(k1) && final(self)@.contains_key(k2) ==> k2 < k1
                    + INPUT_RETAIN_BUFFER,
            forall|k: u64|
                old(self)@.contains_key(k) && (forall|k2: u64|
                    old(self)@.contains_key(k2) ==> k2 < k + INPUT_RETAIN_BUFFER)
                    ==> #[trigger] final(self)@.contains_key(k),
    {
        let ghost prev = self@;
        match self.data.max_key() {
            None => {
                proof {
                    assert forall|k: u64| !self@.contains_key(k) by {}
                }
            },
            Some(newest) => {
                let lo = if newest >= INPUT_RETAIN_BUFFER {
                    newest - INPUT_RETAIN_BUFFER + 1
                } else {
                    0
                };
                self.data.retain_ge(lo);
                proof {
                    assert forall|k1: u64, k2: u64|
                        #![trigger self@.contains_key(k1), self@.contains_key(k2)]
                        self@.contains_key(k1) && self@.contains_key(k2) implies k2 < k1
                        + INPUT_RETAIN_BUFFER by {
                        assert(k1 >= lo);
                        assert(prev.contains_key(k2));
                        assert(k2 <= newest);
                    }
                    assert forall|k: u64|
                        prev.contains_key(k) && (forall|k2: u64|
                            prev.contains_key(k2) ==> k2 < k + INPUT_RETAIN_BUFFER)
                        implies #[trigger] self@.contains_key(k) by {
                        assert(prev.contains_key(newest));
                        assert(newest < k + INPUT_RETAIN_BUFFER);
                        assert(k >= lo);
                    }
                }
            },
        }
    }

    /// Buffer the input sampled this tick and trim the window: the
    /// client-side entry point, once per simulation tick.
    pub fn push(&mut self, tick: NetworkTick, input: I)
        requires
            old(self).wf(),
        ensures
            final(self).wf(),
            forall|k: u64| #[trigger]
                final(self)@.contains_key(k) ==> old(self)@.insert(
                    tick.spec_tick(),
                    input,
                ).contains_key(k) && final(self)@[k] == old(self)@.insert(
                    tick.spec_tick(),
                    input,
                )[k],
            forall|k1: u64, k2: u64|
                #![trigger final(self)@.contains_key(k1), final(self)@.contains_key(k2)]
                final(self)@.contains_key(k1) && final(self)@.contains_key(k2) ==> k2 < k1
                    + INPUT_RETAIN_BUFFER,
            forall|k: u64|
                old(self)@.insert(tick.spec_tick(), input).contains_key(k) && (forall|k2: u64|
                    old(self)@.insert(tick.spec_tick(), input).contains_key(k2) ==> k2 < k
                        + INPUT_RETAIN_BUFFER) ==> #[trigger] final(self)@.contains_key(k),
    {
        self.upsert(tick, input);
        self.retain();
    }
}

impl QueuedInputs<Vec<u8>> {
    /// The buffered window with each input abstracted to its bytes, for
    /// the wire codec.
    pub closed spec fn byte_pairs(self) -> Seq<(u64, Seq<u8>)> {
        deep_pairs(self.data)
    }

    pub open spec fn byte_view(self) -> Map<u64, Seq<u8>> {
        crate::ordmap::entries_to_map(self.byte_pairs())
    }

    /// The byte pairs are sorted by tick, denote the byte view, mirror
    /// the entries, and fit the machine.
    pub proof fn lemma_byte_pairs(self)
        requires
            self.wf(),
        ensures
            crate::ordmap::entries_sorted(self.byte_pairs()),
            self.byte_pairs().len() == self.entries().len(),
            self.byte_pairs().len() <= usize::MAX,
            forall|i: int|
                0 <= i < self.entries().len() ==> #[trigger] self.byte_pairs()[i] == (
                    self.entries()[i].0,
                    self.entries()[i].1@,
                ) && self.byte_pairs()[i].1.len() <= usize::MAX,
    {
        lemma_deep_view(self.data);
        self.data.lemma_len_bounded();
        assert forall|i: int| 0 <= i < self.entries().len() implies #[trigger] self.byte_pairs()[i]
            == (self.entries()[i].0, self.entries()[i].1@) && self.byte_pairs()[i].1.len()
            <= usize::MAX by {
            let v = self.data.entry_seq()[i].1;
            assert(vstd::std_specs::vec::spec_vec_len(&v) == v@.len());
        }
    }

    /// Buffer one already-encoded input, as the wire decoder does.
    pub fn insert_bytes(&mut self, tick: u64, blob: Vec<u8>)
        requires
            old(self).wf(),
        ensures
            final(self).wf(),
            final(self)@ == old(self)@.insert(tick, blob),
            final(self).byte_view() == old(self).byte_view().insert(tick, blob@),
    {
        proof {
            lemma_deep_view(self.data);
        }
        self.data.insert(tick, blob);
        proof {
            lemma_deep_view(self.data);
            assert(old(self).byte_view() == deep_view(old(self).data));
            assert(final(self).byte_view() == deep_view(self.data));
            assert(deep_view(self.data) =~= deep_view(old(self).data).insert(tick, blob@));
        }
    }
}

/// Buffering the same input for the same tick twice leaves the window
/// exactly as buffering it once does: the sliding-window retransmit may
/// repeat entries freely.
pub proof fn lemma_upsert_idempotent<I>(m: Map<u64, I>, tick: u64, input: I)
    ensures
        m.insert(tick, input).insert(tick, input) == m.insert(tick, input),
{
    assert(m.insert(tick, input).insert(tick, input) =~= m.insert(tick, input));
}

/// The message a client sends each network opportunity: its current tick,
/// an ack for received server ticks, and its whole buffered input window.
pub struct ClientInputMessage<I> {
    pub tick: NetworkTick,
    pub ack: NetworkAck,
    pub inputs: QueuedInputs<I>,
}

impl<I> ClientInputMessage<I> {
    pub open spec fn wf(self) -> bool {
        self.inputs.wf()
    }

    /// Assemble the message for a send opportunity: the ack base is the
    /// tick itself, with a bitmap the transport fills in.
    pub fn new(tick: NetworkTick, inputs: QueuedInputs<I>) -> (r: Self)
        requires
            inputs.wf(),
        ensures
            r.wf(),
            r.tick == tick,
            r.ack.spec_base() == tick.spec_tick(),
            r.ack.spec_bitmap() == 0,
            r.inputs == inputs,
    {
        let ack = NetworkAck::new(tick);
        ClientInputMessage { tick, ack, inputs }
    }
}

/// Server-side store of every client's buffered input window.
pub struct PerClientQueuedInputs<I> {
    clients: OrdMap<QueuedInputs<I>>,
}

impl<I> View for PerClientQueuedInputs<I> {
    type V = Map<u64, Map<u64, I>>;

    closed spec fn view(&self) -> Map<u64, Map<u64, I>> {
        deep_view(self.clients)
    }
}

impl<I> PerClientQueuedInputs<I> {
    pub closed spec fn wf(self) -> bool {
        self.clients.wf() && forall|c: u64| #[trigger]
            self.clients@.contains_key(c) ==> self.clients@[c].wf()
    }

    pub fn new() -> (r: Self)
        ensures
            r.wf(),
            r@ == Map::<u64, Map<u64, I>>::empty(),
    {
        let r = PerClientQueuedInputs { clients: OrdMap::new() };
        proof {
            assert(deep_pairs(r.clients).len() == 0);
        }
        r
    }

    /// The input a client buffered for a tick, if any.
    pub fn get(&self, client: u64, tick: &NetworkTick) -> (r: Option<&I>)
        requires
            self.wf(),
        ensures
            r is Some <==> self@.contains_key(client) && self@[client].contains_key(
                tick.spec_tick(),
            ),
            r matches Some(v) ==> *v == self@[client][tick.spec_tick()],
    {
        proof {
            lemma_deep_view(self.clients);
        }
        match self.clients.get(client) {
            Some(queue) => queue.get(tick),
            None => None,
        }
    }

    /// Merge a window received from a client into its stored window,
    /// the received entries winning on shared ticks.
    pub fn upsert(&mut self, client: u64, input: QueuedInputs<I>)
        requires
            old(self).wf(),
            input.wf(),
        ensures
            final(self).wf(),
            old(self)@.contains_key(client) ==> final(self)@ == old(self)@.insert(
                client,
                old(self)@[client].union_prefer_right(input@),
            ),
            !old(self)@.contains_key(client) ==> final(self)@ == old(self)@.insert(
                client,
                input@,
            ),
    {
        proof {
            lemma_deep_view(self.clients);
        }
        let ghost data_prev = self.clients@;
        let ghost self_prev = self@;
        let merged = match self.clients.remove(client) {
            Some(mut queue) => {
                proof {
                    assert(queue@ == self_prev[client]);
                }
                queue.apply_buffer(input);
                queue
            },
            None => input,
        };
        self.clients.insert(client, merged);
        proof {
            lemma_deep_view(self.clients);
            assert(self.clients@ == data_prev.remove(client).insert(client, merged));
            assert forall|k: u64|
                k != client && #[trigger] self@.contains_key(k) implies self_prev.contains_key(k)
                && self@[k] == self_prev[k] by {
                assert(self.clients@.contains_key(k));
                assert(data_prev.contains_key(k));
                assert(self.clients@[k] == data_prev[k]);
            }
            assert forall|k: u64|
                k != client && self_prev.contains_key(k) implies #[trigger] self@.contains_key(
                k,
            ) by {
                assert(data_prev.contains_key(k));
                assert(self.clients@.contains_key(k));
            }
            assert(self@.contains_key(client));
            assert(self@[client] == merged@);
            if self_prev.contains_key(client) {
                assert(self@ =~= self_prev.insert(
                    client,
                    self_prev[client].union_prefer_right(input@),
                ));
            } else {
                assert(self@ =~= self_prev.insert(client, input@));
            }
        }
    }

    /// Evict, in every client's window, the ticks strictly before the
    /// server's current tick.
    pub fn clean_old(&mut self, current: NetworkTick)
        requires
            old(self).wf(),
        ensures
            final(self).wf(),
            forall|c: u64| #[trigger]
                final(self)@.contains_key(c) <==> old(self)@.contains_key(c),
            forall|c: u64| #[trigger]
                final(self)@.contains_key(c) ==> final(self)@[c] == window_ge(
                    old(self)@[c],
                    current.spec_tick(),
                ),
    {
        let ghost b = self@;
        let mut cleaned: OrdMap<QueuedInputs<I>> = OrdMap::new();
        proof {
            lemma_deep_view(self.clients);
            assert(deep_pairs(cleaned).len() == 0);
        }
        loop
            invariant
                self.wf(),
                cleaned.wf(),
                forall|c: u64| #[trigger]
                    cleaned@.contains_key(c) ==> cleaned@[c].wf(),
                forall|c: u64| #[trigger]
                    self@.contains_key(c) ==> b.contains_key(c) && self@[c] == b[c],
                forall|c: u64|
                    #![trigger cleaned@.contains_key(c)]
                    cleaned@.contains_key(c) <==> (b.contains_key(c) && !self@.contains_key(c)),
                forall|c: u64| #[trigger]
                    cleaned@.contains_key(c) ==> cleaned@[c]@ == window_ge(
                        b[c],
                        current.spec_tick(),
                    ),
            ensures
                cleaned.wf(),
                forall|c: u64| #[trigger]
                    cleaned@.contains_key(c) ==> cleaned@[c].wf(),
                forall|c: u64|
                    #![trigger cleaned@.contains_key(c)]
                    cleaned@.contains_key(c) <==> b.contains_key(c),
                forall|c: u64| #[trigger]
                    cleaned@.contains_key(c) ==> cleaned@[c]@ == window_ge(
                        b[c],
                        current.spec_tick(),
                    ),
            decreases self.clients.entry_seq().len(),
        {
            let ghost rest_prev = self@;
            proof {
                lemma_deep_view(self.clients);
            }
            let popped = self.clients.pop_last();
            match popped {
                Some((client, mut queue)) => {
                    proof {
                        lemma_deep_view(self.clients);
                        assert(rest_prev.contains_key(client));
                        assert(queue@ == rest_prev[client]);
                        assert(self@ =~= rest_prev.remove(client));
                    }
                    queue.clean_old(current);
                    cleaned.insert(client, queue);
                },
                None => {
                    proof {
                        assert(self.clients.entry_seq().len() == 0);
                        assert(deep_pairs(self.clients).len() == 0);
                        assert(self@ =~= Map::<u64, Map<u64, I>>::empty());
                    }
                    break ;
                },
            }
        }
        self.clients = cleaned;
        proof {
            lemma_deep_view(self.clients);
            assert forall|c: u64| #[trigger]
                final(self)@.contains_key(c) <==> b.contains_key(c) by {}
            assert forall|c: u64| #[trigger] final(self)@.contains_key(c) implies final(self)@[c]
                == window_ge(b[c], current.spec_tick()) by {
                assert(self.clients@.contains_key(c));
                assert(final(self)@[c] == self.clients@[c]@);
            }
        }
    }
}

} // verus!
