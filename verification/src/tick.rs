//! The logical clock shared between server and clients, the ack bitmap
//! carried on input messages, and the client-side clock correction rule.

use vstd::prelude::*;

verus! {

use crate::FRAME_BUFFER;

/// Monotonic logical time step of the simulation. All replicated state is
/// versioned by tick; equality and ordering are numeric.
#[derive(Clone, Copy, Debug, PartialEq, Eq, Structural, Hash, PartialOrd, Ord)]
pub struct NetworkTick {
    tick: u64,
}

impl NetworkTick {
    pub closed spec fn spec_tick(self) -> u64 {
        self.tick
    }

    pub fn new(tick: u64) -> (r: Self)
        ensures
            r.spec_tick() == tick,
    {
        Self { tick }
    }

    pub fn tick(&self) -> (r: u64)
        ensures
            r == self.spec_tick(),
    {
        self.tick
    }

    /// Advance the clock by one simulation step.
    pub fn increment(&mut self)
        requires
            old(self).spec_tick() < u64::MAX,
        ensures
            final(self).spec_tick() == old(self).spec_tick() + 1,
    {
        self.tick = self.tick + 1;
    }
}

/// A base tick plus a fixed-width bitmap of prior ticks acknowledged.
/// Bit `i` set means tick `base - 1 - i` was received.
#[derive(Clone, Copy, Debug, PartialEq, Eq, Structural)]
pub struct NetworkAck {
    base: u64,
    bitmap: u32,
}

impl NetworkAck {
    pub closed spec fn spec_base(self) -> u64 {
        self.base
    }

    pub closed spec fn spec_bitmap(self) -> u32 {
        self.bitmap
    }

    /// An ack whose base is `tick` with an empty bitmap; the application
    /// fills the bitmap from observed receipts.
    pub fn new(tick: NetworkTick) -> (r: Self)
        ensures
            r.spec_base() == tick.spec_tick(),
            r.spec_bitmap() == 0,
    {
        Self { base: tick.tick(), bitmap: 0 }
    }

    /// Reassemble an ack from its wire fields.
    pub fn from_parts(base: u64, bitmap: u32) -> (r: Self)
        ensures
            r.spec_base() == base,
            r.spec_bitmap() == bitmap,
    {
        Self { base, bitmap }
    }

    pub fn base(&self) -> (r: u64)
        ensures
            r == self.spec_base(),
    {
        self.base
    }

    pub fn bitmap(&self) -> (r: u32)
        ensures
            r == self.spec_bitmap(),
    {
        self.bitmap
    }

    /// Record receipt of the tick `offset + 1` steps before the base.
    pub fn set_ack(&mut self, offset: u32)
        requires
            offset < 32,
        ensures
            final(self).spec_base() == old(self).spec_base(),
            final(self).spec_bitmap() == (old(self).spec_bitmap() | (1u32 << offset)),
    {
        self.bitmap = self.bitmap | (1u32 << offset);
    }

    /// Whether the tick `offset + 1` steps before the base was acknowledged.
    pub fn is_acked(&self, offset: u32) -> (r: bool)
        requires
            offset < 32,
        ensures
            r == ((self.spec_bitmap() >> offset) & 1 == 1),
    {
        (self.bitmap >> offset) & 1 == 1
    }
}

/// The rate adjustment the clock correction rule asks of the simulation:
/// the application scales its timestep by a small factor accordingly.
#[derive(Clone, Copy, Debug, PartialEq, Eq, Structural)]
pub enum RateAdjust {
    /// Run the local simulation slightly faster.
    Accelerate,
    /// Run the local simulation slightly slower.
    Decelerate,
    /// Run at the nominal rate.
    Nominal,
}

/// What one application of the clock correction rule decided: the
/// (possibly hard-jumped) client tick and the rate adjustment.
#[derive(Clone, Copy, Debug, PartialEq, Eq, Structural)]
pub struct ClockCorrection {
    pub tick: NetworkTick,
    pub adjust: RateAdjust,
}

/// The corrected client tick: a hard jump to `message_tick + FRAME_BUFFER`
/// when the server is ahead of the client, otherwise unchanged.
pub open spec fn spec_corrected_tick(client_tick: u64, message_tick: u64) -> u64 {
    if client_tick < message_tick {
        (message_tick + FRAME_BUFFER) as u64
    } else {
        client_tick
    }
}

/// The rate adjustment for a given lead `diff = client_tick - message_tick`
/// (computed before any hard jump): nominal exactly at `FRAME_BUFFER`,
/// accelerate above it, decelerate below it.
pub open spec fn spec_rate_adjust(client_tick: u64, message_tick: u64) -> RateAdjust {
    if client_tick >= message_tick + FRAME_BUFFER {
        if client_tick == message_tick + FRAME_BUFFER {
            RateAdjust::Nominal
        } else {
            RateAdjust::Accelerate
        }
    } else {
        RateAdjust::Decelerate
    }
}

/// Apply the clock correction rule for one received message tick.
///
/// When the server is ahead of the client (`client_tick < message_tick`)
/// the client tick hard-jumps to `message_tick + FRAME_BUFFER`; otherwise
/// it is unchanged. The rate adjustment is decided from the client's lead
/// over the message tick as it was before the jump.
pub fn correct_clock(client_tick: NetworkTick, message_tick: NetworkTick) -> (r: ClockCorrection)
    requires
        message_tick.spec_tick() + FRAME_BUFFER <= u64::MAX,
    ensures
        r.tick.spec_tick() == spec_corrected_tick(client_tick.spec_tick(), message_tick.spec_tick()),
        r.adjust == spec_rate_adjust(client_tick.spec_tick(), message_tick.spec_tick()),
{
    let c = client_tick.tick();
    let m = message_tick.tick();
    let tick = if c < m {
        NetworkTick::new(m + FRAME_BUFFER)
    } else {
        client_tick
    };
    let adjust = if c >= m && c - m >= FRAME_BUFFER {
        if c - m == FRAME_BUFFER {
            RateAdjust::Nominal
        } else {
            RateAdjust::Accelerate
        }
    } else {
        RateAdjust::Decelerate
    };
    ClockCorrection { tick, adjust }
}

/// Clock correction drives the client toward `message_tick + FRAME_BUFFER`
/// under a constant server tick:
/// - a client that is behind the server reaches the target in one step;
/// - the target is a fixed point, and at it the rate is nominal;
/// - a client not behind the server never has its tick changed by the
///   rule itself (only its rate), so repeated application is constant
///   after the first step in every case.
pub proof fn lemma_clock_correction_monotone(client_tick: u64, message_tick: u64)
    requires
        message_tick + FRAME_BUFFER <= u64::MAX,
    ensures
        client_tick < message_tick ==> spec_corrected_tick(client_tick, message_tick)
            == message_tick + FRAME_BUFFER,
        client_tick >= message_tick ==> spec_corrected_tick(client_tick, message_tick)
            == client_tick,
        spec_corrected_tick(spec_corrected_tick(client_tick, message_tick), message_tick)
            == spec_corrected_tick(client_tick, message_tick),
        spec_corrected_tick((message_tick + FRAME_BUFFER) as u64, message_tick)
            == message_tick + FRAME_BUFFER,
        spec_rate_adjust((message_tick + FRAME_BUFFER) as u64, message_tick)
            == RateAdjust::Nominal,
{
}

} // verus!
