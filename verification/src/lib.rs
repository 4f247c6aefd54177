//! Tick-synchronized state replication runtime for a deterministic,
//! client–server simulation: snapshot store with rewind, entity identity
//! mapping, sliding-window input queues, per-client interest selection
//! under a byte budget, and the wire codec for the two message types.

use vstd::prelude::*;

pub mod codec;
pub mod identity;
pub mod input;
pub mod interest;
pub mod ordmap;
pub mod pipeline;
pub mod tick;
pub mod update;

verus! {

/// Target play-out delay, in ticks, between the newest server tick the
/// client has seen and the client's own tick.
pub const FRAME_BUFFER: u64 = 6;

/// Inputs are kept only while they are within this many ticks of the
/// newest buffered input.
pub const INPUT_RETAIN_BUFFER: u64 = 6;

/// Snapshots are kept only while they are within this many ticks of the
/// newest stored snapshot.
pub const SNAPSHOT_RETAIN_BUFFER: u64 = 16;

/// The ping, in milliseconds, the clock correction aims the transport at.
pub const TARGET_PING: i64 = 60;

} // verus!
