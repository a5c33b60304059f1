//! A RAM-buffered queue in front of a flash queue.
//!
//! NOR flash writes are slow and erases are very slow. If a producer emits data faster than the
//! flash can commit it, [`BufferedQueue`] accepts items into a fixed-size RAM ring through the
//! synchronous [`enqueue`][BufferedQueue::enqueue] call, which does no flash I/O, and hands them
//! out for commitment to flash through a [`drain`] that the caller drives.
//!
//! # Overflow policy
//!
//! When the RAM ring is full, what [`enqueue`][BufferedQueue::enqueue] does is controlled by
//! [`OverflowPolicy`]: either return `Err(())` or silently evict the oldest buffered items.
//!
//! # Ordering
//!
//! FIFO ordering is preserved. A pop or a peek drains the pending RAM items to flash first, then
//! reads from flash.
//!
//! # Power-fail note
//!
//! Items that are in the RAM ring and have not yet been drained to flash **will be lost** on power
//! loss.
//!
//! # Use from interrupt handlers
//!
//! [`SharedRamRing`] guards the ring with a critical-section mutex, so that it can be enqueued to
//! from an interrupt handler, and raises a signal to wake a drain task the moment data arrives.

use vstd::prelude::*;

mod buffered;
pub mod drain;
mod guard;
pub mod history;
pub mod laws;
pub mod model;
pub mod outbox;
mod ram_ring;
pub mod shared;
pub mod trace;

pub use buffered::{BufferedQueue, QueueView};
pub use ram_ring::RamRing;
pub use shared::SharedRamRing;

verus! {

/// Controls what happens when an item is enqueued into a full RAM ring.
#[derive(Debug, Clone, Copy, PartialEq, Eq, Structural)]
pub enum OverflowPolicy {
    /// Return `Err(())`: the caller decides whether to drop the item or to drain first.
    Error,
    /// Silently discard the oldest buffered items to make room for the new one.
    ///
    /// The new item is always accepted as long as it fits in the ring at all: it may have up to
    /// `u16::MAX` bytes, and with its two-byte length prefix it must not exceed the capacity.
    DiscardOldest,
}

} // verus!
