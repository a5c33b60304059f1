//! A flash queue with a RAM ring in front of it.

use vstd::prelude::*;

use crate::drain::{Action, Task};
use crate::outbox::Outbox;
use crate::OverflowPolicy;

verus! {

use crate::drain::{
    action_after, after_enqueue, after_hand_out, after_report, after_settle, filled, goes_on,
    next_action, RingState,
};
use crate::model::{accepted, bytes_of, oldest_len_of, MAX_ITEM_BYTES};

/// A write-buffered queue that accepts items into a RAM ring and hands them out for commitment to
/// flash.
///
/// - `S`: the flash queue. This type only keeps it; the caller reads and writes it.
/// - `RAM_BYTES`: capacity of the RAM ring in bytes (includes two bytes of overhead per item).
pub struct BufferedQueue<S, const RAM_BYTES: usize> {
    storage: S,
    ram: Outbox<RAM_BYTES>,
}

/// What a [`BufferedQueue`] stands for.
pub ghost struct QueueView<S> {
    /// The flash queue.
    pub storage: S,
    /// The ring: the items that have not been committed to flash yet, and whether the oldest one is
    /// being written.
    pub ring: RingState,
}

impl<S, const RAM_BYTES: usize> View for BufferedQueue<S, RAM_BYTES> {
    type V = QueueView<S>;

    closed spec fn view(&self) -> QueueView<S> {
        QueueView { storage: self.storage, ring: self.ram@ }
    }
}

impl<S, const RAM_BYTES: usize> BufferedQueue<S, RAM_BYTES> {
    /// Puts an empty RAM ring in front of an existing flash queue.
    pub fn new(storage: S) -> (queue: Self)
        ensures
            queue@.storage == storage,
            queue@.ring == (RingState { items: Seq::empty(), lent: false }),
    {
        BufferedQueue { storage, ram: Outbox::new() }
    }

    /// Enqueues an item into the RAM ring.
    ///
    /// This never touches flash. When the ring is full, `policy` decides: return `Err(())`, with
    /// everything as it was, or evict the oldest items.
    pub fn enqueue(&mut self, data: &[u8], policy: OverflowPolicy) -> (result: Result<(), ()>)
        ensures
            result is Ok <==> accepted(old(self)@.ring.items, data@, RAM_BYTES as nat, policy),
            final(self)@.storage == old(self)@.storage,
            final(self)@.ring == after_enqueue(old(self)@.ring, data@, RAM_BYTES as nat, policy),
    {
        self.ram.enqueue(data, policy)
    }

    /// Starts a drain.
    ///
    /// Where the next action is a write, the item to write has been copied to the front of
    /// `scratch`. An item that does not fit in `scratch` is not handed out, nor is any behind it:
    /// size `scratch` for the largest pending item.
    pub fn begin<E>(&mut self, task: Task, scratch: &mut [u8]) -> (action: Action<E>)
        ensures
            action == next_action::<E>(task, old(self)@.ring.items, old(scratch)@.len()),
            final(scratch)@ == filled(old(self)@.ring.items, old(scratch)@),
            final(self)@.storage == old(self)@.storage,
            final(self)@.ring == after_hand_out(old(self)@.ring, old(scratch)@.len()),
    {
        self.ram.begin(task, scratch)
    }

    /// Goes on with a drain after the write that it asked for.
    ///
    /// `written` is the result of that write. Only if it succeeded, the item that was written leaves
    /// the ring. Where the next action is a write again, its item has been copied to the front of
    /// `scratch`.
    pub fn resume<E>(&mut self, task: Task, scratch: &mut [u8], written: Result<(), E>) -> (action:
        Action<E>)
        ensures
            final(self)@.storage == old(self)@.storage,
            final(self)@.ring == after_report(
                task,
                old(self)@.ring,
                old(scratch)@.len(),
                written,
            ),
            action == action_after(
                task,
                after_settle(old(self)@.ring, written).items,
                old(scratch)@.len(),
                written,
            ),
            final(scratch)@ == if goes_on(task, written) {
                filled(after_settle(old(self)@.ring, written).items, old(scratch)@)
            } else {
                old(scratch)@
            },
    {
        self.ram.resume(task, scratch, written)
    }

    /// Total capacity of the RAM ring in bytes (including the length prefixes).
    pub fn ram_capacity_bytes() -> (capacity: usize)
        ensures
            capacity == RAM_BYTES,
    {
        RAM_BYTES
    }

    /// Free bytes remaining in the RAM ring.
    pub fn ram_free_bytes(&self) -> (free: usize)
        ensures
            free == RAM_BYTES - bytes_of(self@.ring.items),
    {
        RAM_BYTES - self.ram.bytes_used()
    }

    /// Byte length of the oldest item in the RAM ring, or `None` if the ring is empty.
    ///
    /// A scratch buffer of this size is enough to drain one item.
    pub fn oldest_ram_item_len(&self) -> (len: Option<usize>)
        ensures
            len == oldest_len_of(self@.ring.items),
            self@.ring.items.len() > 0 ==> self@.ring.items[0].len() <= MAX_ITEM_BYTES,
    {
        self.ram.oldest_len()
    }

    /// Number of items currently buffered in RAM (not yet committed to flash).
    pub fn ram_pending_count(&self) -> (count: usize)
        ensures
            count == self@.ring.items.len(),
    {
        self.ram.len()
    }

    /// Bytes currently occupied in the RAM ring (including the length prefixes).
    pub fn ram_bytes_used(&self) -> (used: usize)
        ensures
            used == bytes_of(self@.ring.items),
            used <= RAM_BYTES,
    {
        self.ram.bytes_used()
    }

    /// Mutable reference to the flash queue, for direct access.
    pub fn storage(&mut self) -> (storage: &mut S)
        ensures
            *storage == old(self)@.storage,
            final(self)@.storage == *final(storage),
            final(self)@.ring == old(self)@.ring,
    {
        &mut self.storage
    }

    /// Gives back the flash queue. **Any items still in the RAM ring are discarded.**
    pub fn into_storage(self) -> (storage: S)
        ensures
            storage == self@.storage,
    {
        self.storage
    }
}

} // verus!
