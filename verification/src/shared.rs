//! A RAM ring that interrupt handlers and a drain task share.
//!
//! [`SharedRamRing`] keeps a ring in a critical-section mutex, so that it can be enqueued to from an
//! interrupt handler. Each access to the ring is a critical section of its own, in which one step of
//! [`Outbox`][crate::outbox::Outbox] is run: none is held while an item is being written to flash.
//!
//! The ring changes behind a shared reference, and between two accesses other contexts may change
//! it. So a contract here does not speak of the ring itself. It says which steps were run, on which
//! arguments, and what became of their results. Each call goes to the ring in a visit, and its
//! contract gives the [`trace`][crate::trace] of that visit whole: one step. Of other visits, which
//! any context may make at any time, nothing is said. What a step does to a ring stands in its own
//! contract, and what any sequence of steps comes to stands in [`history`][crate::history].

use core::future::Future;

use vstd::prelude::*;

use crate::drain::{Action, Task};
use crate::guard::{RingGuard, Stored, Visit, WakeSignal};
use crate::outbox::Outbox;
use crate::OverflowPolicy;

verus! {

use crate::drain::{action_after, after_settle, filled, goes_on, next_action, RingState};
use crate::model::{accepted, admissible, bytes_of, oldest_len_of, storable};
use crate::trace::{Request, Step};

/// A RAM ring that can be shared with interrupt handlers, with a signal that wakes a drain task
/// when an item is enqueued.
///
/// Drains take the flash queue from their caller, so that flash access remains exclusive to one
/// task.
#[verifier::reject_recursive_types(N)]
pub struct SharedRamRing<const N: usize> {
    ring: RingGuard<N>,
    signal: WakeSignal,
}

impl<const N: usize> SharedRamRing<N> {
    /// The ring that the mutex was made with. It does not follow what the accesses do later on.
    pub closed spec fn made_with(self) -> RingState {
        self.ring.made_with()
    }

    /// Whether `result` is what an access to this very ring gave that enqueued `data` under `policy`.
    pub closed spec fn enqueued_here(
        self,
        data: &[u8],
        policy: OverflowPolicy,
        result: Result<(), ()>,
    ) -> bool {
        self.ring.enqueued_here(data, policy, result)
    }

    /// Whether an access to this very ring stored `data` under `policy`, and with the evidence of
    /// that the signal of this very ring was raised.
    pub closed spec fn announced(self, data: &[u8], policy: OverflowPolicy) -> bool {
        exists|stored: Stored| #[trigger]
            self.ring.stored_here(data, policy, stored)
                && call_ensures(WakeSignal::raise, (&self.signal, stored), ())
    }

    /// Whether `action` is what an access to this very ring gave that started a drain into `bytes`.
    pub closed spec fn begun_here<E>(self, task: Task, bytes: &mut [u8], action: Action<E>) -> bool {
        self.ring.begun_here(task, bytes, action)
    }

    /// Whether `action` is what an access to this very ring gave that took the report `written` and
    /// then went on with the drain into `bytes`.
    pub closed spec fn resumed_here<E>(
        self,
        task: Task,
        bytes: &mut [u8],
        written: Result<(), E>,
        action: Action<E>,
    ) -> bool {
        self.ring.resumed_here(task, bytes, written, action)
    }

    /// Whether `count` is what an access to this very ring gave that counted its items.
    pub closed spec fn counted_here(self, count: usize) -> bool {
        self.ring.counted_here(count)
    }

    /// Whether `used` is what an access to this very ring gave that asked for its occupied bytes.
    pub closed spec fn used_here(self, used: usize) -> bool {
        self.ring.used_here(used)
    }

    /// Whether `len` is what an access to this very ring gave that asked for its oldest item.
    pub closed spec fn oldest_here(self, len: Option<usize>) -> bool {
        self.ring.oldest_here(len)
    }

    /// Whether a visit to this very ring has come to its end, and `trace` lists all that it did.
    pub closed spec fn visited(self, trace: Seq<Step>) -> bool {
        exists|visit: Visit<N>|
            #![trigger call_ensures(Visit::<N>::end, (visit,), ())]
            call_ensures(Visit::<N>::end, (visit,), ()) && visit.guard() == self.ring
                && visit.trace() == trace
    }

    /// The signal.
    pub closed spec fn wake_signal(self) -> WakeSignal {
        self.signal
    }

    /// An empty ring whose signal has not been raised.
    pub fn new() -> (shared: Self)
        ensures
            shared.made_with() == (RingState { items: Seq::empty(), lent: false }),
    {
        SharedRamRing { ring: RingGuard::new(Outbox::new()), signal: WakeSignal::new() }
    }

    /// Enqueues an item. Can be called from any context, including interrupt handlers.
    ///
    /// Raises the signal after a successful enqueue, so that the drain task wakes without polling.
    /// Returns `Err(())` if the item does not fit in the ring at all, or if the ring is full and
    /// `policy` is [`OverflowPolicy::Error`].
    pub fn enqueue(&self, data: &[u8], policy: OverflowPolicy) -> (result: Result<(), ()>)
        ensures
            self.enqueued_here(data, policy, result),
            result is Ok ==> self.announced(data, policy),
            exists|outbox: &mut Outbox<N>|
                call_ensures(Outbox::<N>::enqueue, (outbox, data, policy), result),
            exists|items: Seq<Seq<u8>>| #[trigger]
                admissible(items, N as nat) && (result is Ok <==> accepted(
                    items,
                    data@,
                    N as nat,
                    policy,
                )),
            exists|found: RingState|
                {
                    &&& #[trigger] admissible(found.items, N as nat)
                    &&& result is Ok <==> accepted(found.items, data@, N as nat, policy)
                    &&& self.visited(
                        seq![Step { found, request: Request::Enqueue { data: data@, policy } }],
                    )
                },
            !storable(data@, N as nat) ==> result is Err,
            policy == OverflowPolicy::DiscardOldest && storable(data@, N as nat) ==> result is Ok,
    {
        let mut visit = Visit::start(&self.ring);
        let result: Result<Stored, ()> = visit.enqueue(data, policy);
        assert(visit.trace() =~= seq![visit.trace()[0]]);
        visit.end();
        match result {
            Ok(stored) => {
                self.signal.raise(stored);
                Ok(())
            },
            Err(()) => Err(()),
        }
    }

    /// A future that completes once an item has been enqueued since the last wait.
    pub fn wait(&self) -> (future: impl Future<Output = ()> + '_)
        ensures
            call_ensures(WakeSignal::raised, (&self.wake_signal(),), future),
    {
        self.signal.raised()
    }

    /// Starts a drain.
    ///
    /// Where the next action is a write, the item to write has been copied to the front of
    /// `scratch`. An item that does not fit in `scratch` is not handed out, nor is any behind it:
    /// size `scratch` for the largest pending item.
    pub fn begin<E>(&self, task: Task, scratch: &mut [u8]) -> (action: Action<E>)
        ensures
            exists|bytes: &mut [u8]|
                bytes@ == old(scratch)@ && final(bytes)@ == final(scratch)@ && #[trigger]
                self.begun_here(task, bytes, action),
            exists|outbox: &mut Outbox<N>, bytes: &mut [u8]|
                bytes@ == old(scratch)@ && final(bytes)@ == final(scratch)@ && call_ensures(
                    Outbox::<N>::begin::<E>,
                    (outbox, task, bytes),
                    action,
                ),
            exists|items: Seq<Seq<u8>>| #[trigger]
                admissible(items, N as nat) && action == next_action::<E>(
                    task,
                    items,
                    old(scratch)@.len(),
                ) && final(scratch)@ == filled(items, old(scratch)@),
            exists|found: RingState|
                {
                    &&& #[trigger] admissible(found.items, N as nat)
                    &&& action == next_action::<E>(task, found.items, old(scratch)@.len())
                    &&& final(scratch)@ == filled(found.items, old(scratch)@)
                    &&& self.visited(
                        seq![
                            Step {
                                found,
                                request: Request::Begin { task, scratch: old(scratch)@.len() },
                            },
                        ],
                    )
                },
    {
        let mut visit = Visit::start(&self.ring);
        let action: Action<E> = visit.begin(task, scratch);
        assert(visit.trace() =~= seq![visit.trace()[0]]);
        visit.end();
        proof {
            let bytes = choose|bytes: &mut [u8]|
                bytes@ == old(scratch)@ && final(bytes)@ == final(scratch)@ && #[trigger]
                self.ring.begun_here(task, bytes, action);
            assert(self.begun_here(task, bytes, action));
        }
        action
    }

    /// Goes on with a drain after the write that it asked for.
    ///
    /// `written` is the result of that write. Only if it succeeded, the item that was written leaves
    /// the ring; if another context has evicted it in the meantime, no other item leaves in its
    /// place. Where the next action is a write again, its item has been copied to the front of
    /// `scratch`.
    pub fn resume<E>(&self, task: Task, scratch: &mut [u8], written: Result<(), E>) -> (action:
        Action<E>)
        ensures
            exists|bytes: &mut [u8]|
                bytes@ == old(scratch)@ && final(bytes)@ == final(scratch)@ && #[trigger]
                self.resumed_here(task, bytes, written, action),
            exists|outbox: &mut Outbox<N>, bytes: &mut [u8]|
                bytes@ == old(scratch)@ && final(bytes)@ == final(scratch)@ && call_ensures(
                    Outbox::<N>::resume::<E>,
                    (outbox, task, bytes, written),
                    action,
                ),
            exists|items: Seq<Seq<u8>>| #[trigger]
                admissible(items, N as nat) && action == action_after(
                    task,
                    items,
                    old(scratch)@.len(),
                    written,
                ) && final(scratch)@ == if goes_on(task, written) {
                    filled(items, old(scratch)@)
                } else {
                    old(scratch)@
                },
            exists|found: RingState|
                {
                    let items = after_settle(found, written).items;
                    &&& #[trigger] admissible(found.items, N as nat)
                    &&& action == action_after(task, items, old(scratch)@.len(), written)
                    &&& final(scratch)@ == if goes_on(task, written) {
                        filled(items, old(scratch)@)
                    } else {
                        old(scratch)@
                    }
                    &&& self.visited(
                        seq![
                            Step {
                                found,
                                request: Request::Resume {
                                    task,
                                    scratch: old(scratch)@.len(),
                                    stored: written is Ok,
                                },
                            },
                        ],
                    )
                },
    {
        let mut visit = Visit::start(&self.ring);
        let action: Action<E> = visit.resume(task, scratch, written);
        assert(visit.trace() =~= seq![visit.trace()[0]]);
        visit.end();
        proof {
            let bytes = choose|bytes: &mut [u8]|
                bytes@ == old(scratch)@ && final(bytes)@ == final(scratch)@ && #[trigger]
                self.ring.resumed_here(task, bytes, written, action);
            assert(self.resumed_here(task, bytes, written, action));
        }
        action
    }

    /// Total capacity of the ring in bytes (including the length prefixes).
    pub fn ram_capacity_bytes() -> (capacity: usize)
        ensures
            capacity == N,
    {
        N
    }

    /// Bytes currently occupied in the ring (including the length prefixes).
    pub fn ram_bytes_used(&self) -> (used: usize)
        ensures
            self.used_here(used),
            exists|outbox: &Outbox<N>| call_ensures(Outbox::<N>::bytes_used, (outbox,), used),
            exists|items: Seq<Seq<u8>>| #[trigger]
                admissible(items, N as nat) && used == bytes_of(items),
            exists|found: RingState| #[trigger]
                admissible(found.items, N as nat) && used == bytes_of(found.items) && self.visited(
                    seq![Step { found, request: Request::Look }],
                ),
            used <= N,
    {
        let mut visit = Visit::start(&self.ring);
        let used: usize = visit.bytes_used();
        assert(visit.trace() =~= seq![visit.trace()[0]]);
        visit.end();
        used
    }

    /// Free bytes remaining in the ring.
    pub fn ram_free_bytes(&self) -> (free: usize)
        ensures
            exists|used: usize| #[trigger] self.used_here(used) && free == N - used,
            exists|outbox: &Outbox<N>, used: usize| #[trigger]
                call_ensures(Outbox::<N>::bytes_used, (outbox,), used) && free == N - used,
            exists|items: Seq<Seq<u8>>| #[trigger]
                admissible(items, N as nat) && free == N - bytes_of(items),
            exists|found: RingState| #[trigger]
                admissible(found.items, N as nat) && free == N - bytes_of(found.items) && self.visited(
                    seq![Step { found, request: Request::Look }],
                ),
            free <= N,
    {
        N - self.ram_bytes_used()
    }

    /// Number of items currently buffered in the ring.
    pub fn ram_pending_count(&self) -> (count: usize)
        ensures
            self.counted_here(count),
            exists|outbox: &Outbox<N>| call_ensures(Outbox::<N>::len, (outbox,), count),
            exists|items: Seq<Seq<u8>>| #[trigger]
                admissible(items, N as nat) && count == items.len(),
            exists|found: RingState| #[trigger]
                admissible(found.items, N as nat) && count == found.items.len() && self.visited(
                    seq![Step { found, request: Request::Look }],
                ),
    {
        let mut visit = Visit::start(&self.ring);
        let count: usize = visit.len();
        assert(visit.trace() =~= seq![visit.trace()[0]]);
        visit.end();
        count
    }

    /// Byte length of the oldest item in the ring, or `None` if the ring is empty.
    pub fn oldest_ram_item_len(&self) -> (len: Option<usize>)
        ensures
            self.oldest_here(len),
            exists|outbox: &Outbox<N>| call_ensures(Outbox::<N>::oldest_len, (outbox,), len),
            exists|items: Seq<Seq<u8>>| #[trigger]
                admissible(items, N as nat) && len == oldest_len_of(items),
            exists|found: RingState| #[trigger]
                admissible(found.items, N as nat) && len == oldest_len_of(found.items) && self.visited(
                    seq![Step { found, request: Request::Look }],
                ),
    {
        let mut visit = Visit::start(&self.ring);
        let len: Option<usize> = visit.oldest_len();
        assert(visit.trace() =~= seq![visit.trace()[0]]);
        visit.end();
        len
    }
}

impl<const N: usize> Default for SharedRamRing<N> {
    fn default() -> (shared: Self)
        ensures
            shared.made_with() == (RingState { items: Seq::empty(), lent: false }),
    {
        Self::new()
    }
}

} // verus!
