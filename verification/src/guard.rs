//! The synchronisation primitives of `embassy_sync`, as far as the library uses them.
//!
//! What a mutex guards, and whether a signal is raised, changes behind a shared reference. Nothing
//! is stated of either at a given moment. Of each access to a guarded ring it is stated which
//! verified step on the ring was run in the critical section, on which arguments, and that its
//! result is what came out.

use core::cell::RefCell;
use core::future::Future;

use embassy_sync::blocking_mutex::raw::CriticalSectionRawMutex;
use embassy_sync::blocking_mutex::Mutex;
use embassy_sync::signal::Signal;
use vstd::prelude::*;

use crate::drain::{Action, Task};
use crate::outbox::Outbox;
use crate::OverflowPolicy;

verus! {

use crate::drain::{action_after, after_settle, filled, goes_on, next_action, RingState};
use crate::model::{accepted, admissible, bytes_of, oldest_len_of};
use crate::trace::{Request, Step};

/// The blocking mutex of `embassy_sync`. What it guards is out of sight here.
#[verifier::external_type_specification]
#[verifier::external_body]
#[verifier::reject_recursive_types(R)]
#[verifier::reject_recursive_types(T)]
pub struct ExMutex<R, T: ?Sized>(Mutex<R, T>);

/// The raw mutex of `embassy_sync` that enters a critical section.
#[verifier::external_type_specification]
#[verifier::external_body]
pub struct ExCriticalSectionRawMutex(CriticalSectionRawMutex);

/// The cell of std that checks borrows at run time. Its contents are out of sight here.
#[verifier::external_type_specification]
#[verifier::external_body]
#[verifier::reject_recursive_types(T)]
pub struct ExRefCell<T: ?Sized>(RefCell<T>);

/// Evidence that an item has been stored in a guarded ring. Only an enqueue of a [`RingGuard`] that
/// succeeded gives one out.
pub struct Stored {
    private: (),
}

/// The result of an enqueue without the evidence.
pub open spec fn plain(result: Result<Stored, ()>) -> Result<(), ()> {
    match result {
        Ok(_) => Ok(()),
        Err(_) => Err(()),
    }
}

/// A ring in a mutex. In each method the ring is borrowed for one step on it, within a critical
/// section; no step reaches for the mutex, so that no two borrows meet.
#[verifier::reject_recursive_types(N)]
pub struct RingGuard<const N: usize> {
    mutex: Mutex<CriticalSectionRawMutex, RefCell<Outbox<N>>>,
    made_with: Ghost<RingState>,
}

impl<const N: usize> RingGuard<N> {
    /// The ring that the mutex was made with. It does not follow what the accesses do later on.
    pub closed spec fn made_with(self) -> RingState {
        self.made_with@
    }

    /// Calls `Mutex::new` on what `RefCell::new` makes of `outbox`. The contract claims that
    /// `outbox` is what the mutex guards at first.
    #[verifier::external_body]
    pub(crate) fn new(outbox: Outbox<N>) -> (guard: Self)
        ensures
            guard.made_with() == outbox@,
    {
        let made_with: Ghost<RingState> = Ghost(outbox@);
        RingGuard { mutex: Mutex::new(RefCell::new(outbox)), made_with }
    }

    /// Calls `Mutex::lock`, and in the critical section `Outbox::enqueue` on the guarded ring. The
    /// contract claims that the result is one that this step gave on `data` and `policy`, on some
    /// ring. Which ring that was is not stated.
    #[verifier::external_body]
    fn lock_and_enqueue(&self, data: &[u8], policy: OverflowPolicy) -> (result: Result<(), ()>)
        ensures
            exists|outbox: &mut Outbox<N>|
                call_ensures(Outbox::<N>::enqueue, (outbox, data, policy), result),
    {
        self.mutex.lock(|cell| cell.borrow_mut().enqueue(data, policy))
    }

    /// Whether `result` is what an access to this very ring gave that enqueued `data` under `policy`.
    pub closed spec fn enqueued_here(
        self,
        data: &[u8],
        policy: OverflowPolicy,
        result: Result<(), ()>,
    ) -> bool {
        call_ensures(RingGuard::<N>::lock_and_enqueue, (&self, data, policy), result)
    }

    /// Enqueues an item. Where it has been stored, the result holds the evidence.
    fn enqueue(&self, data: &[u8], policy: OverflowPolicy) -> (result: Result<Stored, ()>)
        ensures
            self.enqueued_here(data, policy, plain(result)),
            exists|outbox: &mut Outbox<N>|
                call_ensures(Outbox::<N>::enqueue, (outbox, data, policy), plain(result)),
    {
        match self.lock_and_enqueue(data, policy) {
            Ok(unit) => {
                assert(unit == ());
                Ok(Stored { private: unit })
            },
            Err(unit) => {
                assert(unit == ());
                Err(unit)
            },
        }
    }

    /// Whether `stored` is the evidence that an access to this very ring gave that stored `data` under
    /// `policy`.
    pub closed spec fn stored_here(
        self,
        data: &[u8],
        policy: OverflowPolicy,
        stored: Stored,
    ) -> bool {
        call_ensures(RingGuard::<N>::enqueue, (&self, data, policy), Ok(stored))
    }

    /// Whether `action` is what an access to this very ring gave that started a drain into `bytes`.
    pub closed spec fn begun_here<E>(self, task: Task, bytes: &mut [u8], action: Action<E>) -> bool {
        call_ensures(RingGuard::<N>::begin::<E>, (&self, task, bytes), action)
    }

    /// Whether `action` is what an access to this very ring gave that took the report `written` and
    /// then went on with the drain into `bytes`.
    pub closed spec fn resumed_here<E>(
        self,
        task: Task,
        bytes: &mut [u8],
        written: Result<(), E>,
        action: Action<E>,
    ) -> bool {
        call_ensures(RingGuard::<N>::resume::<E>, (&self, task, bytes, written), action)
    }

    /// Whether `count` is what an access to this very ring gave that counted its items.
    pub closed spec fn counted_here(self, count: usize) -> bool {
        call_ensures(RingGuard::<N>::len, (&self,), count)
    }

    /// Whether `used` is what an access to this very ring gave that asked for its occupied bytes.
    pub closed spec fn used_here(self, used: usize) -> bool {
        call_ensures(RingGuard::<N>::bytes_used, (&self,), used)
    }

    /// Whether `len` is what an access to this very ring gave that asked for its oldest item.
    pub closed spec fn oldest_here(self, len: Option<usize>) -> bool {
        call_ensures(RingGuard::<N>::oldest_len, (&self,), len)
    }

    /// Calls `Mutex::lock`, and in the critical section `Outbox::begin` on the guarded ring. The
    /// contract claims that the result, and the bytes left in `scratch`, are what this step gave on
    /// `task` and the bytes of `scratch`, on some ring. Which ring that was is not stated.
    #[verifier::external_body]
    fn begin<E>(&self, task: Task, scratch: &mut [u8]) -> (action: Action<E>)
        ensures
            exists|outbox: &mut Outbox<N>, bytes: &mut [u8]|
                bytes@ == old(scratch)@ && final(bytes)@ == final(scratch)@ && call_ensures(
                    Outbox::<N>::begin::<E>,
                    (outbox, task, bytes),
                    action,
                ),
    {
        self.mutex.lock(|cell| cell.borrow_mut().begin(task, scratch))
    }

    /// Calls `Mutex::lock`, and in the critical section `Outbox::resume` on the guarded ring. The
    /// contract claims that the result, and the bytes left in `scratch`, are what this step gave on
    /// `task`, the bytes of `scratch` and `written`, on some ring. Which ring that was is not stated.
    #[verifier::external_body]
    fn resume<E>(
        &self,
        task: Task,
        scratch: &mut [u8],
        written: Result<(), E>,
    ) -> (action: Action<E>)
        ensures
            exists|outbox: &mut Outbox<N>, bytes: &mut [u8]|
                bytes@ == old(scratch)@ && final(bytes)@ == final(scratch)@ && call_ensures(
                    Outbox::<N>::resume::<E>,
                    (outbox, task, bytes, written),
                    action,
                ),
    {
        self.mutex.lock(|cell| cell.borrow_mut().resume(task, scratch, written))
    }

    /// Calls `Mutex::lock`, and in the critical section `Outbox::len` on the guarded ring. The
    /// contract claims that the result is one that this step gave on some ring.
    #[verifier::external_body]
    fn len(&self) -> (count: usize)
        ensures
            exists|outbox: &Outbox<N>| call_ensures(Outbox::<N>::len, (outbox,), count),
    {
        self.mutex.lock(|cell| cell.borrow().len())
    }

    /// Calls `Mutex::lock`, and in the critical section `Outbox::bytes_used` on the guarded ring.
    /// The contract claims that the result is one that this step gave on some ring.
    #[verifier::external_body]
    fn bytes_used(&self) -> (used: usize)
        ensures
            exists|outbox: &Outbox<N>| call_ensures(Outbox::<N>::bytes_used, (outbox,), used),
    {
        self.mutex.lock(|cell| cell.borrow().bytes_used())
    }

    /// Calls `Mutex::lock`, and in the critical section `Outbox::oldest_len` on the guarded ring.
    /// The contract claims that the result is one that this step gave on some ring.
    #[verifier::external_body]
    fn oldest_len(&self) -> (len: Option<usize>)
        ensures
            exists|outbox: &Outbox<N>| call_ensures(Outbox::<N>::oldest_len, (outbox,), len),
    {
        self.mutex.lock(|cell| cell.borrow().oldest_len())
    }
}

/// A visit to a guarded ring, with the trace of all accesses that were made in it. There is no access
/// outside a visit, and each extends the trace of its visit by exactly one step. Nothing is said of
/// other visits, which any context may make at any time.
#[verifier::reject_recursive_types(N)]
pub struct Visit<'a, const N: usize> {
    guard: &'a RingGuard<N>,
    trace: Ghost<Seq<Step>>,
}

impl<'a, const N: usize> Visit<'a, N> {
    /// The guarded ring that is visited.
    pub closed spec fn guard(self) -> RingGuard<N> {
        *self.guard
    }

    /// The accesses so far.
    pub closed spec fn trace(self) -> Seq<Step> {
        self.trace@
    }

    /// A visit on which no access has been made.
    pub(crate) fn start(guard: &'a RingGuard<N>) -> (visit: Self)
        ensures
            visit.guard() == *guard,
            visit.trace() == Seq::<Step>::empty(),
    {
        Visit { guard, trace: Ghost(Seq::empty()) }
    }

    /// Ends the visit.
    pub(crate) fn end(self) {
    }

    /// Enqueues an item.
    pub(crate) fn enqueue(&mut self, data: &[u8], policy: OverflowPolicy) -> (result: Result<
        Stored,
        (),
    >)
        ensures
            final(self).guard() == old(self).guard(),
            old(self).guard().enqueued_here(data, policy, plain(result)),
            result matches Ok(stored) ==> old(self).guard().stored_here(data, policy, stored),
            exists|outbox: &mut Outbox<N>|
                call_ensures(Outbox::<N>::enqueue, (outbox, data, policy), plain(result)),
            exists|found: RingState|
                {
                    &&& #[trigger] admissible(found.items, N as nat)
                    &&& result is Ok <==> accepted(found.items, data@, N as nat, policy)
                    &&& final(self).trace() == old(self).trace().push(
                        Step { found, request: Request::Enqueue { data: data@, policy } },
                    )
                },
    {
        let result: Result<Stored, ()> = self.guard.enqueue(data, policy);
        let ghost found = choose|found: RingState| #[trigger]
            admissible(found.items, N as nat) && (result is Ok <==> accepted(
                found.items,
                data@,
                N as nat,
                policy,
            ));
        assert(admissible(found.items, N as nat) && (result is Ok <==> accepted(
            found.items,
            data@,
            N as nat,
            policy,
        ))) by {
            let outbox = choose|outbox: &mut Outbox<N>|
                call_ensures(Outbox::<N>::enqueue, (outbox, data, policy), plain(result));
            assert(admissible(outbox@.items, N as nat));
        }
        self.trace = Ghost(
            self.trace@.push(Step { found, request: Request::Enqueue { data: data@, policy } }),
        );
        result
    }

    /// Starts a drain.
    pub(crate) fn begin<E>(&mut self, task: Task, scratch: &mut [u8]) -> (action: Action<E>)
        ensures
            final(self).guard() == old(self).guard(),
            exists|bytes: &mut [u8]|
                bytes@ == old(scratch)@ && final(bytes)@ == final(scratch)@ && #[trigger]
                old(self).guard().begun_here(task, bytes, action),
            exists|outbox: &mut Outbox<N>, bytes: &mut [u8]|
                bytes@ == old(scratch)@ && final(bytes)@ == final(scratch)@ && call_ensures(
                    Outbox::<N>::begin::<E>,
                    (outbox, task, bytes),
                    action,
                ),
            exists|found: RingState|
                {
                    &&& #[trigger] admissible(found.items, N as nat)
                    &&& action == next_action::<E>(task, found.items, old(scratch)@.len())
                    &&& final(scratch)@ == filled(found.items, old(scratch)@)
                    &&& final(self).trace() == old(self).trace().push(
                        Step {
                            found,
                            request: Request::Begin { task, scratch: old(scratch)@.len() },
                        },
                    )
                },
    {
        let action: Action<E> = self.guard.begin(task, scratch);
        proof {
            let bytes = choose|bytes: &mut [u8]|
                bytes@ == old(scratch)@ && final(bytes)@ == final(scratch)@ && #[trigger]
                call_ensures(RingGuard::<N>::begin::<E>, (self.guard, task, bytes), action);
            assert(old(self).guard().begun_here(task, bytes, action));
        }
        let ghost found = choose|found: RingState| #[trigger]
            admissible(found.items, N as nat) && action == next_action::<E>(
                task,
                found.items,
                old(scratch)@.len(),
            ) && scratch@ == filled(found.items, old(scratch)@);
        assert(admissible(found.items, N as nat) && action == next_action::<E>(
            task,
            found.items,
            old(scratch)@.len(),
        ) && scratch@ == filled(found.items, old(scratch)@)) by {
            let (outbox, bytes) = choose|outbox: &mut Outbox<N>, bytes: &mut [u8]|
                bytes@ == old(scratch)@ && final(bytes)@ == scratch@ && call_ensures(
                    Outbox::<N>::begin::<E>,
                    (outbox, task, bytes),
                    action,
                );
            assert(admissible(outbox@.items, N as nat));
        }
        self.trace = Ghost(
            self.trace@.push(
                Step { found, request: Request::Begin { task, scratch: old(scratch)@.len() } },
            ),
        );
        action
    }

    /// Takes the report of a write and goes on with the drain.
    pub(crate) fn resume<E>(
        &mut self,
        task: Task,
        scratch: &mut [u8],
        written: Result<(), E>,
    ) -> (action: Action<E>)
        ensures
            final(self).guard() == old(self).guard(),
            exists|bytes: &mut [u8]|
                bytes@ == old(scratch)@ && final(bytes)@ == final(scratch)@ && #[trigger]
                old(self).guard().resumed_here(task, bytes, written, action),
            exists|outbox: &mut Outbox<N>, bytes: &mut [u8]|
                bytes@ == old(scratch)@ && final(bytes)@ == final(scratch)@ && call_ensures(
                    Outbox::<N>::resume::<E>,
                    (outbox, task, bytes, written),
                    action,
                ),
            exists|found: RingState|
                {
                    let items = after_settle(found, written).items;
                    &&& #[trigger] admissible(found.items, N as nat)
                    &&& action == action_after(task, items, old(scratch)@.len(), written)
                    &&& final(scratch)@ == if goes_on(task, written) {
                        filled(items, old(scratch)@)
                    } else {
                        old(scratch)@
                    }
                    &&& final(self).trace() == old(self).trace().push(
                        Step {
                            found,
                            request: Request::Resume {
                                task,
                                scratch: old(scratch)@.len(),
                                stored: written is Ok,
                            },
                        },
                    )
                },
    {
        let action: Action<E> = self.guard.resume(task, scratch, written);
        proof {
            let bytes = choose|bytes: &mut [u8]|
                bytes@ == old(scratch)@ && final(bytes)@ == final(scratch)@ && #[trigger]
                call_ensures(RingGuard::<N>::resume::<E>, (self.guard, task, bytes, written), action);
            assert(old(self).guard().resumed_here(task, bytes, written, action));
        }
        let ghost found = choose|found: RingState|
            {
                let items = after_settle(found, written).items;
                &&& #[trigger] admissible(found.items, N as nat)
                &&& action == action_after(task, items, old(scratch)@.len(), written)
                &&& scratch@ == if goes_on(task, written) {
                    filled(items, old(scratch)@)
                } else {
                    old(scratch)@
                }
            };
        assert({
            let items = after_settle(found, written).items;
            &&& admissible(found.items, N as nat)
            &&& action == action_after(task, items, old(scratch)@.len(), written)
            &&& scratch@ == if goes_on(task, written) {
                filled(items, old(scratch)@)
            } else {
                old(scratch)@
            }
        }) by {
            let (outbox, bytes) = choose|outbox: &mut Outbox<N>, bytes: &mut [u8]|
                bytes@ == old(scratch)@ && final(bytes)@ == scratch@ && call_ensures(
                    Outbox::<N>::resume::<E>,
                    (outbox, task, bytes, written),
                    action,
                );
            assert(admissible(outbox@.items, N as nat));
        }
        self.trace = Ghost(
            self.trace@.push(
                Step {
                    found,
                    request: Request::Resume {
                        task,
                        scratch: old(scratch)@.len(),
                        stored: written is Ok,
                    },
                },
            ),
        );
        action
    }

    /// Number of items in the ring.
    pub(crate) fn len(&mut self) -> (count: usize)
        ensures
            final(self).guard() == old(self).guard(),
            old(self).guard().counted_here(count),
            exists|outbox: &Outbox<N>| call_ensures(Outbox::<N>::len, (outbox,), count),
            exists|found: RingState| #[trigger]
                admissible(found.items, N as nat) && count == found.items.len() && final(self).trace() == old(self).trace().push(Step { found, request: Request::Look }),
    {
        let count: usize = self.guard.len();
        let ghost found = choose|found: RingState| #[trigger]
            admissible(found.items, N as nat) && count == found.items.len();
        assert(admissible(found.items, N as nat) && count == found.items.len()) by {
            let outbox = choose|outbox: &Outbox<N>|
                call_ensures(Outbox::<N>::len, (outbox,), count);
            assert(admissible(outbox@.items, N as nat));
        }
        self.trace = Ghost(self.trace@.push(Step { found, request: Request::Look }));
        count
    }

    /// Bytes currently occupied in the ring.
    pub(crate) fn bytes_used(&mut self) -> (used: usize)
        ensures
            final(self).guard() == old(self).guard(),
            old(self).guard().used_here(used),
            exists|outbox: &Outbox<N>| call_ensures(Outbox::<N>::bytes_used, (outbox,), used),
            exists|found: RingState| #[trigger]
                admissible(found.items, N as nat) && used == bytes_of(found.items) && final(self).trace() == old(self).trace().push(Step { found, request: Request::Look }),
    {
        let used: usize = self.guard.bytes_used();
        let ghost found = choose|found: RingState| #[trigger]
            admissible(found.items, N as nat) && used == bytes_of(found.items);
        assert(admissible(found.items, N as nat) && used == bytes_of(found.items)) by {
            let outbox = choose|outbox: &Outbox<N>|
                call_ensures(Outbox::<N>::bytes_used, (outbox,), used);
            assert(admissible(outbox@.items, N as nat));
        }
        self.trace = Ghost(self.trace@.push(Step { found, request: Request::Look }));
        used
    }

    /// Byte length of the oldest item, or `None` if the ring is empty.
    pub(crate) fn oldest_len(&mut self) -> (len: Option<usize>)
        ensures
            final(self).guard() == old(self).guard(),
            old(self).guard().oldest_here(len),
            exists|outbox: &Outbox<N>| call_ensures(Outbox::<N>::oldest_len, (outbox,), len),
            exists|found: RingState| #[trigger]
                admissible(found.items, N as nat) && len == oldest_len_of(found.items) && final(self).trace() == old(self).trace().push(Step { found, request: Request::Look }),
    {
        let len: Option<usize> = self.guard.oldest_len();
        let ghost found = choose|found: RingState| #[trigger]
            admissible(found.items, N as nat) && len == oldest_len_of(found.items);
        assert(admissible(found.items, N as nat) && len == oldest_len_of(found.items)) by {
            let outbox = choose|outbox: &Outbox<N>|
                call_ensures(Outbox::<N>::oldest_len, (outbox,), len);
            assert(admissible(outbox@.items, N as nat));
        }
        self.trace = Ghost(self.trace@.push(Step { found, request: Request::Look }));
        len
    }
}

/// A `Signal` of `embassy_sync` without a payload: a slot that is either raised or not.
///
/// Raising it and waiting for it change it behind a shared reference, so that nothing is stated of
/// what the slot holds. It has a struct of its own because `Signal` bounds its first parameter by a
/// trait of `embassy_sync`, which verified signatures cannot name.
#[verifier::external_body]
pub struct WakeSignal {
    inner: Signal<CriticalSectionRawMutex, ()>,
}

impl WakeSignal {
    /// Calls `Signal::new`, which makes a signal that has not been raised. That it has not been
    /// raised is not stated.
    #[verifier::external_body]
    pub(crate) fn new() -> WakeSignal {
        WakeSignal { inner: Signal::new() }
    }

    /// Calls `Signal::signal`, which raises the signal and wakes the task that waits for it. Neither
    /// effect is stated: they change the signal behind a shared reference.
    ///
    /// It takes the evidence that an item has been stored, so that nothing is announced before it is
    /// there, nor twice, and nothing that was refused.
    #[verifier::external_body]
    pub(crate) fn raise(&self, _stored: Stored) {
        self.inner.signal(())
    }

    /// Calls `Signal::wait`, which gives a future that completes once the signal is raised, and then
    /// lowers it. Nothing is stated of the future.
    #[verifier::external_body]
    pub fn raised(&self) -> impl Future<Output = ()> + '_ {
        self.inner.wait()
    }
}

} // verus!
