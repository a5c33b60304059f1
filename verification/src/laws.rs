//! What the operations do, told from what goes into them and what comes out.
//!
//! Each law speaks of calls: of a ring as it was before a call and as the call left it, of the
//! arguments and of the result. Where a law speaks of two calls, the second finds the ring as the
//! first left it, or as the law says.

use vstd::prelude::*;

use crate::drain::{Action, Task};
use crate::outbox::Outbox;
use crate::{BufferedQueue, OverflowPolicy, RamRing, SharedRamRing};

verus! {

use crate::drain::RingState;
use crate::model::{admissible, bytes_of, law_bytes_add_up, law_eviction_is_least, lemma_drop_first};
use crate::trace::{
    law_enqueue_adds_item_once, law_evicting_enqueue_adds_item_once, left_by, Request, Step,
};

/// A push succeeds exactly if the item has at most 65535 bytes, and with two bytes for its length
/// fits in what `bytes_used` leaves of the capacity.
pub proof fn law_push_takes_exactly_what_fits<const N: usize>()
    ensures
        forall|
            ring: &mut RamRing<N>,
            before: &RamRing<N>,
            used: usize,
            data: &[u8],
            result: Result<(), ()>,
        |
            #[trigger] call_ensures(RamRing::<N>::bytes_used, (before,), used)
                && #[trigger] call_ensures(RamRing::<N>::push, (ring, data), result) && before@
                == ring@ ==> (result is Ok <==> data@.len() <= 0xffff && used + 2 + data@.len()
                <= N),
{
}

/// A push that succeeds puts the item behind all others, and a push that is refused changes nothing.
/// The bytes that are used grow by two and the length of the item, and the count by one.
pub proof fn law_push_appends<const N: usize>()
    ensures
        forall|ring: &mut RamRing<N>, data: &[u8], result: Result<(), ()>| #[trigger]
            call_ensures(RamRing::<N>::push, (ring, data), result) ==> final(ring)@ == if result
                is Ok {
                ring@.push(data@)
            } else {
                ring@
            },
        forall|
            ring: &mut RamRing<N>,
            before: &RamRing<N>,
            after: &RamRing<N>,
            used: usize,
            used_after: usize,
            data: &[u8],
        |
            #[trigger] call_ensures(RamRing::<N>::bytes_used, (before,), used)
                && #[trigger] call_ensures(RamRing::<N>::bytes_used, (after,), used_after)
                && #[trigger] call_ensures(RamRing::<N>::push, (ring, data), Ok(())) && before@
                == ring@ && after@ == final(ring)@ ==> used_after == used + 2 + data@.len(),
{
    assert forall|
        ring: &mut RamRing<N>,
        before: &RamRing<N>,
        after: &RamRing<N>,
        used: usize,
        used_after: usize,
        data: &[u8],
    |
        #[trigger] call_ensures(RamRing::<N>::bytes_used, (before,), used)
            && #[trigger] call_ensures(RamRing::<N>::bytes_used, (after,), used_after)
            && #[trigger] call_ensures(RamRing::<N>::push, (ring, data), Ok(())) && before@ == ring@
            && after@ == final(ring)@ implies used_after == used + 2 + data@.len() by {
        law_bytes_add_up(ring@, data@);
    }
}

/// An overwriting push succeeds exactly if the item has at most 65535 bytes and fits in an empty
/// ring. Then the item is the newest one, just the oldest items are gone, and just as many as had to
/// go: with any fewer gone, it would not have fitted.
pub proof fn law_push_overwriting_evicts_least<const N: usize>()
    ensures
        forall|ring: &mut RamRing<N>, data: &[u8], result: Result<(), ()>| #[trigger]
            call_ensures(RamRing::<N>::push_overwriting, (ring, data), result) ==> {
                &&& result is Ok <==> data@.len() <= 0xffff && 2 + data@.len() <= N
                &&& result is Err ==> final(ring)@ == ring@
                &&& result is Ok ==> exists|gone: int|
                    0 <= gone <= ring@.len() && final(ring)@ == (#[trigger] ring@.skip(gone)).push(
                        data@,
                    ) && forall|g: int|
                        0 <= g < gone ==> bytes_of(#[trigger] ring@.skip(g)) + 2 + data@.len() > N
            },
{
    assert forall|ring: &mut RamRing<N>, data: &[u8], result: Result<(), ()>| #[trigger]
        call_ensures(RamRing::<N>::push_overwriting, (ring, data), result) && result is Ok implies
        exists|gone: int|
        0 <= gone <= ring@.len() && final(ring)@ == (#[trigger] ring@.skip(gone)).push(data@)
            && forall|g: int|
            0 <= g < gone ==> bytes_of(#[trigger] ring@.skip(g)) + 2 + data@.len() > N by {
        law_eviction_is_least(ring@, data@, N as nat);
        let gone = crate::model::evicted(
            ring@,
            data@,
            N as nat,
            OverflowPolicy::DiscardOldest,
        );
        assert(final(ring)@ == ring@.skip(gone).push(data@));
    }
}

/// The oldest item is the one whose length is told, the one that is copied out where the buffer has
/// room for it, and the one that a discard takes, with its bytes. A ring without items tells, copies
/// and discards nothing.
pub proof fn law_oldest_is_told_copied_and_discarded<const N: usize>()
    ensures
        forall|ring: &RamRing<N>, len: Option<usize>| #[trigger]
            call_ensures(RamRing::<N>::oldest_len, (ring,), len) ==> match len {
                Some(n) => ring@.len() > 0 && n == ring@[0].len(),
                None => ring@.len() == 0,
            },
        forall|ring: &RamRing<N>, buf: &mut [u8], item: Option<&[u8]>| #[trigger]
            call_ensures(RamRing::<N>::peek_into, (ring, buf), item) ==> match item {
                Some(bytes) => ring@.len() > 0 && bytes@ == ring@[0] && final(buf)@.len()
                    == buf@.len() && final(buf)@.take(bytes@.len() as int) == bytes@ && final(buf)@.skip(bytes@.len() as int) == buf@.skip(bytes@.len() as int),
                None => (ring@.len() == 0 || ring@[0].len() > buf@.len()) && final(buf)@ == buf@,
            },
        forall|ring: &mut RamRing<N>| #[trigger]
            call_ensures(RamRing::<N>::discard_oldest, (ring,), ()) ==> {
                &&& ring@.len() == 0 ==> final(ring)@ == ring@
                &&& ring@.len() > 0 ==> final(ring)@ == ring@.skip(1) && bytes_of(final(ring)@)
                    == bytes_of(ring@) - 2 - ring@[0].len()
            },
{
    assert forall|ring: &RamRing<N>, buf: &mut [u8], item: Option<&[u8]>| #[trigger]
        call_ensures(RamRing::<N>::peek_into, (ring, buf), item) implies match item {
        Some(bytes) => ring@.len() > 0 && bytes@ == ring@[0] && final(buf)@.len() == buf@.len()
            && final(buf)@.take(bytes@.len() as int) == bytes@ && final(buf)@.skip(
            bytes@.len() as int,
        ) == buf@.skip(bytes@.len() as int),
        None => (ring@.len() == 0 || ring@[0].len() > buf@.len()) && final(buf)@ == buf@,
    } by {
        if let Some(bytes) = item {
            assert(final(buf)@.take(bytes@.len() as int) =~= bytes@);
            assert(final(buf)@.skip(bytes@.len() as int) =~= buf@.skip(bytes@.len() as int));
        }
    }
    assert forall|ring: &mut RamRing<N>| #[trigger]
        call_ensures(RamRing::<N>::discard_oldest, (ring,), ()) implies {
        &&& ring@.len() == 0 ==> final(ring)@ == ring@
        &&& ring@.len() > 0 ==> final(ring)@ == ring@.skip(1) && bytes_of(final(ring)@) == bytes_of(
            ring@,
        ) - 2 - ring@[0].len()
    } by {
        if ring@.len() > 0 {
            lemma_drop_first(ring@);
            assert(final(ring)@ =~= ring@.skip(1));
        }
    }
}

/// An enqueue that may not evict succeeds exactly if the item has at most 65535 bytes and fits, with
/// two bytes for its length, in what `bytes_used` leaves of the capacity. Then the item is added
/// behind the others; otherwise nothing changes. Either way an item that is being written is still
/// there.
pub proof fn law_enqueue_without_eviction<const N: usize>()
    ensures
        forall|
            outbox: &mut Outbox<N>,
            before: &Outbox<N>,
            used: usize,
            data: &[u8],
            result: Result<(), ()>,
        |
            #[trigger] call_ensures(Outbox::<N>::bytes_used, (before,), used)
                && #[trigger] call_ensures(
                Outbox::<N>::enqueue,
                (outbox, data, OverflowPolicy::Error),
                result,
            ) && before@ == outbox@ ==> {
                &&& result is Ok <==> data@.len() <= 0xffff && used + 2 + data@.len() <= N
                &&& result is Ok ==> final(outbox)@.items == outbox@.items.push(data@)
                &&& result is Err ==> final(outbox)@.items == outbox@.items
                &&& final(outbox)@.lent == outbox@.lent
            },
{
}

/// An enqueue that may evict succeeds exactly if the item has at most 65535 bytes and fits in an
/// empty ring. Then the item is the newest one, just the oldest items are gone, and just as many as
/// had to go: with any fewer gone, it would not have fitted. An item that is being written is still
/// there exactly if none is gone.
pub proof fn law_enqueue_evicts_least<const N: usize>()
    ensures
        forall|outbox: &mut Outbox<N>, data: &[u8], result: Result<(), ()>| #[trigger]
            call_ensures(
                Outbox::<N>::enqueue,
                (outbox, data, OverflowPolicy::DiscardOldest),
                result,
            ) ==> {
                let items = outbox@.items;
                &&& result is Ok <==> data@.len() <= 0xffff && 2 + data@.len() <= N
                &&& result is Err ==> final(outbox)@ == outbox@
                &&& result is Ok ==> exists|gone: int|
                    {
                        &&& 0 <= gone <= items.len()
                        &&& final(outbox)@.items == (#[trigger] items.skip(gone)).push(data@)
                        &&& forall|g: int|
                            0 <= g < gone ==> bytes_of(#[trigger] items.skip(g)) + 2 + data@.len()
                                > N
                        &&& final(outbox)@.lent <==> outbox@.lent && gone == 0
                    }
            },
{
    assert forall|outbox: &mut Outbox<N>, data: &[u8], result: Result<(), ()>| #[trigger]
        call_ensures(Outbox::<N>::enqueue, (outbox, data, OverflowPolicy::DiscardOldest), result)
            && result is Ok implies exists|gone: int|
        {
            &&& 0 <= gone <= outbox@.items.len()
            &&& final(outbox)@.items == (#[trigger] outbox@.items.skip(gone)).push(data@)
            &&& forall|g: int|
                0 <= g < gone ==> bytes_of(#[trigger] outbox@.items.skip(g)) + 2 + data@.len() > N
            &&& final(outbox)@.lent <==> outbox@.lent && gone == 0
        } by {
        law_eviction_is_least(outbox@.items, data@, N as nat);
        let gone = crate::model::evicted(
            outbox@.items,
            data@,
            N as nat,
            OverflowPolicy::DiscardOldest,
        );
        assert(final(outbox)@.items == outbox@.items.skip(gone).push(data@));
    }
}

/// A drain starts with a write of the oldest item, whole and from the front of the scratch buffer,
/// if there is one and it fits there. Otherwise it is over at once, without a commit: a drain is
/// idle, a pop pops and a peek peeks. No item leaves the ring.
pub proof fn law_begin_writes_oldest_or_ends<const N: usize, E>()
    ensures
        forall|outbox: &mut Outbox<N>, task: Task, scratch: &mut [u8], action: Action<E>| #[trigger]
            call_ensures(Outbox::<N>::begin::<E>, (outbox, task, scratch), action) ==> {
                let items = outbox@.items;
                let fits = items.len() > 0 && items[0].len() <= scratch@.len();
                &&& final(outbox)@.items == items
                &&& final(outbox)@.lent == fits
                &&& final(scratch)@.len() == scratch@.len()
                &&& action is Write <==> fits
                &&& action matches Action::Write(len) ==> len == items[0].len() && final(scratch)@.take(len as int) == items[0]
                &&& action matches Action::Write(len) ==> final(scratch)@.skip(len as int)
                    == scratch@.skip(len as int)
                &&& !fits ==> final(scratch)@ == scratch@
                &&& !fits ==> match task {
                    Task::DrainOne => action is Idle,
                    Task::DrainAll => action is Idle,
                    Task::Pop => action is Pop,
                    Task::Peek => action is Peek,
                }
            },
{
    assert forall|outbox: &mut Outbox<N>, task: Task, scratch: &mut [u8], action: Action<E>| #[trigger]
        call_ensures(Outbox::<N>::begin::<E>, (outbox, task, scratch), action) && outbox@.items.len()
            > 0 && outbox@.items[0].len() <= scratch@.len() implies {
        let item = outbox@.items[0];
        &&& final(scratch)@.take(item.len() as int) == item
        &&& final(scratch)@.skip(item.len() as int) == scratch@.skip(item.len() as int)
    } by {
        let item = outbox@.items[0];
        assert(final(scratch)@.take(item.len() as int) =~= item);
        assert(final(scratch)@.skip(item.len() as int) =~= scratch@.skip(item.len() as int));
    }
}

/// An item leaves the ring exactly when its write succeeded. Of a ring that nobody else uses between
/// the start of a drain and the report of its first write, just the written item leaves if the write
/// succeeded, and none if it failed. A drain of one item is committed then, or fails with the error.
pub proof fn law_item_leaves_exactly_when_written<const N: usize, E>()
    ensures
        forall|
            first: &mut Outbox<N>,
            second: &mut Outbox<N>,
            task: Task,
            scratch: &mut [u8],
            scratch_then: &mut [u8],
            len: usize,
            written: Result<(), E>,
            action: Action<E>,
        |
            #[trigger] call_ensures(
                Outbox::<N>::begin::<E>,
                (first, task, scratch),
                Action::<E>::Write(len),
            ) && #[trigger] call_ensures(
                Outbox::<N>::resume::<E>,
                (second, task, scratch_then, written),
                action,
            ) && second@ == final(first)@ ==> {
                &&& first@.items.len() > 0
                &&& written is Ok ==> first@.items == seq![first@.items[0]] + final(second)@.items
                &&& written is Err ==> final(second)@.items == first@.items
                &&& written matches Err(error) ==> action == Action::<E>::Fail(error)
                &&& written is Ok && task == Task::DrainOne ==> action is Committed
                &&& written is Ok && task != Task::DrainOne ==> !(action is Committed) && !(
                action is Fail)
            },
{
    assert forall|
        first: &mut Outbox<N>,
        second: &mut Outbox<N>,
        task: Task,
        scratch: &mut [u8],
        scratch_then: &mut [u8],
        len: usize,
        written: Result<(), E>,
        action: Action<E>,
    |
        #[trigger] call_ensures(
            Outbox::<N>::begin::<E>,
            (first, task, scratch),
            Action::<E>::Write(len),
        ) && #[trigger] call_ensures(
            Outbox::<N>::resume::<E>,
            (second, task, scratch_then, written),
            action,
        ) && second@ == final(first)@ && written is Ok implies first@.items == seq![
        first@.items[0],
    ] + final(second)@.items by {
        law_begin_writes_oldest_or_ends::<N, E>();
        assert(first@.items =~= seq![first@.items[0]] + final(second)@.items);
    }
    law_begin_writes_oldest_or_ends::<N, E>();
}

/// After the report of a successful write, a drain that is not of one item goes on just as a new one
/// would start on the ring that is left: same action, same bytes in the scratch buffer, same item
/// marked as being written. Any other drain is over, with the scratch buffer as it was and no item
/// marked.
pub proof fn law_drain_goes_on_as_it_began<const N: usize, E>()
    ensures
        forall|
            first: &mut Outbox<N>,
            again: &mut Outbox<N>,
            task: Task,
            scratch: &mut [u8],
            scratch_again: &mut [u8],
            written: Result<(), E>,
            action: Action<E>,
            action_again: Action<E>,
        |
            #[trigger] call_ensures(
                Outbox::<N>::resume::<E>,
                (first, task, scratch, written),
                action,
            ) && #[trigger] call_ensures(
                Outbox::<N>::begin::<E>,
                (again, task, scratch_again),
                action_again,
            ) && again@.items == final(first)@.items && scratch_again@ == scratch@ ==> if written is Ok
                && task != Task::DrainOne {
                &&& action == action_again
                &&& final(scratch)@ == final(scratch_again)@
                &&& final(first)@.lent == final(again)@.lent
            } else {
                &&& final(scratch)@ == scratch@
                &&& !final(first)@.lent
                &&& match written {
                    Ok(()) => action is Committed,
                    Err(error) => action == Action::<E>::Fail(error),
                }
            },
{
}

/// Whatever has been enqueued, a ring never holds more bytes than its capacity, nor an item of more
/// than 65535 bytes; and what it tells of itself is so: the count of its items, their bytes with two
/// more for each, and the length of the oldest.
pub proof fn law_ring_tells_what_it_holds<const N: usize>()
    ensures
        forall|outbox: &Outbox<N>, used: usize| #[trigger]
            call_ensures(Outbox::<N>::bytes_used, (outbox,), used) ==> used == bytes_of(
                outbox@.items,
            ) && used <= N && forall|i: int|
                0 <= i < outbox@.items.len() ==> (#[trigger] outbox@.items[i]).len() <= 0xffff,
        forall|outbox: &Outbox<N>, count: usize| #[trigger]
            call_ensures(Outbox::<N>::len, (outbox,), count) ==> count == outbox@.items.len(),
        forall|outbox: &Outbox<N>, len: Option<usize>| #[trigger]
            call_ensures(Outbox::<N>::oldest_len, (outbox,), len) ==> match len {
                Some(len) => outbox@.items.len() > 0 && len == outbox@.items[0].len(),
                None => outbox@.items.len() == 0,
            },
{
}

/// The same of a queue, where the free bytes are what the used bytes leave of the capacity.
pub proof fn law_queue_tells_what_it_holds<S, const N: usize>()
    ensures
        forall|queue: &BufferedQueue<S, N>, used: usize, free: usize|
            #[trigger] call_ensures(BufferedQueue::<S, N>::ram_bytes_used, (queue,), used)
                && #[trigger] call_ensures(BufferedQueue::<S, N>::ram_free_bytes, (queue,), free)
                ==> used == bytes_of(queue@.ring.items) && used + free == N,
        forall|queue: &BufferedQueue<S, N>, count: usize| #[trigger]
            call_ensures(BufferedQueue::<S, N>::ram_pending_count, (queue,), count) ==> count
                == queue@.ring.items.len(),
        forall|queue: &BufferedQueue<S, N>, len: Option<usize>| #[trigger]
            call_ensures(BufferedQueue::<S, N>::oldest_ram_item_len, (queue,), len) ==> match len {
                Some(len) => queue@.ring.items.len() > 0 && len == queue@.ring.items[0].len(),
                None => queue@.ring.items.len() == 0,
            },
        forall|capacity: usize| #[trigger]
            call_ensures(BufferedQueue::<S, N>::ram_capacity_bytes, (), capacity) ==> capacity == N,
{
}

/// An item that comes while another is being written waits behind the rest. After the report of a
/// successful write just the written item is gone; if the newcomer evicted it, no other is gone in
/// its place.
pub proof fn law_enqueue_during_a_write<const N: usize, E>()
    ensures
        forall|
            first: &mut Outbox<N>,
            between: &mut Outbox<N>,
            last: &mut Outbox<N>,
            task: Task,
            scratch: &mut [u8],
            scratch_then: &mut [u8],
            len: usize,
            data: &[u8],
            policy: OverflowPolicy,
            action: Action<E>,
        |
            #[trigger] call_ensures(
                Outbox::<N>::begin::<E>,
                (first, task, scratch),
                Action::<E>::Write(len),
            ) && #[trigger] call_ensures(Outbox::<N>::enqueue, (between, data, policy), Ok(()))
                && #[trigger] call_ensures(
                Outbox::<N>::resume::<E>,
                (last, task, scratch_then, Ok(())),
                action,
            ) && between@ == final(first)@ && last@ == final(between)@ ==> {
                &&& final(between)@.items.len() == first@.items.len() + 1 ==> final(last)@.items
                    == first@.items.skip(1).push(data@)
                &&& final(between)@.items.len() <= first@.items.len() ==> final(last)@.items
                    == final(between)@.items
            },
{
    assert forall|
        first: &mut Outbox<N>,
        between: &mut Outbox<N>,
        last: &mut Outbox<N>,
        task: Task,
        scratch: &mut [u8],
        scratch_then: &mut [u8],
        len: usize,
        data: &[u8],
        policy: OverflowPolicy,
        action: Action<E>,
    |
        #[trigger] call_ensures(
            Outbox::<N>::begin::<E>,
            (first, task, scratch),
            Action::<E>::Write(len),
        ) && #[trigger] call_ensures(Outbox::<N>::enqueue, (between, data, policy), Ok(()))
            && #[trigger] call_ensures(
            Outbox::<N>::resume::<E>,
            (last, task, scratch_then, Ok(())),
            action,
        ) && between@ == final(first)@ && last@ == final(between)@ implies {
        &&& final(between)@.items.len() == first@.items.len() + 1 ==> final(last)@.items
            == first@.items.skip(1).push(data@)
        &&& final(between)@.items.len() <= first@.items.len() ==> final(last)@.items == final(between)@.items
    } by {
        law_begin_writes_oldest_or_ends::<N, E>();
        let items = first@.items;
        if policy == OverflowPolicy::DiscardOldest {
            law_eviction_is_least(items, data@, N as nat);
        }
        if final(between)@.items.len() == items.len() + 1 {
            assert(items.skip(0) =~= items);
            assert(final(between)@.items =~= items.push(data@));
            assert(final(last)@.items =~= items.skip(1).push(data@));
        }
    }
}

/// The same of a queue: a drain of one item is committed exactly if one item, the oldest, has left
/// the ring after its write succeeded. It is idle, and everything stays, if there was none or it did
/// not fit in the scratch buffer. The flash queue itself is the caller's throughout.
pub proof fn law_queue_drains_one_item<S, const N: usize, E>()
    ensures
        forall|queue: &mut BufferedQueue<S, N>, scratch: &mut [u8], action: Action<E>| #[trigger]
            call_ensures(
                BufferedQueue::<S, N>::begin::<E>,
                (queue, Task::DrainOne, scratch),
                action,
            ) ==> {
                let items = queue@.ring.items;
                &&& final(queue)@.storage == queue@.storage
                &&& final(queue)@.ring.items == items
                &&& if items.len() > 0 && items[0].len() <= scratch@.len() {
                    action == Action::<E>::Write(items[0].len() as usize) && final(scratch)@.take(
                        items[0].len() as int,
                    ) == items[0]
                } else {
                    action is Idle
                }
            },
        forall|
            first: &mut BufferedQueue<S, N>,
            second: &mut BufferedQueue<S, N>,
            scratch: &mut [u8],
            scratch_then: &mut [u8],
            len: usize,
            written: Result<(), E>,
            action: Action<E>,
        |
            #[trigger] call_ensures(
                BufferedQueue::<S, N>::begin::<E>,
                (first, Task::DrainOne, scratch),
                Action::<E>::Write(len),
            ) && #[trigger] call_ensures(
                BufferedQueue::<S, N>::resume::<E>,
                (second, Task::DrainOne, scratch_then, written),
                action,
            ) && second@.ring == final(first)@.ring ==> {
                &&& final(second)@.storage == second@.storage
                &&& action is Committed <==> written is Ok
                &&& written is Ok ==> final(second)@.ring.items == first@.ring.items.skip(1)
                &&& written is Err ==> final(second)@.ring.items == first@.ring.items
                &&& written matches Err(error) ==> action == Action::<E>::Fail(error)
            },
{
    assert forall|queue: &mut BufferedQueue<S, N>, scratch: &mut [u8], action: Action<E>| #[trigger]
        call_ensures(
            BufferedQueue::<S, N>::begin::<E>,
            (queue, Task::DrainOne, scratch),
            action,
        ) && queue@.ring.items.len() > 0 && queue@.ring.items[0].len() <= scratch@.len() implies
        final(scratch)@.take(queue@.ring.items[0].len() as int) == queue@.ring.items[0] by {
        let item = queue@.ring.items[0];
        assert(final(scratch)@.take(item.len() as int) =~= item);
    }
}

/// A queue takes an item under the two policies just as the ring in front of it does, and the flash
/// queue is untouched.
pub proof fn law_queue_enqueues<S, const N: usize>()
    ensures
        forall|
            queue: &mut BufferedQueue<S, N>,
            before: &BufferedQueue<S, N>,
            free: usize,
            data: &[u8],
            result: Result<(), ()>,
        |
            #[trigger] call_ensures(BufferedQueue::<S, N>::ram_free_bytes, (before,), free)
                && #[trigger] call_ensures(
                BufferedQueue::<S, N>::enqueue,
                (queue, data, OverflowPolicy::Error),
                result,
            ) && before@ == queue@ ==> {
                &&& result is Ok <==> data@.len() <= 0xffff && 2 + data@.len() <= free
                &&& final(queue)@.storage == queue@.storage
                &&& final(queue)@.ring.items == if result is Ok {
                    queue@.ring.items.push(data@)
                } else {
                    queue@.ring.items
                }
            },
        forall|queue: &mut BufferedQueue<S, N>, data: &[u8], result: Result<(), ()>| #[trigger]
            call_ensures(
                BufferedQueue::<S, N>::enqueue,
                (queue, data, OverflowPolicy::DiscardOldest),
                result,
            ) ==> {
                let items = queue@.ring.items;
                &&& result is Ok <==> data@.len() <= 0xffff && 2 + data@.len() <= N
                &&& final(queue)@.storage == queue@.storage
                &&& result is Err ==> final(queue)@.ring.items == items
                &&& result is Ok ==> exists|gone: int|
                    0 <= gone <= items.len() && final(queue)@.ring.items == (#[trigger] items.skip(
                        gone,
                    )).push(data@) && forall|g: int|
                        0 <= g < gone ==> bytes_of(#[trigger] items.skip(g)) + 2 + data@.len() > N
            },
{
    assert forall|queue: &mut BufferedQueue<S, N>, data: &[u8], result: Result<(), ()>| #[trigger]
        call_ensures(
            BufferedQueue::<S, N>::enqueue,
            (queue, data, OverflowPolicy::DiscardOldest),
            result,
        ) && result is Ok implies exists|gone: int|
        0 <= gone <= queue@.ring.items.len() && final(queue)@.ring.items == (
        #[trigger] queue@.ring.items.skip(gone)).push(data@) && forall|g: int|
            0 <= g < gone ==> bytes_of(#[trigger] queue@.ring.items.skip(g)) + 2 + data@.len()
                > N by {
        let items = queue@.ring.items;
        law_eviction_is_least(items, data@, N as nat);
        let gone = crate::model::evicted(items, data@, N as nat, OverflowPolicy::DiscardOldest);
        assert(final(queue)@.ring.items == items.skip(gone).push(data@));
    }
}

/// Every step of a queue is the same step of the ring in front of it: same result, same bytes in the
/// scratch buffer, same ring afterwards. The flash queue stays as it is.
pub proof fn law_queue_steps_as_its_ring<S, const N: usize, E>()
    ensures
        forall|
            queue: &mut BufferedQueue<S, N>,
            outbox: &mut Outbox<N>,
            data: &[u8],
            policy: OverflowPolicy,
            result: Result<(), ()>,
            expected: Result<(), ()>,
        |
            #[trigger] call_ensures(
                BufferedQueue::<S, N>::enqueue,
                (queue, data, policy),
                result,
            ) && #[trigger] call_ensures(Outbox::<N>::enqueue, (outbox, data, policy), expected)
                && queue@.ring == outbox@ ==> result is Ok == expected is Ok && final(queue)@.ring
                == final(outbox)@ && final(queue)@.storage == queue@.storage,
        forall|
            queue: &mut BufferedQueue<S, N>,
            outbox: &mut Outbox<N>,
            task: Task,
            scratch: &mut [u8],
            scratch_then: &mut [u8],
            action: Action<E>,
            expected: Action<E>,
        |
            #[trigger] call_ensures(
                BufferedQueue::<S, N>::begin::<E>,
                (queue, task, scratch),
                action,
            ) && #[trigger] call_ensures(
                Outbox::<N>::begin::<E>,
                (outbox, task, scratch_then),
                expected,
            ) && queue@.ring == outbox@ && scratch@ == scratch_then@ ==> action == expected
                && final(scratch)@ == final(scratch_then)@ && final(queue)@.ring == final(outbox)@
                && final(queue)@.storage == queue@.storage,
        forall|
            queue: &mut BufferedQueue<S, N>,
            outbox: &mut Outbox<N>,
            task: Task,
            scratch: &mut [u8],
            scratch_then: &mut [u8],
            written: Result<(), E>,
            action: Action<E>,
            expected: Action<E>,
        |
            #[trigger] call_ensures(
                BufferedQueue::<S, N>::resume::<E>,
                (queue, task, scratch, written),
                action,
            ) && #[trigger] call_ensures(
                Outbox::<N>::resume::<E>,
                (outbox, task, scratch_then, written),
                expected,
            ) && queue@.ring == outbox@ && scratch@ == scratch_then@ ==> action == expected
                && final(scratch)@ == final(scratch_then)@ && final(queue)@.ring == final(outbox)@
                && final(queue)@.storage == queue@.storage,
{
}

/// An enqueue to a shared ring makes a visit of exactly one step. It succeeds exactly if the item has
/// at most 65535 bytes and fits, with two bytes for its length, in what is free, or under the policy
/// that evicts, in an empty ring. Then the item is added once and last, and just as many of the oldest
/// items are gone as had to go; otherwise the ring is left as it was found.
pub proof fn law_shared_enqueue_is_one_step<const N: usize>()
    ensures
        forall|
            shared: &SharedRamRing<N>,
            data: &[u8],
            policy: OverflowPolicy,
            result: Result<(), ()>,
        | #[trigger]
            call_ensures(SharedRamRing::<N>::enqueue, (shared, data, policy), result) ==> exists|
                found: RingState,
            |
                {
                    let step = Step { found, request: Request::Enqueue { data: data@, policy } };
                    let left = left_by(step, N as nat);
                    &&& #[trigger] admissible(found.items, N as nat)
                    &&& shared.visited(seq![step])
                    &&& result is Ok <==> data@.len() <= 0xffff && 2 + data@.len() + (if policy
                        == OverflowPolicy::Error {
                        bytes_of(found.items)
                    } else {
                        0
                    }) <= N
                    &&& result is Err ==> left == found
                    &&& result is Ok ==> exists|gone: int|
                        {
                            &&& 0 <= gone <= found.items.len()
                            &&& policy == OverflowPolicy::Error ==> gone == 0
                            &&& left.items == (#[trigger] found.items.skip(gone)).push(data@)
                            &&& left.lent <==> found.lent && gone == 0
                            &&& forall|g: int|
                                0 <= g < gone ==> bytes_of(#[trigger] found.items.skip(g)) + 2
                                    + data@.len() > N
                        }
                },
{
    assert forall|
        shared: &SharedRamRing<N>,
        data: &[u8],
        policy: OverflowPolicy,
        result: Result<(), ()>,
    | #[trigger]
        call_ensures(SharedRamRing::<N>::enqueue, (shared, data, policy), result) implies exists|
        found: RingState,
    |
        {
            let step = Step { found, request: Request::Enqueue { data: data@, policy } };
            let left = left_by(step, N as nat);
            &&& #[trigger] admissible(found.items, N as nat)
            &&& shared.visited(seq![step])
            &&& result is Ok <==> data@.len() <= 0xffff && 2 + data@.len() + (if policy
                == OverflowPolicy::Error {
                bytes_of(found.items)
            } else {
                0
            }) <= N
            &&& result is Err ==> left == found
            &&& result is Ok ==> exists|gone: int|
                {
                    &&& 0 <= gone <= found.items.len()
                    &&& policy == OverflowPolicy::Error ==> gone == 0
                    &&& left.items == (#[trigger] found.items.skip(gone)).push(data@)
                    &&& left.lent <==> found.lent && gone == 0
                    &&& forall|g: int|
                        0 <= g < gone ==> bytes_of(#[trigger] found.items.skip(g)) + 2
                            + data@.len() > N
                }
        } by {
        let found = choose|found: RingState|
            {
                &&& #[trigger] admissible(found.items, N as nat)
                &&& result is Ok <==> crate::model::accepted(found.items, data@, N as nat, policy)
                &&& shared.visited(
                    seq![Step { found, request: Request::Enqueue { data: data@, policy } }],
                )
            };
        let step = Step { found, request: Request::Enqueue { data: data@, policy } };
        if policy == OverflowPolicy::Error {
            law_enqueue_adds_item_once(step, data@, N as nat);
            assert(found.items.skip(0) =~= found.items);
        } else {
            law_evicting_enqueue_adds_item_once(step, data@, N as nat);
        }
    }
}

/// The start of a drain of a shared ring makes a visit of exactly one step, which takes no item.
/// It asks for a write exactly if the oldest item is there and fits in the scratch buffer, and that
/// item is then marked as being written.
pub proof fn law_shared_begin_is_one_step<const N: usize, E>()
    ensures
        forall|shared: &SharedRamRing<N>, task: Task, scratch: &mut [u8], action: Action<E>| #[trigger]
            call_ensures(SharedRamRing::<N>::begin::<E>, (shared, task, scratch), action) ==> exists|
                found: RingState,
            |
                {
                    let step = Step {
                        found,
                        request: Request::Begin { task, scratch: scratch@.len() },
                    };
                    let left = left_by(step, N as nat);
                    &&& #[trigger] admissible(found.items, N as nat)
                    &&& shared.visited(seq![step])
                    &&& left.items == found.items
                    &&& left.lent == (action is Write)
                    &&& action is Write <==> found.items.len() > 0 && found.items[0].len()
                        <= scratch@.len()
                },
{
}

/// The report of a write to a shared ring makes a visit of exactly one step. If the write succeeded
/// and the item is still there, just that item leaves; otherwise none does.
pub proof fn law_shared_resume_is_one_step<const N: usize, E>()
    ensures
        forall|
            shared: &SharedRamRing<N>,
            task: Task,
            scratch: &mut [u8],
            written: Result<(), E>,
            action: Action<E>,
        | #[trigger]
            call_ensures(SharedRamRing::<N>::resume::<E>, (shared, task, scratch, written), action)
                ==> exists|found: RingState|
                {
                    let step = Step {
                        found,
                        request: Request::Resume {
                            task,
                            scratch: scratch@.len(),
                            stored: written is Ok,
                        },
                    };
                    let left = left_by(step, N as nat);
                    &&& #[trigger] admissible(found.items, N as nat)
                    &&& shared.visited(seq![step])
                    &&& left.items == if written is Ok && found.lent && found.items.len() > 0 {
                        found.items.skip(1)
                    } else {
                        found.items
                    }
                    &&& written matches Err(error) ==> action == Action::<E>::Fail(error)
                    &&& action is Committed <==> written is Ok && task == Task::DrainOne
                },
{
}

} // verus!
