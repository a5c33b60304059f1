//! How items move from a ring to the flash queue.
//!
//! Writing to flash is slow and may fail, so it is done by the caller. A drain is a dialogue: the
//! library names an [`Action`], the caller performs it and reports the result of each write, and
//! the library names the next action. A drain takes an item out of the ring only after its write has
//! been reported as successful, and never takes out another item than the one that was written.

use vstd::prelude::*;

use crate::OverflowPolicy;

verus! {

use crate::model::{enqueued, evicted, without_oldest};

/// The call that a drain serves.
#[derive(Debug, Clone, Copy, PartialEq, Eq, Structural)]
pub enum Task {
    /// Commit the oldest item to flash.
    DrainOne,
    /// Commit all items to flash.
    DrainAll,
    /// Commit all items to flash, then take the oldest item out of the flash queue.
    Pop,
    /// Commit all items to flash, then read the oldest item of the flash queue.
    Peek,
}

/// What the caller of a drain has to do next.
#[derive(Debug, PartialEq, Eq)]
pub enum Action<E> {
    /// Append the first bytes of the scratch buffer, as many as given, to the flash queue, and
    /// report the result.
    Write(usize),
    /// Return: one item has been committed.
    Committed,
    /// Return: the drain is over.
    Idle,
    /// Pop from the flash queue and return what it gives.
    Pop,
    /// Peek at the flash queue and return what it gives.
    Peek,
    /// Return the error of the failed write.
    Fail(E),
}

/// How a drain goes on when the ring has nothing to hand out.
pub open spec fn ending<E>(task: Task) -> Action<E> {
    match task {
        Task::DrainOne => Action::Idle,
        Task::DrainAll => Action::Idle,
        Task::Pop => Action::Pop,
        Task::Peek => Action::Peek,
    }
}

/// Whether the oldest of `items` exists and fits in `scratch` bytes.
pub open spec fn handed_out(items: Seq<Seq<u8>>, scratch: nat) -> bool {
    items.len() > 0 && items[0].len() <= scratch
}

/// The next action of a drain of a ring that holds `items`.
pub open spec fn next_action<E>(task: Task, items: Seq<Seq<u8>>, scratch: nat) -> Action<E> {
    if handed_out(items, scratch) {
        Action::Write(items[0].len() as usize)
    } else {
        ending(task)
    }
}

/// The scratch buffer once the oldest of `items` has been copied to its front, where it fits.
pub open spec fn filled(items: Seq<Seq<u8>>, scratch: Seq<u8>) -> Seq<u8> {
    if handed_out(items, scratch.len()) {
        items[0] + scratch.skip(items[0].len() as int)
    } else {
        scratch
    }
}

/// A ring, seen from a drain.
pub ghost struct RingState {
    /// The items, oldest first.
    pub items: Seq<Seq<u8>>,
    /// Whether the oldest item has been handed out to be written, and no report has come yet.
    pub lent: bool,
}

/// A ring of `capacity` bytes after an enqueue. An item that was handed out and has been evicted is
/// no longer there to be taken out.
pub open spec fn after_enqueue(
    ring: RingState,
    data: Seq<u8>,
    capacity: nat,
    policy: OverflowPolicy,
) -> RingState {
    RingState {
        items: enqueued(ring.items, data, capacity, policy),
        lent: ring.lent && evicted(ring.items, data, capacity, policy) == 0,
    }
}

/// A ring once it has handed out its oldest item, where that fits in `scratch` bytes.
pub open spec fn after_hand_out(ring: RingState, scratch: nat) -> RingState {
    RingState { items: ring.items, lent: handed_out(ring.items, scratch) }
}

/// A ring once a write has been reported. The item leaves after a successful write, if it is still
/// there.
pub open spec fn after_settle<E>(ring: RingState, written: Result<(), E>) -> RingState {
    RingState {
        items: if written is Ok && ring.lent {
            without_oldest(ring.items)
        } else {
            ring.items
        },
        lent: false,
    }
}

/// A ring once a drain has gone on after a report.
pub open spec fn after_report<E>(
    task: Task,
    ring: RingState,
    scratch: nat,
    written: Result<(), E>,
) -> RingState {
    if goes_on(task, written) {
        after_hand_out(after_settle(ring, written), scratch)
    } else {
        after_settle(ring, written)
    }
}

/// Whether a drain looks for another item once a write has been reported.
pub open spec fn goes_on<E>(task: Task, written: Result<(), E>) -> bool {
    written is Ok && task != Task::DrainOne
}

/// The action of a drain once a write has been reported, where `items` is what the ring holds then.
pub open spec fn action_after<E>(
    task: Task,
    items: Seq<Seq<u8>>,
    scratch: nat,
    written: Result<(), E>,
) -> Action<E> {
    match written {
        Ok(()) => if task == Task::DrainOne {
            Action::Committed
        } else {
            next_action(task, items, scratch)
        },
        Err(error) => Action::Fail(error),
    }
}

/// The action of a drain, given the length of the item that the ring handed out, if any.
pub open spec fn action_for<E>(task: Task, peeked: Option<usize>) -> Action<E> {
    match peeked {
        Some(len) => Action::Write(len),
        None => ending(task),
    }
}

/// The next action of a drain, given the length of the item that the ring handed out, if any.
pub fn after_peek<E>(task: Task, peeked: Option<usize>) -> (action: Action<E>)
    ensures
        action == action_for::<E>(task, peeked),
{
    match peeked {
        Some(len) => Action::Write(len),
        None => match task {
            Task::DrainOne => Action::Idle,
            Task::DrainAll => Action::Idle,
            Task::Pop => Action::Pop,
            Task::Peek => Action::Peek,
        },
    }
}

/// What became of a write to the flash queue.
///
/// Where overwriting old data is allowed, the queue may drop some of its oldest items to make room,
/// and it may have done so before a write that then fails.
pub ghost enum Outcome {
    /// The item was appended, after the queue had dropped as many of its oldest items as given.
    Stored { dropped: nat },
    /// The item was not appended; the queue has dropped as many of its oldest items as given.
    Failed { dropped: nat },
}

/// How far a drain has come.
pub ghost struct Progress {
    /// The items of the flash queue, oldest first.
    pub flash: Seq<Seq<u8>>,
    /// How many of its oldest items the flash queue has dropped on the way.
    pub dropped: nat,
    /// The ring.
    pub ring: RingState,
    /// What is to be done next.
    pub action: Action<()>,
}

/// How many items leave a flash queue with the items `flash` when it drops its `dropped` oldest.
pub open spec fn lost(flash: Seq<Seq<u8>>, dropped: nat) -> int {
    if dropped <= flash.len() {
        dropped as int
    } else {
        flash.len() as int
    }
}

/// What a flash queue with the items `flash` holds once it has dropped its `dropped` oldest items,
/// or all if there are fewer.
pub open spec fn shortened(flash: Seq<Seq<u8>>, dropped: nat) -> Seq<Seq<u8>> {
    flash.skip(lost(flash, dropped))
}

/// A drain that has just begun.
pub open spec fn begun(
    task: Task,
    flash: Seq<Seq<u8>>,
    pending: Seq<Seq<u8>>,
    scratch: nat,
) -> Progress {
    Progress {
        flash,
        dropped: 0,
        ring: after_hand_out(RingState { items: pending, lent: false }, scratch),
        action: next_action(task, pending, scratch),
    }
}

/// A drain after the write that it asked for. Nothing happens where it asked for none.
pub open spec fn resumed(task: Task, before: Progress, scratch: nat, outcome: Outcome) -> Progress {
    if before.action is Write {
        let (flash, dropped, written) = match outcome {
            Outcome::Stored { dropped } => (
                shortened(before.flash, dropped).push(before.ring.items[0]),
                dropped,
                Ok::<(), ()>(()),
            ),
            Outcome::Failed { dropped } => (
                shortened(before.flash, dropped),
                dropped,
                Err::<(), ()>(()),
            ),
        };
        Progress {
            flash,
            dropped: (before.dropped + lost(before.flash, dropped)) as nat,
            ring: after_report(task, before.ring, scratch, written),
            action: action_after(task, after_settle(before.ring, written).items, scratch, written),
        }
    } else {
        before
    }
}

/// A drain of a ring that holds `pending`, in front of a flash queue that holds `flash`, once its
/// writes have come out as `outcomes` says, while nobody else uses the ring.
pub open spec fn drained(
    task: Task,
    flash: Seq<Seq<u8>>,
    pending: Seq<Seq<u8>>,
    scratch: nat,
    outcomes: Seq<Outcome>,
) -> Progress
    decreases outcomes.len(),
{
    if outcomes.len() == 0 {
        begun(task, flash, pending, scratch)
    } else {
        resumed(
            task,
            drained(task, flash, pending, scratch, outcomes.drop_last()),
            scratch,
            outcomes.last(),
        )
    }
}

/// Whether all of `outcomes` are successes that cost no older item.
pub open spec fn all_stored(outcomes: Seq<Outcome>) -> bool {
    forall|i: int|
        0 <= i < outcomes.len() ==> #[trigger] outcomes[i] == (Outcome::Stored { dropped: 0 })
}

/// A drain asks for a write only while an item is pending that fits in the scratch buffer. That item
/// has been handed out, the write is the one that a new drain would ask for, and each write before
/// it was a success that took one item out of the ring.
proof fn lemma_write_means_pending(
    task: Task,
    flash: Seq<Seq<u8>>,
    pending: Seq<Seq<u8>>,
    scratch: nat,
    outcomes: Seq<Outcome>,
)
    ensures
        ({
            let p = drained(task, flash, pending, scratch, outcomes);
            p.action is Write ==> {
                &&& p.ring.lent
                &&& handed_out(p.ring.items, scratch)
                &&& p.action == next_action::<()>(task, p.ring.items, scratch)
                &&& p.ring.items.len() + outcomes.len() == pending.len()
            }
        }),
    decreases outcomes.len(),
{
    if outcomes.len() > 0 {
        lemma_write_means_pending(task, flash, pending, scratch, outcomes.drop_last());
    }
}

/// A write hands over the oldest pending item, whole, from the front of the scratch buffer.
pub proof fn law_write_hands_over_oldest(
    task: Task,
    flash: Seq<Seq<u8>>,
    pending: Seq<Seq<u8>>,
    scratch: Seq<u8>,
    outcomes: Seq<Outcome>,
)
    requires
        scratch.len() <= usize::MAX,
    ensures
        ({
            let p = drained(task, flash, pending, scratch.len(), outcomes);
            p.action matches Action::Write(len) ==> {
                &&& p.ring.items.len() > 0
                &&& len == p.ring.items[0].len()
                &&& len <= scratch.len()
                &&& filled(p.ring.items, scratch).take(len as int) == p.ring.items[0]
            }
        }),
{
    let p = drained(task, flash, pending, scratch.len(), outcomes);
    lemma_write_means_pending(task, flash, pending, scratch.len(), outcomes);
    if p.action is Write {
        let item = p.ring.items[0];
        assert(filled(p.ring.items, scratch).take(item.len() as int) =~= item);
    }
}

/// A drain keeps the order and loses nothing: however its writes come out, flash queue and ring
/// together hold what they held before, in the same order, but for the oldest items that the flash
/// queue itself dropped.
pub proof fn law_drain_keeps_order(
    task: Task,
    flash: Seq<Seq<u8>>,
    pending: Seq<Seq<u8>>,
    scratch: nat,
    outcomes: Seq<Outcome>,
)
    ensures
        ({
            let p = drained(task, flash, pending, scratch, outcomes);
            &&& p.dropped <= (flash + pending).len()
            &&& p.flash + p.ring.items == (flash + pending).skip(p.dropped as int)
        }),
    decreases outcomes.len(),
{
    let p = drained(task, flash, pending, scratch, outcomes);
    if outcomes.len() == 0 {
        assert(p.flash + p.ring.items =~= (flash + pending).skip(0));
    } else {
        let before = drained(task, flash, pending, scratch, outcomes.drop_last());
        law_drain_keeps_order(task, flash, pending, scratch, outcomes.drop_last());
        lemma_write_means_pending(task, flash, pending, scratch, outcomes.drop_last());
        if before.action is Write {
            let dropped = match outcomes.last() {
                Outcome::Stored { dropped } => dropped,
                Outcome::Failed { dropped } => dropped,
            };
            let k = lost(before.flash, dropped);
            assert(p.flash + p.ring.items =~= (before.flash + before.ring.items).skip(k));
            assert((flash + pending).skip(before.dropped as int).skip(k) =~= (flash + pending).skip(
                p.dropped as int,
            ));
        }
    }
}

/// A drain ends: it asks for at most as many writes as there were items in the ring. Then it returns
/// the error of a failed write, or it is over as its task says.
pub proof fn law_drain_ends(
    task: Task,
    flash: Seq<Seq<u8>>,
    pending: Seq<Seq<u8>>,
    scratch: nat,
    outcomes: Seq<Outcome>,
)
    requires
        outcomes.len() >= pending.len(),
    ensures
        ({
            let p = drained(task, flash, pending, scratch, outcomes);
            ||| p.action is Fail
            ||| p.action == ending::<()>(task)
            ||| p.action is Committed && task == Task::DrainOne
        }),
{
    lemma_write_means_pending(task, flash, pending, scratch, outcomes);
    lemma_actions(task, flash, pending, scratch, outcomes);
}

/// The actions that a drain of a task can come to.
proof fn lemma_actions(
    task: Task,
    flash: Seq<Seq<u8>>,
    pending: Seq<Seq<u8>>,
    scratch: nat,
    outcomes: Seq<Outcome>,
)
    ensures
        ({
            let p = drained(task, flash, pending, scratch, outcomes);
            ||| p.action is Write
            ||| p.action is Fail
            ||| p.action == ending::<()>(task)
            ||| p.action is Committed && task == Task::DrainOne
        }),
    decreases outcomes.len(),
{
    if outcomes.len() > 0 {
        lemma_actions(task, flash, pending, scratch, outcomes.drop_last());
    }
}

/// Where every item fits in the scratch buffer and every write succeeds, draining all moves all
/// items to flash behind those that are there already, and so do pop and peek before they read the
/// flash queue. The ring is empty then.
pub proof fn law_drain_all_commits_everything(
    task: Task,
    flash: Seq<Seq<u8>>,
    pending: Seq<Seq<u8>>,
    scratch: nat,
    outcomes: Seq<Outcome>,
)
    requires
        task != Task::DrainOne,
        forall|i: int| 0 <= i < pending.len() ==> (#[trigger] pending[i]).len() <= scratch,
        all_stored(outcomes),
        outcomes.len() >= pending.len(),
    ensures
        ({
            let p = drained(task, flash, pending, scratch, outcomes);
            &&& p.ring.items.len() == 0
            &&& p.flash == flash + pending
            &&& p.action == ending::<()>(task)
        }),
{
    lemma_drain_all_progress(task, flash, pending, scratch, outcomes);
    assert(pending.take(pending.len() as int) =~= pending);
}

/// The state of a drain of all items of which every write so far has succeeded.
proof fn lemma_drain_all_progress(
    task: Task,
    flash: Seq<Seq<u8>>,
    pending: Seq<Seq<u8>>,
    scratch: nat,
    outcomes: Seq<Outcome>,
)
    requires
        task != Task::DrainOne,
        forall|i: int| 0 <= i < pending.len() ==> (#[trigger] pending[i]).len() <= scratch,
        all_stored(outcomes),
    ensures
        ({
            let p = drained(task, flash, pending, scratch, outcomes);
            let n = if outcomes.len() < pending.len() {
                outcomes.len() as int
            } else {
                pending.len() as int
            };
            &&& p.flash == flash + pending.take(n)
            &&& p.ring.items == pending.skip(n)
            &&& p.action == next_action::<()>(task, p.ring.items, scratch)
        }),
    decreases outcomes.len(),
{
    let p = drained(task, flash, pending, scratch, outcomes);
    if outcomes.len() == 0 {
        assert(p.flash =~= flash + pending.take(0));
        assert(p.ring.items =~= pending.skip(0));
    } else {
        let earlier = outcomes.drop_last();
        let before = drained(task, flash, pending, scratch, earlier);
        assert forall|i: int| 0 <= i < earlier.len() implies #[trigger] earlier[i] == (
        Outcome::Stored { dropped: 0 }) by {
            assert(earlier[i] == outcomes[i]);
        }
        lemma_drain_all_progress(task, flash, pending, scratch, earlier);
        lemma_write_means_pending(task, flash, pending, scratch, earlier);
        assert(outcomes.last() == outcomes[outcomes.len() - 1]);
        if earlier.len() < pending.len() {
            let n = earlier.len() as int;
            assert(before.ring.items[0] == pending[n]);
            assert(p.flash =~= flash + pending.take(n + 1));
            assert(p.ring.items =~= pending.skip(n + 1));
        }
    }
}

/// Draining one item commits exactly the oldest one, and reports it: whatever follows, no other
/// item moves.
pub proof fn law_drain_one_commits_one(
    flash: Seq<Seq<u8>>,
    pending: Seq<Seq<u8>>,
    scratch: nat,
    outcomes: Seq<Outcome>,
)
    requires
        handed_out(pending, scratch),
        outcomes.len() > 0,
        outcomes[0] == (Outcome::Stored { dropped: 0 }),
    ensures
        ({
            let p = drained(Task::DrainOne, flash, pending, scratch, outcomes);
            &&& p.flash == flash.push(pending[0])
            &&& p.ring.items == pending.drop_first()
            &&& p.action is Committed
        }),
    decreases outcomes.len(),
{
    let earlier = outcomes.drop_last();
    if earlier.len() == 0 {
        assert(drained(Task::DrainOne, flash, pending, scratch, earlier) == begun(
            Task::DrainOne,
            flash,
            pending,
            scratch,
        ));
        assert(flash.skip(0) =~= flash);
    } else {
        law_drain_one_commits_one(flash, pending, scratch, earlier);
    }
}

/// A failed write loses nothing of the ring: the item stays the oldest one in it, the drain ends
/// with the error, and a drain that is begun again hands the same item out. The flash queue is as it
/// was, but for the oldest items that it may have dropped.
pub proof fn law_failed_write_keeps_item(
    task: Task,
    flash: Seq<Seq<u8>>,
    pending: Seq<Seq<u8>>,
    scratch: nat,
    outcomes: Seq<Outcome>,
    dropped: nat,
)
    requires
        drained(task, flash, pending, scratch, outcomes).action is Write,
    ensures
        ({
            let before = drained(task, flash, pending, scratch, outcomes);
            let failed = outcomes.push(Outcome::Failed { dropped });
            let after = drained(task, flash, pending, scratch, failed);
            &&& after.flash == shortened(before.flash, dropped)
            &&& after.ring.items == before.ring.items
            &&& after.action is Fail
            &&& begun(task, after.flash, after.ring.items, scratch).action == before.action
        }),
{
    assert(outcomes.push(Outcome::Failed { dropped }).drop_last() =~= outcomes);
    lemma_write_means_pending(task, flash, pending, scratch, outcomes);
}

/// FIFO across flash and RAM: when a pop or a peek comes to read the flash queue and finds an item
/// there, it is the oldest item of flash queue and ring together, but for those that the flash queue
/// itself dropped.
pub proof fn law_read_gives_oldest(
    task: Task,
    flash: Seq<Seq<u8>>,
    pending: Seq<Seq<u8>>,
    scratch: nat,
    outcomes: Seq<Outcome>,
)
    requires
        drained(task, flash, pending, scratch, outcomes).flash.len() > 0,
    ensures
        ({
            let p = drained(task, flash, pending, scratch, outcomes);
            &&& p.dropped < (flash + pending).len()
            &&& p.flash[0] == (flash + pending)[p.dropped as int]
        }),
{
    let p = drained(task, flash, pending, scratch, outcomes);
    law_drain_keeps_order(task, flash, pending, scratch, outcomes);
    let left = (flash + pending).skip(p.dropped as int);
    assert(left == p.flash + p.ring.items);
    assert(left.len() > 0);
    assert(left[0] == p.flash[0]);
}

/// A drain of one item comes to `Committed` exactly if one item has moved from the ring to the flash
/// queue, and then it was the oldest one, and it is the newest one in flash. Otherwise no item has
/// left the ring: there was none, the oldest one does not fit in the scratch buffer, or its write
/// has not come out, or failed. No other drain comes to `Committed`.
pub proof fn law_committed_means_one_item_moved(
    task: Task,
    flash: Seq<Seq<u8>>,
    pending: Seq<Seq<u8>>,
    scratch: nat,
    outcomes: Seq<Outcome>,
)
    ensures
        ({
            let p = drained(task, flash, pending, scratch, outcomes);
            &&& p.action is Committed ==> {
                &&& task == Task::DrainOne
                &&& pending.len() > 0
                &&& pending[0].len() <= scratch
                &&& p.ring.items == pending.skip(1)
                &&& p.flash.len() > 0
                &&& p.flash.last() == pending[0]
            }
            &&& task == Task::DrainOne && !(p.action is Committed) ==> p.ring.items == pending
            &&& task == Task::DrainOne && (pending.len() == 0 || pending[0].len() > scratch)
                ==> p.action is Idle && p.flash == flash
        }),
    decreases outcomes.len(),
{
    if outcomes.len() > 0 {
        let earlier = outcomes.drop_last();
        law_committed_means_one_item_moved(task, flash, pending, scratch, earlier);
        lemma_write_means_pending(task, flash, pending, scratch, earlier);
    }
}

} // verus!
