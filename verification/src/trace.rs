//! What a visit to a guarded ring did, step by step.
//!
//! A [`Step`] is one access: the ring as it was found, and what was asked of it. The trace of a
//! visit lists all its steps in order. Where nobody else uses the ring, each step finds the ring as
//! the one before has left it.

use vstd::prelude::*;

use crate::drain::Task;
use crate::OverflowPolicy;

verus! {

use crate::drain::{after_enqueue, after_hand_out, after_report, RingState};
use crate::model::{bytes_of, law_eviction_is_least};

/// What an access asks of a guarded ring.
pub ghost enum Request {
    /// Enqueue an item.
    Enqueue { data: Seq<u8>, policy: OverflowPolicy },
    /// Start a drain, with a scratch buffer of so many bytes.
    Begin { task: Task, scratch: nat },
    /// Take the report of a write, successful or not, and go on with the drain.
    Resume { task: Task, scratch: nat, stored: bool },
    /// Read a counter.
    Look,
}

/// One access to a guarded ring: the ring as it was found, and what was asked of it.
pub ghost struct Step {
    /// The ring as the access found it.
    pub found: RingState,
    /// What was asked.
    pub request: Request,
}

/// The ring of `capacity` bytes as an access left it.
pub open spec fn left_by(step: Step, capacity: nat) -> RingState {
    match step.request {
        Request::Enqueue { data, policy } => after_enqueue(step.found, data, capacity, policy),
        Request::Begin { scratch, .. } => after_hand_out(step.found, scratch),
        Request::Resume { task, scratch, stored } => after_report(
            task,
            step.found,
            scratch,
            if stored {
                Ok::<(), ()>(())
            } else {
                Err::<(), ()>(())
            },
        ),
        Request::Look => step.found,
    }
}

/// Of a ring that nobody else uses between the start of a drain and the report of its first write,
/// just the oldest item leaves if the write succeeded, and none if it failed.
pub proof fn law_written_item_leaves(first: Step, second: Step, capacity: nat)
    requires
        first.request is Begin,
        second.request is Resume,
        second.found == left_by(first, capacity),
        first.found.items.len() > 0,
        first.found.items[0].len() <= first.request->Begin_scratch,
    ensures
        second.request->stored ==> left_by(second, capacity).items == first.found.items.skip(1),
        !second.request->stored ==> left_by(second, capacity).items == first.found.items,
{
    if second.request->stored {
        assert(left_by(second, capacity).items =~= first.found.items.skip(1));
    }
}

/// A report that comes when no item is out, because none was handed out or because it has been
/// evicted since, takes no item.
pub proof fn law_report_of_no_item_takes_none(step: Step, capacity: nat)
    requires
        step.request is Resume,
        !step.found.lent,
    ensures
        left_by(step, capacity).items == step.found.items,
{
}

/// An enqueue that may not evict adds the item once, behind all others, if it has at most 65535 bytes
/// and fits with two bytes for its length in what the items leave of the capacity. Otherwise nothing
/// changes.
pub proof fn law_enqueue_adds_item_once(step: Step, data: Seq<u8>, capacity: nat)
    requires
        step.request == (Request::Enqueue { data, policy: OverflowPolicy::Error }),
    ensures
        left_by(step, capacity).items == if data.len() <= 0xffff && bytes_of(step.found.items) + 2
            + data.len() <= capacity {
            step.found.items.push(data)
        } else {
            step.found.items
        },
        left_by(step, capacity).lent == step.found.lent,
{
}

/// An enqueue that may evict adds the item once, behind all others, if it has at most 65535 bytes and
/// fits in an empty ring. Just the oldest items are gone then, and just as many as had to go.
/// Otherwise nothing changes.
pub proof fn law_evicting_enqueue_adds_item_once(step: Step, data: Seq<u8>, capacity: nat)
    requires
        step.request == (Request::Enqueue { data, policy: OverflowPolicy::DiscardOldest }),
    ensures
        data.len() <= 0xffff && 2 + data.len() <= capacity ==> exists|gone: int|
            {
                &&& 0 <= gone <= step.found.items.len()
                &&& left_by(step, capacity).items == (#[trigger] step.found.items.skip(gone)).push(
                    data,
                )
                &&& forall|g: int|
                    0 <= g < gone ==> bytes_of(#[trigger] step.found.items.skip(g)) + 2 + data.len()
                        > capacity
                &&& left_by(step, capacity).lent <==> step.found.lent && gone == 0
            },
        !(data.len() <= 0xffff && 2 + data.len() <= capacity) ==> left_by(step, capacity)
            == step.found,
{
    if data.len() <= 0xffff && 2 + data.len() <= capacity {
        law_eviction_is_least(step.found.items, data, capacity);
        let gone = crate::model::evicted(
            step.found.items,
            data,
            capacity,
            OverflowPolicy::DiscardOldest,
        );
        assert(left_by(step, capacity).items == step.found.items.skip(gone).push(data));
    }
}

/// The start of a drain takes no item, and neither does a read.
pub proof fn law_begin_and_look_take_nothing(step: Step, capacity: nat)
    requires
        step.request is Begin || step.request is Look,
    ensures
        left_by(step, capacity).items == step.found.items,
        step.request is Look ==> left_by(step, capacity) == step.found,
{
}

} // verus!
