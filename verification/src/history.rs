//! What a queue promises over its whole life.
//!
//! The parts of a queue are a flash queue and a RAM ring in front of it. Items are enqueued into the
//! ring, handed out to be written to flash, and popped from flash. The steps on the ring are those
//! of [`Outbox`][crate::outbox::Outbox], and they may come in any order: in particular an interrupt
//! handler may enqueue, and evict, while a write is under way. One drain runs at a time: each
//! hand-out is reported, or the drain is given up, before the next. A write that put its item into
//! the flash queue is always reported; were its drain given up instead, the item would be written
//! again.

use vstd::prelude::*;

use crate::OverflowPolicy;

verus! {

use crate::drain::{
    after_enqueue, after_hand_out, after_settle, handed_out, lost, shortened, Outcome, RingState,
};
use crate::model::{accepted, evicted, lemma_evict_is_suffix};

/// One step in the life of a queue.
pub ghost enum Event {
    /// An item is enqueued.
    Enqueue { data: Seq<u8>, policy: OverflowPolicy },
    /// A drain has the oldest pending item handed out, if it fits in `scratch` bytes. No other write
    /// is under way then.
    HandOut { scratch: nat },
    /// The write of the item that was handed out is reported.
    Report { outcome: Outcome },
    /// The drain is given up without a report, and the item that was handed out has not reached the
    /// flash queue, which may have dropped some of its oldest items.
    Abandon { dropped: nat },
    /// The oldest item of the flash queue is popped, if there is one.
    Pop,
}

/// The record of the life of a queue.
pub ghost struct Ledger {
    /// Every item that was ever accepted, in the order in which they came.
    pub accepted: Seq<Seq<u8>>,
    /// Every item that was popped, in the order in which they went.
    pub popped: Seq<Seq<u8>>,
    /// The items of the flash queue, oldest first.
    pub flash: Seq<Seq<u8>>,
    /// The ring.
    pub ring: RingState,
    /// The item that is being written.
    pub in_flight: Option<Seq<u8>>,
    /// How many items the ring has evicted.
    pub evicted: nat,
    /// How many items the flash queue has dropped.
    pub dropped: nat,
    /// How many items have reached flash though the ring evicted them while they were being written.
    pub rescued: nat,
}

/// A queue on top of a flash queue that holds `flash` already.
pub open spec fn opened(flash: Seq<Seq<u8>>) -> Ledger {
    Ledger {
        accepted: flash,
        popped: Seq::empty(),
        flash,
        ring: RingState { items: Seq::empty(), lent: false },
        in_flight: None,
        evicted: 0,
        dropped: 0,
        rescued: 0,
    }
}

/// The ledger after one step. A step that cannot be taken changes nothing.
pub open spec fn stepped(before: Ledger, capacity: nat, event: Event) -> Ledger {
    match event {
        Event::Enqueue { data, policy } => Ledger {
            accepted: if accepted(before.ring.items, data, capacity, policy) {
                before.accepted.push(data)
            } else {
                before.accepted
            },
            ring: after_enqueue(before.ring, data, capacity, policy),
            evicted: (before.evicted + evicted(before.ring.items, data, capacity, policy)) as nat,
            ..before
        },
        Event::HandOut { scratch } => if before.in_flight is None {
            Ledger {
                ring: after_hand_out(before.ring, scratch),
                in_flight: if handed_out(before.ring.items, scratch) {
                    Some(before.ring.items[0])
                } else {
                    None
                },
                ..before
            }
        } else {
            before
        },
        Event::Report { outcome } => match before.in_flight {
            Some(item) => match outcome {
                Outcome::Stored { dropped } => Ledger {
                    flash: shortened(before.flash, dropped).push(item),
                    ring: after_settle(before.ring, Ok::<(), ()>(())),
                    in_flight: None,
                    dropped: (before.dropped + lost(before.flash, dropped)) as nat,
                    rescued: if before.ring.lent {
                        before.rescued
                    } else {
                        before.rescued + 1
                    },
                    ..before
                },
                Outcome::Failed { dropped } => Ledger {
                    flash: shortened(before.flash, dropped),
                    ring: after_settle(before.ring, Err::<(), ()>(())),
                    in_flight: None,
                    dropped: (before.dropped + lost(before.flash, dropped)) as nat,
                    ..before
                },
            },
            None => before,
        },
        Event::Abandon { dropped } => if before.in_flight is Some {
            Ledger {
                flash: shortened(before.flash, dropped),
                in_flight: None,
                dropped: (before.dropped + lost(before.flash, dropped)) as nat,
                ..before
            }
        } else {
            before
        },
        Event::Pop => if before.flash.len() > 0 {
            Ledger {
                popped: before.popped.push(before.flash[0]),
                flash: before.flash.drop_first(),
                ..before
            }
        } else {
            before
        },
    }
}

/// The ledger of a queue, with a ring of `capacity` bytes on top of a flash queue that held `flash`,
/// after `events`.
pub open spec fn lived(flash: Seq<Seq<u8>>, capacity: nat, events: Seq<Event>) -> Ledger
    decreases events.len(),
{
    if events.len() == 0 {
        opened(flash)
    } else {
        stepped(lived(flash, capacity, events.drop_last()), capacity, events.last())
    }
}

/// Whether `at` picks `part` out of `whole` from the front to the back.
pub open spec fn picks(part: Seq<Seq<u8>>, whole: Seq<Seq<u8>>, at: spec_fn(int) -> int) -> bool {
    &&& forall|i: int|
        0 <= i < part.len() ==> 0 <= #[trigger] at(i) < whole.len() && whole[at(i)] == part[i]
    &&& forall|i: int, j: int| 0 <= i < j < part.len() ==> #[trigger] at(i) < #[trigger] at(j)
}

/// Whether `part` is `whole` with some items left out: none new, none twice, none in another order.
pub open spec fn in_order(part: Seq<Seq<u8>>, whole: Seq<Seq<u8>>) -> bool {
    exists|at: spec_fn(int) -> int| picks(part, whole, at)
}

/// Leaving out one more run of items keeps the order.
proof fn lemma_leave_out(part: Seq<Seq<u8>>, whole: Seq<Seq<u8>>, from: int, to: int)
    requires
        in_order(part, whole),
        0 <= from <= to <= part.len(),
    ensures
        in_order(part.take(from) + part.skip(to), whole),
{
    let at = choose|at: spec_fn(int) -> int| picks(part, whole, at);
    let rest = part.take(from) + part.skip(to);
    let next = |i: int|
        if i < from {
            at(i)
        } else {
            at(i + to - from)
        };
    assert(picks(rest, whole, next));
}

/// An item that comes last in both keeps the order.
proof fn lemma_both_push(part: Seq<Seq<u8>>, whole: Seq<Seq<u8>>, item: Seq<u8>)
    requires
        in_order(part, whole),
    ensures
        in_order(part.push(item), whole.push(item)),
{
    let at = choose|at: spec_fn(int) -> int| picks(part, whole, at);
    let next = |i: int|
        if i < part.len() {
            at(i)
        } else {
            whole.len() as int
        };
    assert(picks(part.push(item), whole.push(item), next));
}

/// The items of a queue in the order in which they go. An item that is being written is still in the
/// ring, as its oldest one, unless it was evicted.
spec fn line(l: Ledger) -> Seq<Seq<u8>> {
    if l.in_flight is Some && !l.ring.lent {
        l.popped + l.flash + seq![l.in_flight->0] + l.ring.items
    } else {
        l.popped + l.flash + l.ring.items
    }
}

/// What holds of a queue at every moment.
spec fn consistent(l: Ledger) -> bool {
    &&& in_order(line(l), l.accepted)
    &&& l.in_flight is Some && l.ring.lent ==> l.ring.items.len() > 0 && l.ring.items[0]
        == l.in_flight->0
}

/// Enqueuing an item keeps a queue consistent.
proof fn lemma_enqueue_consistent(
    l: Ledger,
    capacity: nat,
    data: Seq<u8>,
    policy: OverflowPolicy,
)
    requires
        consistent(l),
    ensures
        consistent(stepped(l, capacity, Event::Enqueue { data, policy })),
{
    let after = stepped(l, capacity, Event::Enqueue { data, policy });
    if accepted(l.ring.items, data, capacity, policy) {
        let gone = evicted(l.ring.items, data, capacity, policy);
        lemma_evict_is_suffix(l.ring.items, data, capacity);
        assert(l.ring.items.skip(0) =~= l.ring.items);
        assert(after.ring.items == l.ring.items.skip(gone).push(data));
        let n = (l.popped + l.flash).len() as int;
        if l.in_flight is Some && (!l.ring.lent || gone > 0) {
            let to = if l.ring.lent {
                n + gone
            } else {
                n + 1 + gone
            };
            lemma_leave_out(line(l), l.accepted, n + 1, to);
            let rest = line(l).take(n + 1) + line(l).skip(to);
            lemma_both_push(rest, l.accepted, data);
            assert(line(after) =~= rest.push(data));
        } else {
            lemma_leave_out(line(l), l.accepted, n, n + gone);
            let rest = line(l).take(n) + line(l).skip(n + gone);
            lemma_both_push(rest, l.accepted, data);
            assert(line(after) =~= rest.push(data));
        }
    } else {
        assert(after == l);
    }
}

/// The report of a write keeps a queue consistent.
proof fn lemma_report_consistent(l: Ledger, capacity: nat, outcome: Outcome)
    requires
        consistent(l),
    ensures
        consistent(stepped(l, capacity, Event::Report { outcome })),
{
    let after = stepped(l, capacity, Event::Report { outcome });
    if l.in_flight is Some {
        let dropped = match outcome {
            Outcome::Stored { dropped } => dropped,
            Outcome::Failed { dropped } => dropped,
        };
        let k = lost(l.flash, dropped);
        let p = l.popped.len() as int;
        let n = (l.popped + l.flash).len() - k;
        lemma_leave_out(line(l), l.accepted, p, p + k);
        let kept = line(l).take(p) + line(l).skip(p + k);
        if outcome is Failed && !l.ring.lent {
            lemma_leave_out(kept, l.accepted, n, n + 1);
            assert(line(after) =~= kept.take(n) + kept.skip(n + 1));
        } else {
            assert(line(after) =~= kept);
        }
    }
}

/// Giving up a drain keeps a queue consistent.
proof fn lemma_abandon_consistent(l: Ledger, capacity: nat, dropped: nat)
    requires
        consistent(l),
    ensures
        consistent(stepped(l, capacity, Event::Abandon { dropped })),
{
    let after = stepped(l, capacity, Event::Abandon { dropped });
    if l.in_flight is Some {
        let k = lost(l.flash, dropped);
        let p = l.popped.len() as int;
        let n = (l.popped + l.flash).len() - k;
        lemma_leave_out(line(l), l.accepted, p, p + k);
        let kept = line(l).take(p) + line(l).skip(p + k);
        if l.ring.lent {
            assert(line(after) =~= kept);
        } else {
            lemma_leave_out(kept, l.accepted, n, n + 1);
            assert(line(after) =~= kept.take(n) + kept.skip(n + 1));
        }
    }
}

/// A queue is consistent throughout its life.
proof fn lemma_always_consistent(flash: Seq<Seq<u8>>, capacity: nat, events: Seq<Event>)
    ensures
        consistent(lived(flash, capacity, events)),
    decreases events.len(),
{
    if events.len() == 0 {
        assert(line(opened(flash)) =~= flash);
        assert(picks(flash, flash, |i: int| i));
    } else {
        let before = lived(flash, capacity, events.drop_last());
        let after = lived(flash, capacity, events);
        lemma_always_consistent(flash, capacity, events.drop_last());
        match events.last() {
            Event::Enqueue { data, policy } => {
                lemma_enqueue_consistent(before, capacity, data, policy);
            },
            Event::HandOut { scratch } => {
                assert(line(after) =~= line(before));
            },
            Event::Report { outcome } => {
                lemma_report_consistent(before, capacity, outcome);
            },
            Event::Abandon { dropped } => {
                lemma_abandon_consistent(before, capacity, dropped);
            },
            Event::Pop => {
                assert(line(after) =~= line(before));
            },
        }
    }
}

/// FIFO ordering is always preserved, in whichever order the steps come: the items that were popped,
/// those in flash and those in the ring, in this order, are items that were accepted, in the order
/// in which they came. So items in flash are older than items in the ring, and an item never
/// overtakes an older one, comes twice, or comes from nowhere.
pub proof fn law_order_is_always_preserved(
    flash: Seq<Seq<u8>>,
    capacity: nat,
    events: Seq<Event>,
)
    ensures
        ({
            let l = lived(flash, capacity, events);
            in_order(l.popped + l.flash + l.ring.items, l.accepted)
        }),
{
    let l = lived(flash, capacity, events);
    lemma_always_consistent(flash, capacity, events);
    if l.in_flight is Some && !l.ring.lent {
        let n = (l.popped + l.flash).len() as int;
        lemma_leave_out(line(l), l.accepted, n, n + 1);
        assert(l.popped + l.flash + l.ring.items =~= line(l).take(n) + line(l).skip(n + 1));
    }
}

/// A drain takes out of the ring only what it has written, and only once it has: after a successful
/// write just the written item leaves, or none if that one was evicted in the meantime. After a
/// failed write none leaves. Whatever was enqueued during the write stays.
pub proof fn law_drain_takes_only_what_it_wrote(
    flash: Seq<Seq<u8>>,
    capacity: nat,
    events: Seq<Event>,
    outcome: Outcome,
)
    requires
        lived(flash, capacity, events).in_flight is Some,
    ensures
        ({
            let before = lived(flash, capacity, events);
            let after = lived(flash, capacity, events.push(Event::Report { outcome }));
            let item = before.in_flight->0;
            match outcome {
                Outcome::Stored { dropped } => {
                    &&& after.flash == shortened(before.flash, dropped).push(item)
                    &&& before.ring.lent ==> before.ring.items == seq![item] + after.ring.items
                    &&& !before.ring.lent ==> after.ring.items == before.ring.items
                },
                Outcome::Failed { dropped } => {
                    &&& after.flash == shortened(before.flash, dropped)
                    &&& after.ring.items == before.ring.items
                },
            }
        }),
{
    let before = lived(flash, capacity, events);
    let after = lived(flash, capacity, events.push(Event::Report { outcome }));
    assert(events.push(Event::Report { outcome }).drop_last() =~= events);
    lemma_always_consistent(flash, capacity, events);
    if before.ring.lent && outcome is Stored {
        assert(before.ring.items =~= seq![before.in_flight->0] + after.ring.items);
    }
}

/// Whether a step discards nothing: it does not let the ring evict, nor the flash queue drop, an
/// item.
pub open spec fn discards_nothing(event: Event) -> bool {
    match event {
        Event::Enqueue { policy, .. } => policy == OverflowPolicy::Error,
        Event::Report { outcome: Outcome::Stored { dropped } } => dropped == 0,
        Event::Report { outcome: Outcome::Failed { dropped } } => dropped == 0,
        Event::Abandon { dropped } => dropped == 0,
        _ => true,
    }
}

/// Nothing is lost, unless it may be: where neither the ring may evict items nor the flash queue may
/// drop any, every item that was ever accepted has been popped, is in flash or is in the ring, once
/// and in its place. This holds though writes fail, and though items come while a write is under
/// way.
pub proof fn law_nothing_is_lost(flash: Seq<Seq<u8>>, capacity: nat, events: Seq<Event>)
    requires
        forall|i: int| 0 <= i < events.len() ==> discards_nothing(#[trigger] events[i]),
    ensures
        ({
            let l = lived(flash, capacity, events);
            l.popped + l.flash + l.ring.items == l.accepted
        }),
{
    lemma_nothing_is_lost(flash, capacity, events);
}

/// The same, with what is needed to go on from one step to the next.
proof fn lemma_nothing_is_lost(flash: Seq<Seq<u8>>, capacity: nat, events: Seq<Event>)
    requires
        forall|i: int| 0 <= i < events.len() ==> discards_nothing(#[trigger] events[i]),
    ensures
        ({
            let l = lived(flash, capacity, events);
            &&& l.popped + l.flash + l.ring.items == l.accepted
            &&& l.in_flight is Some ==> l.ring.lent
        }),
    decreases events.len(),
{
    let after = lived(flash, capacity, events);
    if events.len() == 0 {
        assert(after.popped + after.flash + after.ring.items =~= after.accepted);
    } else {
        let earlier = events.drop_last();
        let before = lived(flash, capacity, earlier);
        assert forall|i: int| 0 <= i < earlier.len() implies discards_nothing(
            #[trigger] earlier[i],
        ) by {
            assert(earlier[i] == events[i]);
        }
        lemma_nothing_is_lost(flash, capacity, earlier);
        lemma_always_consistent(flash, capacity, earlier);
        assert(discards_nothing(events[events.len() - 1]));
        assert(before.flash.skip(0) =~= before.flash);
        assert(after.popped + after.flash + after.ring.items =~= after.accepted);
    }
}

/// Only what was evicted or dropped is missing, in whichever order the steps come: every accepted item
/// has been popped, is in flash, is in the ring, or was evicted by the ring or dropped by the flash
/// queue to make room. An item that was evicted while it was being written, and reached flash all
/// the same, is in two of these places.
pub proof fn law_only_discarded_items_are_missing(
    flash: Seq<Seq<u8>>,
    capacity: nat,
    events: Seq<Event>,
)
    ensures
        ({
            let l = lived(flash, capacity, events);
            l.accepted.len() + l.rescued == l.popped.len() + l.flash.len() + l.ring.items.len()
                + l.evicted + l.dropped
        }),
    decreases events.len(),
{
    if events.len() > 0 {
        let earlier = events.drop_last();
        let before = lived(flash, capacity, earlier);
        law_only_discarded_items_are_missing(flash, capacity, earlier);
        lemma_always_consistent(flash, capacity, earlier);
        if let Event::Enqueue { data, policy } = events.last() {
            lemma_evict_is_suffix(before.ring.items, data, capacity);
        }
    }
}

} // verus!
