//! A ring that items are drained from.

use vstd::prelude::*;

use crate::drain::{after_peek, Action, Task};
use crate::{OverflowPolicy, RamRing};

verus! {

use crate::drain::{
    action_after, after_enqueue, after_hand_out, after_report, after_settle, filled, goes_on,
    handed_out, next_action, RingState,
};
use crate::model::{accepted, admissible, bytes_of, lemma_evict_is_suffix, oldest_len_of};

/// A RAM ring together with the knowledge whether its oldest item is the one that has been handed
/// out to be written to flash.
///
/// Each method is one step on the ring. Steps may come in any order, and from any context, as long
/// as they come one at a time: in particular an item may be enqueued between the moment at which an
/// item is handed out and the report of its write.
pub struct Outbox<const N: usize> {
    ring: RamRing<N>,
    lent: bool,
}

impl<const N: usize> View for Outbox<N> {
    type V = RingState;

    closed spec fn view(&self) -> RingState {
        RingState { items: self.ring@, lent: self.lent }
    }
}

impl<const N: usize> Outbox<N> {
    /// An empty ring.
    pub fn new() -> (outbox: Self)
        ensures
            outbox@ == (RingState { items: Seq::empty(), lent: false }),
    {
        Outbox { ring: RamRing::new(), lent: false }
    }

    /// Enqueues an item.
    ///
    /// When the ring is full, `policy` decides: return `Err(())`, with the ring as it was, or evict
    /// the oldest items.
    pub fn enqueue(&mut self, data: &[u8], policy: OverflowPolicy) -> (result: Result<(), ()>)
        ensures
            admissible(old(self)@.items, N as nat),
            result is Ok <==> accepted(old(self)@.items, data@, N as nat, policy),
            final(self)@ == after_enqueue(old(self)@, data@, N as nat, policy),
    {
        proof {
            use_type_invariant(&self.ring);
            self.ring.law_layout();
            lemma_evict_is_suffix(self.ring@, data@, N as nat);
        }
        match policy {
            OverflowPolicy::Error => self.ring.push(data),
            OverflowPolicy::DiscardOldest => {
                let count: usize = self.ring.len();
                let result = self.ring.push_overwriting(data);
                if result.is_ok() && self.ring.len() <= count {
                    self.lent = false;
                }
                result
            },
        }
    }

    /// Copies the oldest item to the front of `scratch`, to be written from there, and returns its
    /// length. Returns `None` if there is no item or it does not fit.
    pub fn hand_out(&mut self, scratch: &mut [u8]) -> (len: Option<usize>)
        ensures
            admissible(final(self)@.items, N as nat),
            len == if handed_out(old(self)@.items, old(scratch)@.len()) {
                Some(old(self)@.items[0].len() as usize)
            } else {
                None
            },
            final(scratch)@ == filled(old(self)@.items, old(scratch)@),
            final(self)@ == after_hand_out(old(self)@, old(scratch)@.len()),
    {
        proof {
            use_type_invariant(&self.ring);
            self.ring.law_layout();
        }
        let len: Option<usize> = match self.ring.peek_into(scratch) {
            Some(item) => Some(item.len()),
            None => None,
        };
        self.lent = len.is_some();
        len
    }

    /// Takes the report of a write, and returns whether an item left the ring for it.
    ///
    /// After a successful write the item that was handed out leaves. If it has been evicted in the
    /// meantime, no other item leaves in its place.
    pub fn settle<E>(&mut self, written: &Result<(), E>) -> (gone: bool)
        ensures
            gone <==> written is Ok && old(self)@.lent,
            final(self)@ == after_settle(old(self)@, *written),
    {
        let gone: bool = written.is_ok() && self.lent;
        if gone {
            self.ring.discard_oldest();
        }
        self.lent = false;
        gone
    }

    /// Starts a drain.
    ///
    /// Where the next action is a write, the item to write has been copied to the front of
    /// `scratch`. An item that does not fit in `scratch` is not handed out, nor is any behind it.
    pub fn begin<E>(&mut self, task: Task, scratch: &mut [u8]) -> (action: Action<E>)
        ensures
            admissible(final(self)@.items, N as nat),
            action == next_action::<E>(task, old(self)@.items, old(scratch)@.len()),
            final(scratch)@ == filled(old(self)@.items, old(scratch)@),
            final(self)@ == after_hand_out(old(self)@, old(scratch)@.len()),
    {
        let peeked: Option<usize> = self.hand_out(scratch);
        after_peek(task, peeked)
    }

    /// Goes on with a drain after the write that it asked for: first takes the report `written` of
    /// that write, and then, if the drain goes on, hands out the next item.
    pub fn resume<E>(&mut self, task: Task, scratch: &mut [u8], written: Result<(), E>) -> (action:
        Action<E>)
        ensures
            admissible(old(self)@.items, N as nat),
            admissible(final(self)@.items, N as nat),
            final(self)@ == after_report(task, old(self)@, old(scratch)@.len(), written),
            action == action_after(
                task,
                after_settle(old(self)@, written).items,
                old(scratch)@.len(),
                written,
            ),
            final(scratch)@ == if goes_on(task, written) {
                filled(after_settle(old(self)@, written).items, old(scratch)@)
            } else {
                old(scratch)@
            },
    {
        proof {
            use_type_invariant(&self.ring);
            self.ring.law_layout();
        }
        self.settle(&written);
        proof {
            use_type_invariant(&self.ring);
            self.ring.law_layout();
        }
        match written {
            Ok(()) => match task {
                Task::DrainOne => Action::Committed,
                _ => self.begin(task, scratch),
            },
            Err(error) => Action::Fail(error),
        }
    }

    /// Number of items in the ring.
    pub fn len(&self) -> (count: usize)
        ensures
            admissible(self@.items, N as nat),
            count == self@.items.len(),
    {
        proof {
            use_type_invariant(&self.ring);
            self.ring.law_layout();
        }
        self.ring.len()
    }

    /// Bytes currently occupied (including length prefixes).
    pub fn bytes_used(&self) -> (used: usize)
        ensures
            admissible(self@.items, N as nat),
            used == bytes_of(self@.items),
    {
        proof {
            use_type_invariant(&self.ring);
            self.ring.law_layout();
        }
        self.ring.bytes_used()
    }

    /// Byte length of the oldest item, or `None` if the ring is empty.
    pub fn oldest_len(&self) -> (len: Option<usize>)
        ensures
            admissible(self@.items, N as nat),
            len == oldest_len_of(self@.items),
    {
        proof {
            use_type_invariant(&self.ring);
            self.ring.law_layout();
        }
        self.ring.oldest_len()
    }
}

} // verus!
