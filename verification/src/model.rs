//! The mathematical model of a ring of byte items.
//!
//! A ring is the sequence of its items, oldest first. Everything else that the library promises of
//! a ring (how many bytes it occupies, what they are, which items leave when it is full) is a
//! function of that sequence and of the capacity.

use vstd::prelude::*;

use crate::OverflowPolicy;

verus! {

/// Bytes of the length prefix in front of every item.
pub const PREFIX_BYTES: usize = 2;

/// Longest item that a length prefix can describe.
pub const MAX_ITEM_BYTES: usize = 0xffff;

/// Bytes that one item occupies: its prefix and its data.
pub open spec fn record_size(item: Seq<u8>) -> nat {
    PREFIX_BYTES as nat + item.len()
}

/// The two-byte little-endian length prefix of an item of `len` bytes.
pub open spec fn prefix(len: nat) -> Seq<u8> {
    seq![(len % 256) as u8, (len / 256) as u8]
}

/// One item as it lies in the ring.
pub open spec fn record(item: Seq<u8>) -> Seq<u8> {
    prefix(item.len()) + item
}

/// Bytes that all of `items` occupy.
pub open spec fn bytes_of(items: Seq<Seq<u8>>) -> nat
    decreases items.len(),
{
    if items.len() == 0 {
        0
    } else {
        bytes_of(items.drop_last()) + record_size(items.last())
    }
}

/// The records of `items`, one behind the other.
pub open spec fn encode(items: Seq<Seq<u8>>) -> Seq<u8>
    decreases items.len(),
{
    if items.len() == 0 {
        Seq::empty()
    } else {
        encode(items.drop_last()) + record(items.last())
    }
}

/// Whether `data` can lie in a ring of `capacity` bytes at all.
pub open spec fn storable(data: Seq<u8>, capacity: nat) -> bool {
    data.len() <= MAX_ITEM_BYTES && record_size(data) <= capacity
}

/// Whether a ring of `capacity` bytes that holds `items` has room for `data` as well.
pub open spec fn has_room(items: Seq<Seq<u8>>, data: Seq<u8>, capacity: nat) -> bool {
    data.len() <= MAX_ITEM_BYTES && bytes_of(items) + record_size(data) <= capacity
}

/// What is left of `items` once the oldest have made way, one by one, until `data` fits.
pub open spec fn evict_for(items: Seq<Seq<u8>>, data: Seq<u8>, capacity: nat) -> Seq<Seq<u8>>
    decreases items.len(),
{
    if items.len() == 0 || bytes_of(items) + record_size(data) <= capacity {
        items
    } else {
        evict_for(items.drop_first(), data, capacity)
    }
}

/// Whether a ring of `capacity` bytes that holds `items` takes `data` under `policy`.
pub open spec fn accepted(
    items: Seq<Seq<u8>>,
    data: Seq<u8>,
    capacity: nat,
    policy: OverflowPolicy,
) -> bool {
    match policy {
        OverflowPolicy::Error => has_room(items, data, capacity),
        OverflowPolicy::DiscardOldest => storable(data, capacity),
    }
}

/// What a ring of `capacity` bytes that holds `items` holds once `data` has been enqueued under
/// `policy`: the same where the item is refused.
pub open spec fn enqueued(
    items: Seq<Seq<u8>>,
    data: Seq<u8>,
    capacity: nat,
    policy: OverflowPolicy,
) -> Seq<Seq<u8>> {
    if !accepted(items, data, capacity, policy) {
        items
    } else {
        match policy {
            OverflowPolicy::Error => items.push(data),
            OverflowPolicy::DiscardOldest => evict_for(items, data, capacity).push(data),
        }
    }
}

/// How many items leave a ring of `capacity` bytes that holds `items` when `data` is enqueued.
pub open spec fn evicted(
    items: Seq<Seq<u8>>,
    data: Seq<u8>,
    capacity: nat,
    policy: OverflowPolicy,
) -> int {
    if policy == OverflowPolicy::DiscardOldest && accepted(items, data, capacity, policy) {
        items.len() - evict_for(items, data, capacity).len()
    } else {
        0
    }
}

/// The length of the oldest of `items`, if there is one.
pub open spec fn oldest_len_of(items: Seq<Seq<u8>>) -> Option<usize> {
    if items.len() == 0 {
        None
    } else {
        Some(items[0].len() as usize)
    }
}

/// `items` without the oldest one.
pub open spec fn without_oldest(items: Seq<Seq<u8>>) -> Seq<Seq<u8>> {
    if items.len() == 0 {
        items
    } else {
        items.drop_first()
    }
}

/// `items` once the oldest one has been discarded `times` times.
pub open spec fn discarded(items: Seq<Seq<u8>>, times: nat) -> Seq<Seq<u8>>
    decreases times,
{
    if times == 0 {
        items
    } else {
        discarded(without_oldest(items), (times - 1) as nat)
    }
}

/// Whether `items` can be the contents of a ring of `capacity` bytes.
pub open spec fn admissible(items: Seq<Seq<u8>>, capacity: nat) -> bool {
    &&& bytes_of(items) <= capacity
    &&& forall|i: int| 0 <= i < items.len() ==> (#[trigger] items[i]).len() <= MAX_ITEM_BYTES
}

/// The records of `items` take exactly `bytes_of(items)` bytes, at least a prefix for each item.
pub proof fn lemma_encode_len(items: Seq<Seq<u8>>)
    ensures
        encode(items).len() == bytes_of(items),
        PREFIX_BYTES * items.len() <= bytes_of(items),
    decreases items.len(),
{
    if items.len() > 0 {
        lemma_encode_len(items.drop_last());
    }
}

/// The occupied bytes, split behind the newest item.
pub proof fn lemma_push(items: Seq<Seq<u8>>, data: Seq<u8>)
    ensures
        bytes_of(items.push(data)) == bytes_of(items) + record_size(data),
        encode(items.push(data)) == encode(items) + record(data),
{
    assert(items.push(data).drop_last() =~= items);
}

/// The occupied bytes, split behind the oldest item.
pub proof fn lemma_drop_first(items: Seq<Seq<u8>>)
    requires
        items.len() > 0,
    ensures
        bytes_of(items) == record_size(items[0]) + bytes_of(items.drop_first()),
        encode(items) == record(items[0]) + encode(items.drop_first()),
    decreases items.len(),
{
    if items.len() == 1 {
        assert(items.drop_last() =~= Seq::empty());
        assert(items.drop_first() =~= Seq::empty());
        assert(encode(items.drop_last()) =~= Seq::empty());
        assert(encode(items) =~= record(items[0]) + encode(items.drop_first()));
    } else {
        lemma_drop_first(items.drop_last());
        assert(items.drop_last().drop_first() =~= items.drop_first().drop_last());
        assert(items.drop_first().last() == items.last());
        assert(encode(items) =~= record(items[0]) + encode(items.drop_first()));
    }
}

/// Discarding as many times as there are items to spare skips that many.
proof fn lemma_discarded_is_skip(items: Seq<Seq<u8>>, times: nat)
    requires
        times <= items.len(),
    ensures
        discarded(items, times) == items.skip(times as int),
    decreases times,
{
    if times == 0 {
        assert(items.skip(0) =~= items);
    } else {
        lemma_discarded_is_skip(items.drop_first(), (times - 1) as nat);
        assert(items.drop_first().skip(times - 1) =~= items.skip(times as int));
    }
}

/// What eviction leaves is a run of the newest items, in their order.
pub proof fn lemma_evict_is_suffix(items: Seq<Seq<u8>>, data: Seq<u8>, capacity: nat)
    ensures
        evict_for(items, data, capacity).len() <= items.len(),
        evict_for(items, data, capacity) == items.skip(
            items.len() - evict_for(items, data, capacity).len(),
        ),
    decreases items.len(),
{
    if items.len() == 0 || bytes_of(items) + record_size(data) <= capacity {
        assert(items.skip(0) =~= items);
    } else {
        let rest = items.drop_first();
        let left = evict_for(rest, data, capacity);
        lemma_evict_is_suffix(rest, data, capacity);
        assert(rest.skip(rest.len() - left.len()) =~= items.skip(items.len() - left.len()));
    }
}

/// Where discarding the oldest items is allowed, an item that fits in the ring at all is always
/// accepted: it becomes the newest item, and behind it nothing has changed but that the oldest
/// items may be gone.
pub proof fn law_discard_oldest_accepts(items: Seq<Seq<u8>>, data: Seq<u8>, capacity: nat)
    requires
        storable(data, capacity),
    ensures
        accepted(items, data, capacity, OverflowPolicy::DiscardOldest),
        has_room(evict_for(items, data, capacity), data, capacity),
        exists|gone: int|
            0 <= gone <= items.len() && enqueued(
                items,
                data,
                capacity,
                OverflowPolicy::DiscardOldest,
            ) == (#[trigger] items.skip(gone)).push(data),
    decreases items.len(),
{
    lemma_evict_is_suffix(items, data, capacity);
    let left = evict_for(items, data, capacity);
    assert(enqueued(items, data, capacity, OverflowPolicy::DiscardOldest) == items.skip(
        items.len() - left.len(),
    ).push(data));
    if items.len() > 0 && bytes_of(items) + record_size(data) > capacity {
        law_discard_oldest_accepts(items.drop_first(), data, capacity);
    }
}

/// No more items are discarded than have to be: with one more item kept, there would be no room.
/// In particular nothing is discarded where there is room already.
pub proof fn law_discard_oldest_is_minimal(
    items: Seq<Seq<u8>>,
    data: Seq<u8>,
    capacity: nat,
    kept: int,
)
    requires
        evict_for(items, data, capacity).len() < kept <= items.len(),
    ensures
        !has_room(items.skip(items.len() - kept), data, capacity),
    decreases items.len(),
{
    let rest = items.drop_first();
    if kept == items.len() {
        assert(items.skip(0) =~= items);
    } else {
        law_discard_oldest_is_minimal(rest, data, capacity, kept);
        assert(rest.skip(rest.len() - kept) =~= items.skip(items.len() - kept));
    }
}

/// Bytes are occupied by the items alone: none by no items, and by each item two for its length and
/// as many as it has.
pub proof fn law_bytes_add_up(items: Seq<Seq<u8>>, item: Seq<u8>)
    ensures
        bytes_of(Seq::<Seq<u8>>::empty()) == 0,
        bytes_of(items.push(item)) == bytes_of(items) + 2 + item.len(),
        bytes_of(seq![item] + items) == 2 + item.len() + bytes_of(items),
{
    lemma_push(items, item);
    lemma_drop_first(seq![item] + items);
    assert((seq![item] + items).drop_first() =~= items);
}

/// An item is stored as the low and the high byte of its length, followed by its bytes, behind the
/// items that are there already.
pub proof fn law_item_is_stored_behind_its_length(items: Seq<Seq<u8>>, item: Seq<u8>)
    requires
        item.len() <= 0xffff,
    ensures
        encode(Seq::<Seq<u8>>::empty()) == Seq::<u8>::empty(),
        ({
            let (before, after) = (encode(items), encode(items.push(item)));
            &&& after.len() == before.len() + 2 + item.len()
            &&& after.take(before.len() as int) == before
            &&& after[before.len() as int] + 256 * after[before.len() as int + 1] == item.len()
            &&& after.skip(before.len() as int + 2) == item
        }),
{
    lemma_push(items, item);
    let (before, after) = (encode(items), encode(items.push(item)));
    assert(after.take(before.len() as int) =~= before);
    assert(after.skip(before.len() as int + 2) =~= item);
}

/// Where items are discarded to make room, just the oldest items go, and just as many as have to:
/// with any fewer gone, the item would not fit. Where it fits as it is, none goes.
pub proof fn law_eviction_is_least(items: Seq<Seq<u8>>, data: Seq<u8>, capacity: nat)
    requires
        data.len() <= 0xffff,
        2 + data.len() <= capacity,
    ensures
        ({
            let gone = evicted(items, data, capacity, OverflowPolicy::DiscardOldest);
            &&& 0 <= gone <= items.len()
            &&& enqueued(items, data, capacity, OverflowPolicy::DiscardOldest) == items.skip(
                gone,
            ).push(data)
            &&& bytes_of(items.skip(gone)) + 2 + data.len() <= capacity
            &&& forall|g: int|
                0 <= g < gone ==> bytes_of(#[trigger] items.skip(g)) + 2 + data.len() > capacity
        }),
{
    let gone = evicted(items, data, capacity, OverflowPolicy::DiscardOldest);
    law_discard_oldest_accepts(items, data, capacity);
    lemma_evict_is_suffix(items, data, capacity);
    assert forall|g: int| 0 <= g < gone implies bytes_of(#[trigger] items.skip(g)) + 2 + data.len()
        > capacity by {
        law_discard_oldest_is_minimal(items, data, capacity, items.len() - g);
    }
}

/// Nothing is evicted where the policy does not say so, nor for an item that cannot be stored; and an
/// item that is refused leaves everything as it is.
pub proof fn law_refusal_changes_nothing(
    items: Seq<Seq<u8>>,
    data: Seq<u8>,
    capacity: nat,
    policy: OverflowPolicy,
)
    ensures
        data.len() > 0xffff || 2 + data.len() > capacity ==> {
            &&& !accepted(items, data, capacity, policy)
            &&& enqueued(items, data, capacity, policy) == items
            &&& evicted(items, data, capacity, policy) == 0
        },
        policy == OverflowPolicy::Error ==> {
            let fits = data.len() <= 0xffff && bytes_of(items) + 2 + data.len() <= capacity;
            &&& accepted(items, data, capacity, policy) <==> fits
            &&& fits ==> enqueued(items, data, capacity, policy) == items.push(data)
            &&& !fits ==> enqueued(items, data, capacity, policy) == items
            &&& evicted(items, data, capacity, policy) == 0
        },
{
}

/// The two policies differ only where the ring is full: with room for the item, each appends it.
pub proof fn law_policies_agree_with_room(items: Seq<Seq<u8>>, data: Seq<u8>, capacity: nat)
    requires
        has_room(items, data, capacity),
    ensures
        accepted(items, data, capacity, OverflowPolicy::Error),
        accepted(items, data, capacity, OverflowPolicy::DiscardOldest),
        enqueued(items, data, capacity, OverflowPolicy::Error) == items.push(data),
        enqueued(items, data, capacity, OverflowPolicy::DiscardOldest) == items.push(data),
{
}

/// Whatever is enqueued, and under whichever policy, a ring stays within its capacity.
pub proof fn law_enqueue_keeps_capacity(
    items: Seq<Seq<u8>>,
    data: Seq<u8>,
    capacity: nat,
    policy: OverflowPolicy,
)
    requires
        admissible(items, capacity),
    ensures
        admissible(enqueued(items, data, capacity, policy), capacity),
{
    if accepted(items, data, capacity, policy) {
        let left = match policy {
            OverflowPolicy::Error => items,
            OverflowPolicy::DiscardOldest => evict_for(items, data, capacity),
        };
        if policy == OverflowPolicy::DiscardOldest {
            law_discard_oldest_accepts(items, data, capacity);
            lemma_evict_is_suffix(items, data, capacity);
        }
        lemma_push(left, data);
    }
}

/// An item that is accepted has at most two bytes less than the capacity.
pub proof fn law_accepted_items_leave_room_for_prefix(
    items: Seq<Seq<u8>>,
    data: Seq<u8>,
    capacity: nat,
    policy: OverflowPolicy,
)
    requires
        accepted(items, data, capacity, policy),
    ensures
        data.len() + 2 <= capacity,
{
}

/// First in, first out: items come out in the order in which they were pushed, unchanged. Of a ring
/// into which `data` was pushed last, `data` is the oldest item once all earlier ones have been
/// discarded, and before that the earlier ones are, in turn.
pub proof fn law_first_in_first_out(items: Seq<Seq<u8>>, data: Seq<u8>, times: nat)
    requires
        times <= items.len(),
    ensures
        discarded(items.push(data), times).len() == items.len() + 1 - times,
        discarded(items.push(data), times)[0] == if times < items.len() {
            items[times as int]
        } else {
            data
        },
{
    lemma_discarded_is_skip(items.push(data), times);
}

/// Two different lists of admissible items never occupy the same bytes: what was stored can be read
/// back from the bytes alone.
pub proof fn law_records_are_unambiguous(a: Seq<Seq<u8>>, b: Seq<Seq<u8>>, capacity: nat)
    requires
        admissible(a, capacity),
        admissible(b, capacity),
        encode(a) == encode(b),
    ensures
        a == b,
    decreases a.len(),
{
    lemma_encode_len(a);
    lemma_encode_len(b);
    if a.len() == 0 || b.len() == 0 {
        assert(a =~= b);
    } else {
        lemma_drop_first(a);
        lemma_drop_first(b);
        let (ra, rb) = (a.drop_first(), b.drop_first());
        let bytes = encode(a);
        assert(record(a[0])[0] == bytes[0] && record(b[0])[0] == bytes[0]);
        assert(record(a[0])[1] == bytes[1] && record(b[0])[1] == bytes[1]);
        let n = a[0].len();
        assert(n == b[0].len());
        assert forall|i: int| 0 <= i < n implies a[0][i] == b[0][i] by {
            assert(record(a[0])[i + 2] == bytes[i + 2]);
            assert(record(b[0])[i + 2] == bytes[i + 2]);
        }
        assert(a[0] =~= b[0]);
        assert(encode(ra) =~= bytes.skip(n as int + 2));
        assert(encode(rb) =~= bytes.skip(n as int + 2));
        law_records_are_unambiguous(ra, rb, capacity);
        assert(a =~= seq![a[0]] + ra);
        assert(b =~= seq![b[0]] + rb);
    }
}

} // verus!
