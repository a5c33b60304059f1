//! A fixed-capacity ring of variable-length byte items.

use vstd::prelude::*;

use crate::model::{MAX_ITEM_BYTES, PREFIX_BYTES};

verus! {

use crate::model::{
    admissible, bytes_of, encode, evict_for, has_room, lemma_drop_first, lemma_encode_len, lemma_push,
    oldest_len_of, prefix, record, record_size, storable, without_oldest,
};

/// The position `offset` of an unrolled ring of `capacity` bytes, for `offset < 2 * capacity`.
spec fn wrap(offset: int, capacity: int) -> int {
    if offset >= capacity {
        offset - capacity
    } else {
        offset
    }
}

/// Where the occupied part of the buffer lies, and which items it holds.
struct Cursor {
    read_pos: usize,
    write_pos: usize,
    /// Total bytes occupied (length prefixes and data).
    used: usize,
    item_count: usize,
    items: Ghost<Seq<Seq<u8>>>,
}

/// A compact, fixed-capacity ring buffer for variable-length byte items.
///
/// Each item is stored as a two-byte little-endian length prefix followed by the item's bytes, so
/// an item can have at most `N - 2` bytes. The view of a ring is the sequence of its items, oldest
/// first.
pub struct RamRing<const N: usize> {
    buf: [u8; N],
    cursor: Cursor,
}

impl<const N: usize> View for RamRing<N> {
    type V = Seq<Seq<u8>>;

    closed spec fn view(&self) -> Seq<Seq<u8>> {
        self.cursor.items@
    }
}

/// The low and the high byte of a length that a prefix can describe.
fn split_len(len: usize) -> (halves: (u8, u8))
    requires
        len <= MAX_ITEM_BYTES,
    ensures
        seq![halves.0, halves.1] == prefix(len as nat),
{
    let lo: u8 = #[verifier::truncate] (len as u8);
    let hi: u8 = #[verifier::truncate] ((len >> 8) as u8);
    assert(len <= 0xffff ==> #[verifier::truncate] (len as u8) == len % 256
        && #[verifier::truncate] ((len >> 8) as u8) == len / 256) by (bit_vector);
    (lo, hi)
}

/// The length whose prefix is `lo`, `hi`.
fn join_len(lo: u8, hi: u8) -> (len: usize)
    ensures
        len == lo + 256 * hi,
{
    let low: usize = lo as usize;
    let high: usize = hi as usize;
    assert(low <= 0xff && high <= 0xff ==> low | (high << 8) == low + 256 * high) by (bit_vector);
    low | (high << 8)
}

impl<const N: usize> RamRing<N> {
    /// The occupied bytes of the buffer, in the order in which they are read.
    pub closed spec fn stored(self) -> Seq<u8> {
        Seq::new(
            self.cursor.used as nat,
            |i: int| self.buf@[wrap(self.cursor.read_pos + i, N as int)],
        )
    }

    /// The invariant of a ring: the occupied bytes are the records of its items, and the counters
    /// agree with them.
    #[verifier::type_invariant]
    pub closed spec fn wf(self) -> bool {
        let c = self.cursor;
        &&& admissible(c.items@, N as nat)
        &&& c.item_count == c.items@.len()
        &&& c.used == bytes_of(c.items@)
        &&& N > 0 ==> c.read_pos < N
        &&& N == 0 ==> c.read_pos == 0
        &&& c.write_pos == wrap(c.read_pos + c.used, N as int)
        &&& self.stored() =~= encode(c.items@)
    }

    /// The bytes that a ring occupies are the records of its items, oldest first: for each a
    /// two-byte little-endian length prefix and then its data. They never exceed the capacity, and
    /// so neither does the sum of the prefixes.
    pub proof fn law_layout(self)
        requires
            self.wf(),
        ensures
            self.stored() == encode(self@),
            self.stored().len() == bytes_of(self@),
            admissible(self@, N as nat),
            PREFIX_BYTES * self@.len() <= N,
    {
        lemma_encode_len(self@);
    }

    /// Whether the byte at `pos` holds nothing.
    spec fn vacant(self, pos: int) -> bool {
        &&& 0 <= pos < N
        &&& forall|i: int|
            0 <= i < self.cursor.used ==> #[trigger] wrap(self.cursor.read_pos + i, N as int) != pos
    }

    /// An empty ring.
    pub fn new() -> (ring: Self)
        ensures
            ring@ == Seq::<Seq<u8>>::empty(),
    {
        let ghost items = Seq::<Seq<u8>>::empty();
        let cursor = Cursor {
            read_pos: 0,
            write_pos: 0,
            used: 0,
            item_count: 0,
            items: Ghost(items),
        };
        proof {
            lemma_encode_len(items);
        }
        RamRing { buf: [0u8; N], cursor }
    }

    /// Number of items currently buffered.
    pub fn len(&self) -> (count: usize)
        ensures
            count == self@.len(),
    {
        proof {
            use_type_invariant(self);
        }
        self.cursor.item_count
    }

    /// Whether no item is buffered.
    pub fn is_empty(&self) -> (empty: bool)
        ensures
            empty <==> self@.len() == 0,
    {
        proof {
            use_type_invariant(self);
        }
        self.cursor.item_count == 0
    }

    /// Bytes currently occupied (including length prefixes), never more than the capacity.
    pub fn bytes_used(&self) -> (used: usize)
        ensures
            used == bytes_of(self@),
            used <= N,
    {
        proof {
            use_type_invariant(self);
        }
        self.cursor.used
    }

    /// The position `by` bytes behind `pos`.
    fn advance(pos: usize, by: usize) -> (next: usize)
        requires
            pos < N,
            by <= N,
        ensures
            next == wrap(pos + by, N as int),
    {
        if by < N - pos {
            pos + by
        } else {
            by - (N - pos)
        }
    }

    /// Byte length of the oldest buffered item, or `None` if the ring is empty.
    pub fn oldest_len(&self) -> (len: Option<usize>)
        ensures
            len == oldest_len_of(self@),
            self@.len() > 0 ==> self@[0].len() <= MAX_ITEM_BYTES && record_size(self@[0]) <= N,
    {
        proof {
            use_type_invariant(self);
        }
        if self.cursor.item_count == 0 {
            return None;
        }
        proof {
            lemma_drop_first(self@);
            lemma_encode_len(self@);
            assert(self.stored()[0] == record(self@[0])[0]);
            assert(self.stored()[1] == record(self@[0])[1]);
        }
        let lo = self.buf[self.cursor.read_pos];
        let hi = self.buf[Self::advance(self.cursor.read_pos, 1)];
        Some(join_len(lo, hi))
    }

    /// Writes one byte into the vacant position `pos` and returns the position behind it.
    fn write_byte(&mut self, pos: usize, b: u8) -> (next: usize)
        requires
            old(self).vacant(pos as int),
        ensures
            final(self).cursor == old(self).cursor,
            final(self).buf@ == old(self).buf@.update(pos as int, b),
            next == wrap(pos + 1, N as int),
    {
        proof {
            use_type_invariant(&*self);
        }
        self.buf[pos] = b;
        Self::advance(pos, 1)
    }

    /// Appends an item for which there is room.
    fn append(&mut self, data: &[u8])
        requires
            has_room(old(self)@, data@, N as nat),
        ensures
            final(self)@ == old(self)@.push(data@),
    {
        proof {
            use_type_invariant(&*self);
        }
        let len: usize = data.len();
        let total: usize = PREFIX_BYTES + len;
        let ghost bytes = record(data@);
        let ghost start = self.cursor.write_pos as int;
        let (lo, hi) = split_len(len);
        let pos: usize = self.write_byte(self.cursor.write_pos, lo);
        let mut pos: usize = self.write_byte(pos, hi);
        let mut i: usize = 0;
        while i < len
            invariant
                i <= len,
                len == data@.len(),
                total == PREFIX_BYTES + len,
                bytes == record(data@),
                self.cursor == old(self).cursor,
                self.wf(),
                bytes_of(self@) + total <= N,
                start == self.cursor.write_pos,
                pos == wrap(start + PREFIX_BYTES + i, N as int),
                forall|j: int|
                    0 <= j < PREFIX_BYTES + i ==> self.buf@[#[trigger] wrap(start + j, N as int)]
                        == bytes[j],
            decreases len - i,
        {
            pos = self.write_byte(pos, data[i]);
            i = i + 1;
            proof {
                use_type_invariant(&*self);
            }
        }
        let ghost items = self@.push(data@);
        proof {
            lemma_push(self@, data@);
            lemma_encode_len(self@);
            lemma_encode_len(items);
        }
        let cursor = Cursor {
            read_pos: self.cursor.read_pos,
            write_pos: pos,
            used: self.cursor.used + total,
            item_count: self.cursor.item_count + 1,
            items: Ghost(items),
        };
        proof {
            let after = RamRing { buf: self.buf, cursor };
            assert forall|i: int| 0 <= i < after.stored().len() implies after.stored()[i] == encode(
                items,
            )[i] by {
                if i < self.cursor.used {
                    assert(after.stored()[i] == self.stored()[i]);
                } else {
                    let j = i - self.cursor.used;
                    assert(wrap(start + j, N as int) == wrap(self.cursor.read_pos + i, N as int));
                }
            }
        }
        self.cursor = cursor;
    }

    /// Pushes an item into the ring.
    ///
    /// Returns `Err(())`, with the ring as it was, if there is insufficient space or the item is
    /// longer than `u16::MAX` bytes.
    pub fn push(&mut self, data: &[u8]) -> (result: Result<(), ()>)
        ensures
            result is Ok <==> has_room(old(self)@, data@, N as nat),
            result is Ok ==> final(self)@ == old(self)@.push(data@),
            result is Err ==> final(self)@ == old(self)@,
    {
        proof {
            use_type_invariant(&*self);
        }
        let len: usize = data.len();
        if len > MAX_ITEM_BYTES {
            return Err(());
        }
        let total: usize = PREFIX_BYTES + len;
        if total > N - self.cursor.used {
            return Err(());
        }
        self.append(data);
        Ok(())
    }

    /// Pushes an item into the ring, discarding the oldest items to make room for it.
    ///
    /// Only as many items leave as have to. Returns `Err(())`, with the ring as it was, if the item
    /// does not fit in an empty ring or is longer than `u16::MAX` bytes.
    pub fn push_overwriting(&mut self, data: &[u8]) -> (result: Result<(), ()>)
        ensures
            result is Ok <==> storable(data@, N as nat),
            result is Ok ==> final(self)@ == evict_for(old(self)@, data@, N as nat).push(data@),
            result is Err ==> final(self)@ == old(self)@,
    {
        let len: usize = data.len();
        if len > MAX_ITEM_BYTES {
            return Err(());
        }
        let total: usize = PREFIX_BYTES + len;
        if total > N {
            return Err(());
        }
        while total > N - self.bytes_used()
            invariant
                storable(data@, N as nat),
                total == record_size(data@),
                evict_for(self@, data@, N as nat) == evict_for(old(self)@, data@, N as nat),
            decreases self@.len(),
        {
            self.discard_oldest();
        }
        self.append(data);
        Ok(())
    }

    /// Copies the oldest item into the front of `buf` and returns the bytes written.
    ///
    /// Returns `None`, with `buf` as it was, if the ring is empty or `buf` is shorter than
    /// [`oldest_len`][Self::oldest_len].
    pub fn peek_into<'b>(&self, buf: &'b mut [u8]) -> (item: Option<&'b [u8]>)
        ensures
            item is Some <==> self@.len() > 0 && self@[0].len() <= old(buf)@.len(),
            item matches Some(bytes) ==> bytes@ == self@[0] && final(buf)@ == self@[0] + old(
                buf,
            )@.skip(self@[0].len() as int),
            item is None ==> final(buf)@ == old(buf)@,
    {
        let len: usize = match self.oldest_len() {
            Some(len) => len,
            None => {
                return None;
            },
        };
        if buf.len() < len {
            return None;
        }
        proof {
            use_type_invariant(self);
            lemma_drop_first(self@);
            lemma_encode_len(self@);
        }
        let ghost item = self@[0];
        let mut pos: usize = Self::advance(self.cursor.read_pos, PREFIX_BYTES);
        let mut i: usize = 0;
        while i < len
            invariant
                i <= len <= buf@.len(),
                buf@.len() == old(buf)@.len(),
                item == self@[0],
                len == item.len(),
                N > 0,
                pos == wrap(self.cursor.read_pos + PREFIX_BYTES + i, N as int),
                self.wf(),
                encode(self@) == record(item) + encode(self@.drop_first()),
                PREFIX_BYTES + len <= self.cursor.used,
                forall|j: int| 0 <= j < i ==> buf@[j] == item[j],
                forall|j: int| i <= j < buf@.len() ==> buf@[j] == old(buf)@[j],
            decreases len - i,
        {
            proof {
                let at = PREFIX_BYTES + i;
                assert(self.stored()[at] == record(item)[at]);
            }
            buf[i] = self.buf[pos];
            pos = Self::advance(pos, 1);
            i = i + 1;
        }
        proof {
            assert(buf@ =~= item + old(buf)@.skip(len as int));
            assert(buf@.subrange(0, len as int) =~= item);
        }
        Some(&buf[0..len])
    }

    /// Discards the oldest item without copying it. Does nothing if the ring is empty.
    pub fn discard_oldest(&mut self)
        ensures
            final(self)@ == without_oldest(old(self)@),
    {
        if let Some(len) = self.oldest_len() {
            proof {
                use_type_invariant(&*self);
                lemma_drop_first(self@);
                lemma_encode_len(self@);
            }
            let total: usize = PREFIX_BYTES + len;
            let ghost items = self@.drop_first();
            let cursor = Cursor {
                read_pos: Self::advance(self.cursor.read_pos, total),
                write_pos: self.cursor.write_pos,
                used: self.cursor.used - total,
                item_count: self.cursor.item_count - 1,
                items: Ghost(items),
            };
            proof {
                let after = RamRing { buf: self.buf, cursor };
                lemma_encode_len(items);
                assert forall|i: int| 0 <= i < after.stored().len() implies after.stored()[i]
                    == encode(items)[i] by {
                    assert(after.stored()[i] == self.stored()[total + i]);
                }
            }
            self.cursor = cursor;
        }
    }
}

impl<const N: usize> Default for RamRing<N> {
    fn default() -> (ring: Self)
        ensures
            ring@ == Seq::<Seq<u8>>::empty(),
    {
        Self::new()
    }
}

} // verus!
