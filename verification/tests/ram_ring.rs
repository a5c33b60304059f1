use sequential_storage_buffer::RamRing;

fn oldest<const N: usize>(ring: &RamRing<N>) -> Vec<u8> {
    let mut buf = vec![0u8; 0x10000];
    ring.peek_into(&mut buf).unwrap().to_vec()
}

#[test]
fn push_peek_discard() {
    let mut ring: RamRing<64> = RamRing::new();
    assert!(ring.is_empty());

    ring.push(b"hello").unwrap();
    ring.push(b"world").unwrap();
    assert_eq!(ring.len(), 2);
    assert_eq!(ring.oldest_len(), Some(5));

    let mut buf = [0u8; 32];
    assert_eq!(ring.peek_into(&mut buf), Some(b"hello".as_ref()));
    assert_eq!(ring.len(), 2); // peek does not consume

    ring.discard_oldest();
    assert_eq!(ring.len(), 1);
    assert_eq!(ring.peek_into(&mut buf), Some(b"world".as_ref()));

    ring.discard_oldest();
    assert!(ring.is_empty());
    assert_eq!(ring.peek_into(&mut buf), None);
}

#[test]
fn wrap_around() {
    // A tight buffer: 2 items of 3 bytes each = 2*(2+3)=10 bytes
    let mut ring: RamRing<10> = RamRing::new();
    ring.push(b"abc").unwrap();
    ring.push(b"def").unwrap();
    // Full: no room for another
    assert!(ring.push(b"x").is_err());

    let mut buf = [0u8; 8];
    ring.discard_oldest();
    ring.push(b"ghi").unwrap(); // wraps around
    assert_eq!(ring.peek_into(&mut buf), Some(b"def".as_ref()));
    ring.discard_oldest();
    assert_eq!(ring.peek_into(&mut buf), Some(b"ghi".as_ref()));
}

#[test]
fn counters_follow_the_items() {
    let mut ring: RamRing<16> = RamRing::default();
    assert_eq!(ring.len(), 0);
    assert_eq!(ring.bytes_used(), 0);
    assert_eq!(ring.oldest_len(), None);

    ring.push(b"").unwrap();
    ring.push(b"abcd").unwrap();
    assert_eq!(ring.len(), 2);
    assert_eq!(ring.bytes_used(), 8);
    assert_eq!(ring.oldest_len(), Some(0));

    ring.discard_oldest();
    assert_eq!(ring.len(), 1);
    assert_eq!(ring.bytes_used(), 6);
    assert_eq!(ring.oldest_len(), Some(4));
}

#[test]
fn discarding_from_an_empty_ring_does_nothing() {
    let mut ring: RamRing<8> = RamRing::new();
    ring.discard_oldest();
    assert!(ring.is_empty());
    assert_eq!(ring.bytes_used(), 0);
    ring.push(b"abc").unwrap();
    assert_eq!(oldest(&ring), b"abc");
}

#[test]
fn a_refused_push_changes_nothing() {
    let mut ring: RamRing<8> = RamRing::new();
    ring.push(b"abc").unwrap();
    assert_eq!(ring.push(b"de"), Err(()));
    assert_eq!(ring.len(), 1);
    assert_eq!(ring.bytes_used(), 5);
    assert_eq!(oldest(&ring), b"abc");
    // Exactly the rest of the ring still fits.
    assert_eq!(ring.push(b"f"), Ok(()));
    assert_eq!(ring.bytes_used(), 8);
}

#[test]
fn peek_into_a_short_buffer_gives_none_and_writes_nothing() {
    let mut ring: RamRing<16> = RamRing::new();
    ring.push(b"hello").unwrap();
    let mut buf = [7u8; 4];
    assert_eq!(ring.peek_into(&mut buf), None);
    assert_eq!(buf, [7u8; 4]);
    let mut buf = [7u8; 6];
    assert_eq!(ring.peek_into(&mut buf), Some(b"hello".as_ref()));
    assert_eq!(&buf, b"hello\x07");
}

#[test]
fn tiny_rings_hold_nothing_or_an_empty_item() {
    let mut none: RamRing<0> = RamRing::new();
    assert_eq!(none.push(b""), Err(()));
    assert_eq!(none.push_overwriting(b""), Err(()));
    none.discard_oldest();
    assert_eq!(none.oldest_len(), None);

    let mut one: RamRing<1> = RamRing::new();
    assert_eq!(one.push(b""), Err(()));

    let mut two: RamRing<2> = RamRing::new();
    assert_eq!(two.push(b""), Ok(()));
    assert_eq!(two.push(b""), Err(()));
    assert_eq!(two.push_overwriting(b""), Ok(()));
    assert_eq!(two.len(), 1);
    assert_eq!(two.oldest_len(), Some(0));
    assert_eq!(two.push_overwriting(b"x"), Err(()));
    assert_eq!(two.len(), 1);
}

#[test]
fn lengths_use_both_bytes_of_the_prefix() {
    let mut ring: RamRing<70000> = RamRing::new();
    let item: Vec<u8> = (0..65535u32).map(|i| (i * 7 % 251) as u8).collect();
    ring.push(&item[..0x1234]).unwrap();
    assert_eq!(ring.oldest_len(), Some(0x1234));
    assert_eq!(oldest(&ring), &item[..0x1234]);
    ring.discard_oldest();

    ring.push(&item).unwrap();
    assert_eq!(ring.oldest_len(), Some(65535));
    assert_eq!(oldest(&ring), item);
}

#[test]
fn items_longer_than_the_prefix_allows_are_refused() {
    let mut ring: RamRing<70000> = RamRing::new();
    let item = vec![1u8; 65536];
    assert_eq!(ring.push(&item), Err(()));
    ring.push(b"kept").unwrap();
    assert_eq!(ring.push_overwriting(&item), Err(()));
    assert_eq!(oldest(&ring), b"kept");
}

#[test]
fn push_overwriting_evicts_only_what_it_must() {
    let mut ring: RamRing<16> = RamRing::new();
    ring.push(b"aa").unwrap(); // 4
    ring.push(b"bb").unwrap(); // 8
    ring.push(b"cc").unwrap(); // 12
    // Room for it: nothing is evicted.
    ring.push_overwriting(b"dd").unwrap(); // 16
    assert_eq!(ring.len(), 4);
    // Five bytes needed: two items of four bytes leave.
    ring.push_overwriting(b"eee").unwrap();
    assert_eq!(ring.len(), 3);
    assert_eq!(ring.bytes_used(), 13);
    assert_eq!(oldest(&ring), b"cc");
    ring.discard_oldest();
    assert_eq!(oldest(&ring), b"dd");
    ring.discard_oldest();
    assert_eq!(oldest(&ring), b"eee");
}

#[test]
fn push_overwriting_takes_the_whole_ring() {
    let mut ring: RamRing<10> = RamRing::new();
    ring.push(b"abc").unwrap();
    ring.push(b"def").unwrap();
    ring.push_overwriting(b"01234567").unwrap();
    assert_eq!(ring.len(), 1);
    assert_eq!(oldest(&ring), b"01234567");
    assert_eq!(ring.push_overwriting(b"012345678"), Err(()));
    assert_eq!(oldest(&ring), b"01234567");
}

#[test]
fn items_come_out_in_the_order_they_went_in() {
    let mut ring: RamRing<23> = RamRing::new();
    let mut next_in: u8 = 0;
    let mut next_out: u8 = 0;
    for round in 0..200usize {
        let item = vec![next_in; round % 6];
        if ring.push(&item).is_ok() {
            next_in = next_in.wrapping_add(1);
        }
        if round % 3 != 0 && !ring.is_empty() {
            let len = ring.oldest_len().unwrap();
            assert_eq!(oldest(&ring), vec![next_out; len]);
            ring.discard_oldest();
            next_out = next_out.wrapping_add(1);
        }
    }
    assert!(next_out > 100);
}
