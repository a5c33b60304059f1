use futures::executor::block_on;
use futures::FutureExt;
use sequential_storage_buffer::drain::{Action, Task};
use sequential_storage_buffer::shared::SharedRamRing;
use sequential_storage_buffer::OverflowPolicy;

fn shared<T: Sync>(value: T) -> T {
    value
}

#[test]
fn shared_enqueue_raises_the_signal() {
    let ring: SharedRamRing<16> = shared(SharedRamRing::new());
    assert!(ring.wait().now_or_never().is_none());

    ring.enqueue(b"abc", OverflowPolicy::Error).unwrap();
    block_on(ring.wait());
    // Waiting takes the signal.
    assert!(ring.wait().now_or_never().is_none());
}

#[test]
fn shared_refused_enqueue_does_not_raise_the_signal() {
    let ring: SharedRamRing<8> = SharedRamRing::default();
    assert_eq!(ring.enqueue(&[0u8; 7], OverflowPolicy::Error), Err(()));
    assert_eq!(ring.enqueue(&[0u8; 7], OverflowPolicy::DiscardOldest), Err(()));
    assert!(ring.wait().now_or_never().is_none());

    ring.enqueue(b"abcd", OverflowPolicy::Error).unwrap();
    assert_eq!(ring.wait().now_or_never(), Some(()));
    assert_eq!(ring.enqueue(b"e", OverflowPolicy::Error), Err(()));
    assert!(ring.wait().now_or_never().is_none());
}

#[test]
fn shared_discards_the_oldest_when_told_to() {
    let ring: SharedRamRing<8> = SharedRamRing::new();
    ring.enqueue(b"abcd", OverflowPolicy::Error).unwrap();
    ring.enqueue(b"efg", OverflowPolicy::DiscardOldest).unwrap();
    assert_eq!(ring.ram_pending_count(), 1);
    assert_eq!(ring.oldest_ram_item_len(), Some(3));
    let mut scratch = [0u8; 4];
    let action: Action<()> = ring.begin(Task::DrainOne, &mut scratch);
    assert_eq!(action, Action::Write(3));
    assert_eq!(&scratch, b"efg\0");
}

#[test]
fn shared_introspection_follows_the_ring() {
    let ring: SharedRamRing<16> = SharedRamRing::new();
    assert_eq!(SharedRamRing::<16>::ram_capacity_bytes(), 16);
    assert_eq!(ring.ram_free_bytes(), 16);
    assert_eq!(ring.ram_bytes_used(), 0);
    assert_eq!(ring.ram_pending_count(), 0);
    assert_eq!(ring.oldest_ram_item_len(), None);

    ring.enqueue(b"abc", OverflowPolicy::Error).unwrap();
    ring.enqueue(b"d", OverflowPolicy::Error).unwrap();
    assert_eq!(ring.ram_free_bytes(), 8);
    assert_eq!(ring.ram_bytes_used(), 8);
    assert_eq!(ring.ram_pending_count(), 2);
    assert_eq!(ring.oldest_ram_item_len(), Some(3));
}

#[test]
fn shared_drain_dialogue_step_by_step() {
    let ring: SharedRamRing<32> = SharedRamRing::new();
    let mut scratch = [0xffu8; 4];
    let action: Action<&str> = ring.begin(Task::Pop, &mut scratch);
    assert_eq!(action, Action::Pop);

    ring.enqueue(b"ab", OverflowPolicy::Error).unwrap();
    ring.enqueue(b"cde", OverflowPolicy::Error).unwrap();
    let action: Action<&str> = ring.begin(Task::DrainAll, &mut scratch);
    assert_eq!(action, Action::Write(2));
    assert_eq!(&scratch, b"ab\xff\xff");
    assert_eq!(ring.resume(Task::DrainAll, &mut scratch, Err("full")), Action::Fail("full"));
    assert_eq!(ring.ram_pending_count(), 2);

    let action: Action<&str> = ring.begin(Task::DrainAll, &mut scratch);
    assert_eq!(action, Action::Write(2));
    // An item that arrives during the write waits behind the others.
    ring.enqueue(b"f", OverflowPolicy::Error).unwrap();
    let action: Action<&str> = ring.resume(Task::DrainAll, &mut scratch, Ok(()));
    assert_eq!(action, Action::Write(3));
    assert_eq!(&scratch, b"cde\xff");
    let action: Action<&str> = ring.resume(Task::DrainAll, &mut scratch, Ok(()));
    assert_eq!(action, Action::Write(1));
    assert_eq!(scratch[0], b'f');
    let action: Action<&str> = ring.resume(Task::DrainAll, &mut scratch, Ok(()));
    assert_eq!(action, Action::Idle);
    assert_eq!(ring.ram_pending_count(), 0);
}

#[test]
fn shared_drain_one_commits_one() {
    let ring: SharedRamRing<32> = SharedRamRing::new();
    let mut scratch = [0u8; 4];
    ring.enqueue(b"ab", OverflowPolicy::Error).unwrap();
    ring.enqueue(b"cd", OverflowPolicy::Error).unwrap();
    let action: Action<()> = ring.begin(Task::DrainOne, &mut scratch);
    assert_eq!(action, Action::Write(2));
    assert_eq!(ring.resume(Task::DrainOne, &mut scratch, Ok::<(), ()>(())), Action::Committed);
    assert_eq!(&scratch, b"ab\0\0");
    assert_eq!(ring.ram_pending_count(), 1);
}

#[test]
fn shared_eviction_during_a_write_loses_no_other_item() {
    let ring: SharedRamRing<8> = SharedRamRing::new();
    let mut scratch = [0u8; 4];
    ring.enqueue(b"aa", OverflowPolicy::Error).unwrap();
    ring.enqueue(b"bb", OverflowPolicy::Error).unwrap();
    let action: Action<()> = ring.begin(Task::DrainAll, &mut scratch);
    assert_eq!(action, Action::Write(2));
    assert_eq!(&scratch[..2], b"aa");
    // While "aa" is being written, it is evicted from the full ring.
    ring.enqueue(b"cc", OverflowPolicy::DiscardOldest).unwrap();
    assert_eq!(ring.ram_pending_count(), 2);
    // The report takes no other item out in its place: "bb" has not been written yet.
    let action: Action<()> = ring.resume(Task::DrainAll, &mut scratch, Ok(()));
    assert_eq!(action, Action::Write(2));
    assert_eq!(&scratch[..2], b"bb");
    assert_eq!(ring.ram_pending_count(), 2);
    let action: Action<()> = ring.resume(Task::DrainAll, &mut scratch, Ok(()));
    assert_eq!(action, Action::Write(2));
    assert_eq!(&scratch[..2], b"cc");
    let action: Action<()> = ring.resume(Task::DrainAll, &mut scratch, Ok(()));
    assert_eq!(action, Action::Idle);
    assert_eq!(ring.ram_pending_count(), 0);
}

#[test]
fn shared_failed_write_of_an_evicted_item_keeps_the_others() {
    let ring: SharedRamRing<8> = SharedRamRing::new();
    let mut scratch = [0u8; 4];
    ring.enqueue(b"aa", OverflowPolicy::Error).unwrap();
    ring.enqueue(b"bb", OverflowPolicy::Error).unwrap();
    let action: Action<&str> = ring.begin(Task::DrainOne, &mut scratch);
    assert_eq!(action, Action::Write(2));
    ring.enqueue(b"cc", OverflowPolicy::DiscardOldest).unwrap();
    assert_eq!(ring.resume(Task::DrainOne, &mut scratch, Err("full")), Action::Fail("full"));
    assert_eq!(ring.ram_pending_count(), 2);
    let action: Action<&str> = ring.begin(Task::DrainOne, &mut scratch);
    assert_eq!(action, Action::Write(2));
    assert_eq!(&scratch[..2], b"bb");
}
