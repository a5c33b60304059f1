use futures::executor::block_on;
use sequential_storage::{
    cache::NoCache,
    mock_flash::{MockFlashBase, MockFlashError, WriteCountCheck},
    queue::{QueueConfig, QueueStorage},
    Error,
};
use sequential_storage_buffer::drain::{after_peek, Action, Task};
use sequential_storage_buffer::{BufferedQueue, OverflowPolicy};

// 4 pages x 64 words x 4 bytes/word = 1 KiB flash
type MockFlash = MockFlashBase<4, 4, 64>;
type Storage = QueueStorage<MockFlash, NoCache>;
type FlashError = Error<MockFlashError>;

fn make_queue<const N: usize>() -> BufferedQueue<Storage, N> {
    let flash = MockFlash::new(WriteCountCheck::Twice, None, true);
    let config = QueueConfig::new(MockFlash::FULL_FLASH_RANGE);
    let storage = QueueStorage::new(flash, config, NoCache::new());
    BufferedQueue::new(storage)
}

/// A buffer on the heap: the mock flash wants buffers that are aligned to its words.
fn buffer(len: usize) -> Vec<u8> {
    vec![0u8; len]
}

/// Drives a drain to its end against the flash queue.
fn drive<const N: usize>(
    queue: &mut BufferedQueue<Storage, N>,
    task: Task,
    scratch: &mut [u8],
    allow_overwrite: bool,
) -> Action<FlashError> {
    let mut action = queue.begin(task, scratch);
    while let Action::Write(len) = action {
        let written = block_on(queue.storage().push(&scratch[..len], allow_overwrite));
        action = queue.resume(task, scratch, written);
    }
    action
}

fn drain_all<const N: usize>(
    queue: &mut BufferedQueue<Storage, N>,
    scratch: &mut [u8],
) -> Result<(), FlashError> {
    match drive(queue, Task::DrainAll, scratch, false) {
        Action::Idle => Ok(()),
        Action::Fail(error) => Err(error),
        other => panic!("{:?}", other),
    }
}

fn pop<'d, const N: usize>(
    queue: &mut BufferedQueue<Storage, N>,
    data_buffer: &'d mut [u8],
) -> Result<Option<&'d mut [u8]>, FlashError> {
    match drive(queue, Task::Pop, data_buffer, false) {
        Action::Pop => block_on(queue.storage().pop(data_buffer)),
        Action::Fail(error) => Err(error),
        other => panic!("{:?}", other),
    }
}

fn peek<'d, const N: usize>(
    queue: &mut BufferedQueue<Storage, N>,
    data_buffer: &'d mut [u8],
) -> Result<Option<&'d mut [u8]>, FlashError> {
    match drive(queue, Task::Peek, data_buffer, false) {
        Action::Peek => block_on(queue.storage().peek(data_buffer)),
        Action::Fail(error) => Err(error),
        other => panic!("{:?}", other),
    }
}

#[test]
fn enqueue_drain_pop() {
    let mut queue = make_queue::<256>();
    let mut scratch = buffer(64);
    let mut out = buffer(64);

    // Enqueue two items into RAM: no flash I/O yet.
    queue.enqueue(b"hello", OverflowPolicy::Error).unwrap();
    queue.enqueue(b"world", OverflowPolicy::Error).unwrap();
    assert_eq!(queue.ram_pending_count(), 2);

    // Drain RAM to flash.
    drain_all(&mut queue, &mut scratch).unwrap();
    assert_eq!(queue.ram_pending_count(), 0);

    // Pop from flash in FIFO order.
    let data = pop(&mut queue, &mut out).unwrap().unwrap();
    assert_eq!(data, b"hello");

    let data = pop(&mut queue, &mut out).unwrap().unwrap();
    assert_eq!(data, b"world");

    assert!(pop(&mut queue, &mut out).unwrap().is_none());
}

#[test]
fn pop_reads_flash_before_ram() {
    let mut queue = make_queue::<256>();
    let mut out = buffer(64);

    // Commit "first" to flash directly via an aligned buffer (the mock flash requires write
    // buffers to be aligned to BYTES_PER_WORD = 4 bytes).
    let mut aligned = buffer(8);
    aligned[..5].copy_from_slice(b"first");
    block_on(queue.storage().push(&aligned[..5], false)).unwrap();

    // Buffer "second" in RAM only.
    queue.enqueue(b"second", OverflowPolicy::Error).unwrap();

    // pop drains RAM to flash first, then pops the oldest flash item ("first").
    let data = pop(&mut queue, &mut out).unwrap().unwrap();
    assert_eq!(data, b"first");

    // "second" was drained to flash during the previous pop; pop it now.
    let data = pop(&mut queue, &mut out).unwrap().unwrap();
    assert_eq!(data, b"second");

    assert!(pop(&mut queue, &mut out).unwrap().is_none());
}

#[test]
fn enqueue_returns_err_when_ram_full() {
    let mut queue = make_queue::<16>();

    // 16-byte ring: each item costs 2 (prefix) + data.len() bytes.
    // 3 items of 4 bytes = 3*6 = 18 bytes: won't all fit.
    queue.enqueue(b"aaaa", OverflowPolicy::Error).unwrap(); // 6 bytes used
    queue.enqueue(b"bbbb", OverflowPolicy::Error).unwrap(); // 12 bytes used
    assert!(queue.enqueue(b"cccc", OverflowPolicy::Error).is_err()); // 18 > 16: no room
}

#[test]
fn enqueue_discards_the_oldest_when_told_to() {
    let mut queue = make_queue::<16>();
    let mut out = buffer(64);
    queue.enqueue(b"aaaa", OverflowPolicy::DiscardOldest).unwrap();
    queue.enqueue(b"bbbb", OverflowPolicy::DiscardOldest).unwrap();
    queue.enqueue(b"cccc", OverflowPolicy::DiscardOldest).unwrap();
    assert_eq!(queue.ram_pending_count(), 2);
    assert_eq!(queue.enqueue(&[0u8; 15], OverflowPolicy::DiscardOldest), Err(()));
    assert_eq!(queue.ram_pending_count(), 2);

    assert_eq!(pop(&mut queue, &mut out).unwrap().unwrap(), b"bbbb");
    assert_eq!(pop(&mut queue, &mut out).unwrap().unwrap(), b"cccc");
    assert!(pop(&mut queue, &mut out).unwrap().is_none());
}

#[test]
fn introspection_follows_the_ring() {
    let mut queue = make_queue::<32>();
    assert_eq!(BufferedQueue::<Storage, 32>::ram_capacity_bytes(), 32);
    assert_eq!(queue.ram_free_bytes(), 32);
    assert_eq!(queue.ram_bytes_used(), 0);
    assert_eq!(queue.oldest_ram_item_len(), None);

    queue.enqueue(b"abc", OverflowPolicy::Error).unwrap();
    queue.enqueue(b"defgh", OverflowPolicy::Error).unwrap();
    assert_eq!(queue.ram_bytes_used(), 12);
    assert_eq!(queue.ram_free_bytes(), 20);
    assert_eq!(queue.ram_pending_count(), 2);
    assert_eq!(queue.oldest_ram_item_len(), Some(3));
}

#[test]
fn drain_one_commits_the_oldest_item_only() {
    let mut queue = make_queue::<64>();
    let mut scratch = buffer(16);
    assert!(matches!(drive(&mut queue, Task::DrainOne, &mut scratch, false), Action::Idle));

    queue.enqueue(b"one", OverflowPolicy::Error).unwrap();
    queue.enqueue(b"two", OverflowPolicy::Error).unwrap();
    assert!(matches!(drive(&mut queue, Task::DrainOne, &mut scratch, false), Action::Committed));
    assert_eq!(queue.ram_pending_count(), 1);
    assert_eq!(block_on(queue.storage().peek(&mut scratch)).unwrap().unwrap(), b"one");
}

#[test]
fn peek_reads_the_oldest_item_and_keeps_it() {
    let mut queue = make_queue::<64>();
    let mut out = buffer(16);
    queue.enqueue(b"one", OverflowPolicy::Error).unwrap();
    queue.enqueue(b"two", OverflowPolicy::Error).unwrap();
    assert_eq!(peek(&mut queue, &mut out).unwrap().unwrap(), b"one");
    assert_eq!(queue.ram_pending_count(), 0);
    assert_eq!(peek(&mut queue, &mut out).unwrap().unwrap(), b"one");
    assert_eq!(pop(&mut queue, &mut out).unwrap().unwrap(), b"one");
    assert_eq!(pop(&mut queue, &mut out).unwrap().unwrap(), b"two");
}

#[test]
fn a_short_scratch_buffer_stops_the_drain() {
    let mut queue = make_queue::<64>();
    let mut scratch = buffer(4);
    queue.enqueue(b"abc", OverflowPolicy::Error).unwrap();
    queue.enqueue(b"too long", OverflowPolicy::Error).unwrap();
    queue.enqueue(b"xyz", OverflowPolicy::Error).unwrap();
    drain_all(&mut queue, &mut scratch).unwrap();
    // The first item has gone, the one that does not fit and the one behind it stay.
    assert_eq!(queue.ram_pending_count(), 2);
    assert_eq!(queue.oldest_ram_item_len(), Some(8));
    // What is in flash is still the oldest.
    assert_eq!(pop(&mut queue, &mut scratch).unwrap().unwrap(), b"abc");
}

#[test]
fn a_full_flash_fails_the_drain_and_keeps_the_item() {
    let mut queue = make_queue::<128>();
    let mut scratch = buffer(64);
    let item = [9u8; 60];
    let error = loop {
        queue.enqueue(&item, OverflowPolicy::Error).unwrap();
        if let Err(error) = drain_all(&mut queue, &mut scratch) {
            break error;
        }
    };
    assert!(matches!(error, Error::FullStorage));
    assert_eq!(queue.ram_pending_count(), 1);
    assert_eq!(queue.oldest_ram_item_len(), Some(60));

    // Popping fails the same way until flash has been freed directly.
    assert!(matches!(pop(&mut queue, &mut scratch), Err(Error::FullStorage)));
    while block_on(queue.storage().pop(&mut scratch)).unwrap().is_some() {}
    assert_eq!(pop(&mut queue, &mut scratch).unwrap().unwrap(), item.as_ref());
    assert_eq!(queue.ram_pending_count(), 0);
}

#[test]
fn overwriting_lets_flash_drop_its_oldest_items() {
    let mut queue = make_queue::<128>();
    let mut scratch = buffer(64);
    for i in 0..40u8 {
        queue.enqueue(&[i; 60], OverflowPolicy::Error).unwrap();
        assert!(matches!(drive(&mut queue, Task::DrainAll, &mut scratch, true), Action::Idle));
    }
    // What is left are the newest items, in order.
    let mut seen = Vec::new();
    while let Some(data) = pop(&mut queue, &mut scratch).unwrap() {
        seen.push(data[0]);
    }
    assert!(!seen.is_empty());
    let first = seen[0];
    assert!(first > 0);
    assert_eq!(seen, (first..40).collect::<Vec<u8>>());
}

#[test]
fn into_storage_gives_back_what_was_committed() {
    let mut queue = make_queue::<64>();
    let mut scratch = buffer(16);
    queue.enqueue(b"kept", OverflowPolicy::Error).unwrap();
    drain_all(&mut queue, &mut scratch).unwrap();
    queue.enqueue(b"gone", OverflowPolicy::Error).unwrap();
    let mut storage = queue.into_storage();
    assert_eq!(block_on(storage.pop(&mut scratch)).unwrap().unwrap(), b"kept");
    assert!(block_on(storage.pop(&mut scratch)).unwrap().is_none());
}

#[test]
fn enqueue_does_not_touch_the_storage() {
    let mut queue: BufferedQueue<u32, 8> = BufferedQueue::new(5);
    queue.enqueue(b"abc", OverflowPolicy::Error).unwrap();
    queue.enqueue(b"def", OverflowPolicy::DiscardOldest).unwrap();
    assert_eq!(*queue.storage(), 5);
    *queue.storage() = 6;
    assert_eq!(queue.ram_pending_count(), 1);
    assert_eq!(queue.into_storage(), 6);
}

#[test]
fn drain_dialogue_step_by_step() {
    let mut queue: BufferedQueue<(), 32> = BufferedQueue::new(());
    let mut scratch = [0xffu8; 4];
    queue.enqueue(b"ab", OverflowPolicy::Error).unwrap();
    queue.enqueue(b"cde", OverflowPolicy::Error).unwrap();

    let action: Action<&str> = queue.begin(Task::Peek, &mut scratch);
    assert_eq!(action, Action::Write(2));
    assert_eq!(&scratch, b"ab\xff\xff");
    // A failed write ends the drain and leaves everything in place.
    assert_eq!(queue.resume(Task::Peek, &mut scratch, Err("full")), Action::Fail("full"));
    assert_eq!(queue.ram_pending_count(), 2);

    let action: Action<&str> = queue.begin(Task::Peek, &mut scratch);
    assert_eq!(action, Action::Write(2));
    let action: Action<&str> = queue.resume(Task::Peek, &mut scratch, Ok(()));
    assert_eq!(action, Action::Write(3));
    assert_eq!(&scratch, b"cde\xff");
    let action: Action<&str> = queue.resume(Task::Peek, &mut scratch, Ok(()));
    assert_eq!(action, Action::Peek);
    assert_eq!(queue.ram_pending_count(), 0);
}

#[test]
fn a_drain_without_an_item_ends_as_its_task_says() {
    let actions: Vec<Action<()>> = vec![
        after_peek(Task::DrainOne, None),
        after_peek(Task::DrainAll, None),
        after_peek(Task::Pop, None),
        after_peek(Task::Peek, None),
        after_peek(Task::Pop, Some(3)),
    ];
    assert_eq!(
        actions,
        vec![Action::Idle, Action::Idle, Action::Pop, Action::Peek, Action::Write(3)]
    );
}

#[test]
fn every_item_is_popped_in_order_unless_it_was_evicted() {
    let mut queue = make_queue::<24>();
    let mut out = buffer(16);
    let mut accepted: Vec<Vec<u8>> = Vec::new();
    let mut popped: Vec<Vec<u8>> = Vec::new();
    for i in 0..60u8 {
        let item = vec![i; 1 + (i as usize) % 4];
        if queue.enqueue(&item, OverflowPolicy::Error).is_ok() {
            accepted.push(item);
        }
        if i % 5 == 0 {
            assert!(matches!(
                drive(&mut queue, Task::DrainOne, &mut out, false),
                Action::Committed
            ));
        }
        if i % 7 == 0 {
            popped.push(pop(&mut queue, &mut out).unwrap().unwrap().to_vec());
        }
    }
    while let Some(item) = pop(&mut queue, &mut out).unwrap() {
        popped.push(item.to_vec());
    }
    assert!(popped.len() > 20);
    assert_eq!(popped, accepted);
}
