use sequential_storage_buffer::drain::{Action, Task};
use sequential_storage_buffer::outbox::Outbox;
use sequential_storage_buffer::OverflowPolicy;

#[test]
fn outbox_settles_only_what_was_handed_out() {
    let mut outbox: Outbox<32> = Outbox::new();
    outbox.enqueue(b"aa", OverflowPolicy::Error).unwrap();
    // Nothing has been handed out yet.
    assert!(!outbox.settle(&Ok::<(), ()>(())));
    assert_eq!(outbox.len(), 1);

    let mut scratch = [9u8; 3];
    assert_eq!(outbox.hand_out(&mut scratch), Some(2));
    assert_eq!(&scratch, b"aa\x09");
    assert!(!outbox.settle(&Err::<(), ()>(())));
    assert_eq!(outbox.len(), 1);

    assert_eq!(outbox.hand_out(&mut scratch), Some(2));
    outbox.enqueue(b"b", OverflowPolicy::DiscardOldest).unwrap();
    assert!(outbox.settle(&Ok::<(), ()>(())));
    assert_eq!(outbox.len(), 1);
    assert_eq!(outbox.oldest_len(), Some(1));
    assert_eq!(outbox.bytes_used(), 3);
    // One report counts once.
    assert!(!outbox.settle(&Ok::<(), ()>(())));
    assert_eq!(outbox.len(), 1);
}

#[test]
fn outbox_forgets_an_evicted_item() {
    let mut outbox: Outbox<8> = Outbox::new();
    let mut scratch = [0u8; 4];
    outbox.enqueue(b"aa", OverflowPolicy::Error).unwrap();
    outbox.enqueue(b"bb", OverflowPolicy::Error).unwrap();
    assert_eq!(outbox.hand_out(&mut scratch), Some(2));
    // A refused item evicts nothing.
    assert_eq!(outbox.enqueue(&[0u8; 7], OverflowPolicy::DiscardOldest), Err(()));
    outbox.enqueue(b"cc", OverflowPolicy::DiscardOldest).unwrap();
    assert!(!outbox.settle(&Ok::<(), ()>(())));
    assert_eq!(outbox.len(), 2);
    assert_eq!(outbox.hand_out(&mut scratch), Some(2));
    assert_eq!(&scratch[..2], b"bb");
}

#[test]
fn outbox_hands_out_nothing_that_does_not_fit() {
    let mut outbox: Outbox<16> = Outbox::new();
    let mut scratch = [7u8; 2];
    assert_eq!(outbox.hand_out(&mut scratch), None);
    outbox.enqueue(b"abc", OverflowPolicy::Error).unwrap();
    assert_eq!(outbox.hand_out(&mut scratch), None);
    assert_eq!(scratch, [7u8; 2]);
    assert!(!outbox.settle(&Ok::<(), ()>(())));
    assert_eq!(outbox.len(), 1);
}

#[test]
fn outbox_drain_settles_before_it_hands_out_again() {
    let mut outbox: Outbox<32> = Outbox::new();
    let mut scratch = [0u8; 2];
    for item in [b"aa", b"bb", b"cc"] {
        outbox.enqueue(item, OverflowPolicy::Error).unwrap();
    }
    let mut written = Vec::new();
    let mut action: Action<()> = outbox.begin(Task::DrainAll, &mut scratch);
    while let Action::Write(len) = action {
        written.push(scratch[..len].to_vec());
        action = outbox.resume(Task::DrainAll, &mut scratch, Ok(()));
    }
    assert_eq!(action, Action::Idle);
    assert_eq!(written, vec![b"aa".to_vec(), b"bb".to_vec(), b"cc".to_vec()]);
    assert_eq!(outbox.len(), 0);
}

#[test]
fn outbox_hands_an_item_out_again_after_an_abandoned_drain() {
    let mut outbox: Outbox<32> = Outbox::new();
    let mut scratch = [0u8; 2];
    outbox.enqueue(b"aa", OverflowPolicy::Error).unwrap();
    outbox.enqueue(b"bb", OverflowPolicy::Error).unwrap();
    let action: Action<()> = outbox.begin(Task::DrainOne, &mut scratch);
    assert_eq!(action, Action::Write(2));
    // No report comes; a new drain starts.
    let action: Action<()> = outbox.begin(Task::DrainOne, &mut scratch);
    assert_eq!(action, Action::Write(2));
    assert_eq!(&scratch, b"aa");
    let action: Action<()> = outbox.resume(Task::DrainOne, &mut scratch, Ok(()));
    assert_eq!(action, Action::Committed);
    assert_eq!(outbox.len(), 1);
    assert_eq!(outbox.hand_out(&mut scratch), Some(2));
    assert_eq!(&scratch, b"bb");
}
