# sequential-storage-buffer

A RAM-buffered queue on top of `sequential-storage` for NOR flash, verified with Verus.

NOR flash is slow. If a producer (a sensor, a UART, an ADC DMA transfer) emits data faster than the
flash can commit it, the items need somewhere to wait. This crate puts a fixed-size RAM ring in
front of a flash queue. Enqueuing is synchronous and never touches flash; draining commits the ring
to flash, typically from a low-priority task.

## Layout

- `src/`: the library. Every function is verified, but for the calls into `embassy-sync` in `guard`:
  their contracts are trusted.
  - `model`: a ring as the sequence of its items, and the laws of enqueuing and evicting.
  - `ram_ring`: `RamRing`, the ring buffer itself.
  - `outbox`: `Outbox`, a ring that items are drained from, one step at a time.
  - `drain`: how items move to flash, as a dialogue of actions and reports, and its laws.
  - `history`: what holds over the whole life of a queue: order, and what can be lost.
  - `buffered`: `BufferedQueue`, a ring in front of a flash queue.
  - `guard`: the mutex and the signal of `embassy-sync`.
  - `shared`: `SharedRamRing`, a ring that interrupt handlers can enqueue to.
- `app/`: the asynchronous calls that perform the drains on a `QueueStorage`.
- `tests/`: tests, among them drains against the mock flash of `sequential-storage`.

## Use

```rust
let mut queue: BufferedFlashQueue<_, _, 512> = BufferedQueue::new(storage);

// Fast path: synchronous, never touches flash.
queue.enqueue(&sample, OverflowPolicy::Error)?;

// Slow path: from a low-priority task or on a timer.
queue.drain_all(&mut scratch, false).await?;

// Read path: drains any pending RAM items to flash first, then pops.
if let Some(data) = queue.pop(&mut buf, false).await? {
    // process data
}
```

| Policy | When the ring is full |
|---|---|
| `OverflowPolicy::Error` | `enqueue` returns `Err(())`; the caller drops the item or drains first |
| `OverflowPolicy::DiscardOldest` | the oldest buffered items make way; succeeds if the item fits in the ring at all |

`SharedRamRing` raises a signal on each successful enqueue; a drain task awaits it and then drains:

```rust
loop {
    ring.wait_and_drain_all(&mut storage, &mut scratch, false).await?;
}
```

Each access to a shared ring is a critical section of its own, and none is held during a flash
write. If an enqueue evicts the very item that is being written, the drain takes no other item out of
the ring in its place.

## Power loss

Items in the RAM ring that have not been drained to flash are lost on power loss. Items that have
been drained carry the guarantees of `sequential-storage`.
