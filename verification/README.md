# aarnn-nsys

A multi-producer, multi-subscriber message bus in one region of bytes, and the protocols of the
programs around it, written in Rust and verified with Verus.

Producers claim sequence numbers from a shared counter, write their messages into the slots of a
ring, and commit them. Every subscriber receives every message published after it subscribed, in
the order of the sequence numbers. A producer that would overrun the slowest subscriber is held
back.

## Layout

- `src/layout.rs`, `src/bytes.rs`, `src/pow2.rs`: where a bus keeps its parts.
- `src/protocol.rs`: publishing, receiving and subscribing as state machines, one access to shared
  memory at a time.
- `src/bus.rs`: the operations of a bus on a slice of bytes.
- `src/publication.rs`: how a publication ends, or waits.
- `src/fanout.rs`: what the operations do to the queues of the subscribers.
- `src/interleave.rs`: what holds when the accesses of many producers and subscribers interleave.
- `src/history.rs`: what is published and received over a whole execution.
- `src/usbsim.rs`, `src/usb_bridge.rs`: frames on a byte stream, and a bridge to it.
- `src/l2.rs`, `src/l2_bridge.rs`: Ethernet frames, fragments, and a bridge to them.
- `src/crc.rs`, `src/mac.rs`, `src/text.rs`, `src/platform.rs`, `src/cli.rs`, `src/error.rs`:
  checksums, addresses, numbers as text, what is handed to the operating system, what is reported.
- `app/`: the programs `aarnn-nsys`, `l2bridge` and `usbsim_bridge`, on POSIX shared memory.

## What is taken for granted

- The error numbers of `libc` (`src/error.rs`) and `u16::to_be` (`src/platform.rs`).
- That accesses to shared memory take effect one after the other (`src/interleave.rs`).
