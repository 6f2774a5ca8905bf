//! The protocol, step by step, with steps of several parties interleaved.
use aarnn_nsys::bus::BusHandle;
use aarnn_nsys::protocol::{Access, Publish, Receipt, Receive, Reply, Subscribe};

struct Shared {
    mem: Vec<u8>,
    bus: BusHandle,
}

fn shared(desc: usize, slot: usize) -> Shared {
    let slab = desc * slot;
    let mut mem = vec![0u8; BusHandle::mapped_len(desc, slab).unwrap()];
    let bus = BusHandle::create(&mut mem, desc, slab).unwrap();
    Shared { mem, bus }
}

impl Shared {
    fn write_step(&mut self, p: &mut Publish, data: &[u8]) -> Access {
        let a = p.next();
        let reply = self.bus.perform(&mut self.mem, a, data, &mut []);
        p.advance(reply);
        a
    }

    fn write_until(&mut self, p: &mut Publish, data: &[u8], stop: fn(Access) -> bool) {
        while !stop(p.next()) {
            self.write_step(p, data);
        }
    }

    fn join(&mut self) -> u32 {
        let mut s = Subscribe::new();
        while s.next() != Access::Finish {
            let reply = self.bus.perform(&mut self.mem, s.next(), &[], &mut []);
            s.advance(reply);
        }
        assert!(s.joined);
        s.place
    }

    fn receive(&mut self, sub: u32, out: &mut [u8]) -> Receipt {
        let mut r = Receive::new(sub, self.bus.desc_capacity() as u64, out.len());
        while r.next() != Access::Finish {
            let reply = self.bus.perform(&mut self.mem, r.next(), &[], out);
            r.advance(reply);
        }
        r.receipt
    }
}

fn finished(a: Access) -> bool {
    a == Access::Finish
}

fn committing(a: Access) -> bool {
    matches!(a, Access::StoreSeq { .. })
}

fn swapping(a: Access) -> bool {
    matches!(a, Access::SwapClaim { .. })
}

#[test]
fn a_message_is_not_received_before_those_claimed_earlier() {
    let mut s = shared(4, 8);
    let sub = s.join();
    let mut first = Publish::new(true, 4, 5);
    let mut second = Publish::new(true, 4, 6);
    s.write_until(&mut first, b"first", committing);
    s.write_until(&mut second, b"second", finished);
    assert!(second.published);
    let mut buf = [0u8; 8];
    assert_eq!(s.receive(sub, &mut buf), Receipt::Nothing);
    s.write_until(&mut first, b"first", finished);
    assert_eq!(s.receive(sub, &mut buf), Receipt::Message(5));
    assert_eq!(&buf[..5], b"first");
    assert_eq!(s.receive(sub, &mut buf), Receipt::Message(6));
    assert_eq!(&buf[..6], b"second");
    assert_eq!(s.receive(sub, &mut buf), Receipt::Nothing);
}

#[test]
fn of_two_attempts_on_one_sequence_number_one_gives_up() {
    let mut s = shared(4, 8);
    let sub = s.join();
    let mut one = Publish::new(false, 4, 3);
    let mut two = Publish::new(false, 4, 3);
    s.write_until(&mut one, b"one", swapping);
    s.write_until(&mut two, b"two", swapping);
    s.write_until(&mut two, b"two", finished);
    s.write_until(&mut one, b"one", finished);
    assert!(two.published);
    assert!(!one.published);
    let mut buf = [0u8; 8];
    assert_eq!(s.receive(sub, &mut buf), Receipt::Message(3));
    assert_eq!(&buf[..3], b"two");
    assert_eq!(s.receive(sub, &mut buf), Receipt::Nothing);
}

#[test]
fn an_exchange_may_fail_for_no_reason() {
    let mut s = shared(4, 8);
    let before = s.mem.clone();
    let mut p = Publish::new(false, 4, 3);
    s.write_until(&mut p, b"one", swapping);
    p.advance(Reply::Swapped(false));
    assert_eq!(p.next(), Access::Finish);
    assert!(!p.published);
    assert_eq!(s.mem, before);
}

#[test]
fn a_blocking_publication_waits_for_the_slowest_subscriber() {
    let mut s = shared(2, 8);
    let sub = s.join();
    for data in [b"m0", b"m1"] {
        let mut p = Publish::new(true, 2, 2);
        s.write_until(&mut p, data, finished);
    }
    let mut late = Publish::new(true, 2, 2);
    for _ in 0..3 {
        s.write_until(&mut late, b"m2", |a| a == Access::Yield);
        s.write_step(&mut late, b"m2");
    }
    // One that does not wait gives up meanwhile, and claims nothing.
    let mut hasty = Publish::new(false, 2, 2);
    s.write_until(&mut hasty, b"xx", finished);
    assert!(!hasty.published);
    let mut buf = [0u8; 8];
    assert_eq!(s.receive(sub, &mut buf), Receipt::Message(2));
    assert_eq!(&buf[..2], b"m0");
    s.write_until(&mut late, b"m2", finished);
    assert!(late.published);
    for want in [b"m1", b"m2"] {
        assert_eq!(s.receive(sub, &mut buf), Receipt::Message(2));
        assert_eq!(&buf[..2], want);
    }
}

#[test]
fn the_steps_of_a_publication_come_in_order() {
    let mut s = shared(4, 8);
    let _ = s.join();
    let mut p = Publish::new(false, 4, 2);
    let mut seen: Vec<Access> = Vec::new();
    while p.next() != Access::Finish {
        seen.push(s.write_step(&mut p, b"hi"));
    }
    assert_eq!(
        seen,
        vec![
            Access::LoadClaim,
            Access::LoadWrite,
            Access::LoadSubs,
            Access::LoadRead { sub: 0 },
            Access::SwapClaim { expected: 0 },
            Access::Fill { slot: 0 },
            Access::StoreLen { slot: 0, len: 2 },
            Access::StoreSeq { slot: 0, seq: 1 },
            Access::LoadWrite,
            Access::LoadSeq { slot: 0 },
            Access::SwapWrite { expected: 0 },
            Access::LoadWrite,
            Access::LoadSeq { slot: 1 },
        ]
    );
}

#[test]
fn a_subscriber_beyond_the_last_place_is_turned_away() {
    let mut s = Subscribe::new();
    assert_eq!(s.next(), Access::AddSubs);
    s.advance(Reply::Value(64));
    assert_eq!(s.next(), Access::Finish);
    assert!(!s.joined);
    let mut s = Subscribe::new();
    s.advance(Reply::Value(63));
    assert_eq!(s.next(), Access::LoadWrite);
    s.advance(Reply::Value(9));
    assert_eq!(s.next(), Access::StoreRead { sub: 63, seq: 9 });
    s.advance(Reply::Made);
    assert!(s.joined);
}

#[test]
fn the_bytes_of_a_bus_are_where_the_layout_puts_them() {
    let mut s = shared(4, 8);
    let _ = s.join();
    for k in 0..6u8 {
        let mut p = Publish::new(true, 4, 3);
        if k < 4 {
            s.write_until(&mut p, &[k, k, k], finished);
        }
    }
    assert_eq!(&s.mem[0..8], &[4, 0, 0, 0, 0, 0, 0, 0]); // write sequence
    assert_eq!(&s.mem[8..16], &[4, 0, 0, 0, 0, 0, 0, 0]); // claim sequence
    assert_eq!(&s.mem[16..24], &[4, 0, 0, 0, 0, 0, 0, 0]); // capacity
    assert_eq!(&s.mem[24..32], &[8, 0, 0, 0, 0, 0, 0, 0]); // bytes of a slot
    assert_eq!(&s.mem[32..36], &[1, 0, 0, 0]); // subscribers
    assert_eq!(&s.mem[96..104], &[0; 8]); // read sequence
    assert_eq!(&s.mem[640 + 64..640 + 64 + 12], &[2, 0, 0, 0, 0, 0, 0, 0, 3, 0, 0, 0]);
    assert_eq!(&s.mem[640 + 4 * 64 + 8..640 + 4 * 64 + 11], &[1, 1, 1]);
}

fn yielding(a: Access) -> bool {
    a == Access::Yield
}

#[test]
fn a_subscriber_that_a_producer_has_not_counted_is_not_overrun() {
    let mut s = shared(1, 8);
    let mut first = Publish::new(true, 1, 5);
    let mut second = Publish::new(true, 1, 6);
    s.write_until(&mut first, b"first", committing);
    // The second producer claims a number, loads the write sequence, and counts the subscribers:
    // none.
    for _ in 0..3 {
        s.write_step(&mut second, b"second");
    }
    assert_eq!(second.next(), Access::Yield);
    // A subscriber begins, and the first message is committed.
    let sub = s.join();
    s.write_until(&mut first, b"first", finished);
    s.write_step(&mut second, b"second");
    s.write_until(&mut second, b"second", yielding);
    let mut buf = [0u8; 8];
    assert_eq!(s.receive(sub, &mut buf), Receipt::Message(5));
    assert_eq!(&buf[..5], b"first");
    s.write_until(&mut second, b"second", finished);
    assert_eq!(s.receive(sub, &mut buf), Receipt::Message(6));
    assert_eq!(&buf[..6], b"second");
}

#[test]
fn a_subscriber_that_joins_between_the_two_loads_is_counted() {
    let mut s = shared(1, 8);
    let mut first = Publish::new(true, 1, 5);
    let mut second = Publish::new(true, 1, 6);
    s.write_until(&mut first, b"first", committing);
    s.write_step(&mut second, b"second");
    assert_eq!(second.next(), Access::LoadWrite);
    s.write_step(&mut second, b"second");
    assert_eq!(second.next(), Access::LoadSubs);
    let sub = s.join();
    s.write_until(&mut first, b"first", finished);
    s.write_until(&mut second, b"second", yielding);
    let mut buf = [0u8; 8];
    assert_eq!(s.receive(sub, &mut buf), Receipt::Message(5));
    s.write_until(&mut second, b"second", finished);
    assert_eq!(s.receive(sub, &mut buf), Receipt::Message(6));
}

#[test]
fn subscribers_receive_one_log_in_which_each_producer_keeps_its_order() {
    let mut s = shared(8, 2);
    let one = s.join();
    let mut p = Publish::new(true, 8, 2);
    let mut q = Publish::new(true, 8, 2);
    // q claims first, but p commits first; then each publishes once more.
    s.write_until(&mut q, b"q0", committing);
    s.write_until(&mut p, b"p0", finished);
    let two = s.join();
    s.write_until(&mut q, b"q0", finished);
    let mut p = Publish::new(false, 8, 2);
    s.write_until(&mut p, b"p1", finished);
    let mut q = Publish::new(false, 8, 2);
    s.write_until(&mut q, b"q1", finished);
    for sub in [one, two] {
        let mut got = Vec::new();
        let mut buf = [0u8; 2];
        while s.receive(sub, &mut buf) == Receipt::Message(2) {
            got.push(buf);
        }
        assert_eq!(got, [*b"q0", *b"p0", *b"p1", *b"q1"]);
    }
}
