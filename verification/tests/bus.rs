//! A bus between its operations: many producers, many subscribers, two handles, two buses.
use aarnn_nsys::bus::{
    self, recv_turn, relay_once, relay_turn, BusError, BusHandle, Region,
};
use aarnn_nsys::layout::{payload_offset, read_seq_offset, slot_offset};

fn create(desc: usize, slab: usize) -> (Vec<u8>, BusHandle) {
    let mut mem = vec![0u8; BusHandle::mapped_len(desc, slab).unwrap()];
    let bus = BusHandle::create(&mut mem, desc, slab).expect("create");
    (mem, bus)
}

#[test]
fn shm_create_open_publish_recv() {
    let desc = 1024usize; // power of two
    let slab = 1024usize * 64; // slot_bytes = 64

    let (mut mem, bus) = create(desc, slab);
    assert_eq!(bus.desc_capacity(), desc);
    assert_eq!(bus.slot_bytes(), slab / desc);

    // A second handle on the same memory
    let bus2 = BusHandle::open(&mem, desc, slab).expect("open bus");

    // Subscribe on the second, publish on the first
    let sub = bus2.subscribe(&mut mem).expect("subscribe");
    let prod = bus.producer();

    let msg = b"hello-linux-shm";
    prod.publish(&mut mem, msg).expect("publish");

    let mut buf = vec![0u8; bus.slot_bytes()];
    match sub.try_recv(&mut mem, &mut buf) {
        Ok(Some(n)) => assert_eq!(&buf[..n], msg),
        other => panic!("unexpected recv result: {:?}", other),
    }
}

#[test]
fn shm_oversize_and_backpressure() {
    let desc = 8usize; // small ring to exercise backpressure
    let slab = 8usize * 32; // slot_bytes = 32
    let (mut mem, bus) = create(desc, slab);
    let sub = bus.subscribe(&mut mem).expect("subscribe");
    let prod = bus.producer();

    // Oversize must be rejected
    let too_big = vec![0u8; 64];
    match prod.publish(&mut mem, &too_big) {
        Err(BusError::MsgTooLarge) => {}
        other => panic!("expected MsgTooLarge, got {:?}", other),
    }

    // Fill the ring
    let payload = [0xABu8; 8];
    for _ in 0..desc {
        prod.publish(&mut mem, &payload).unwrap();
    }

    // Now try_publish should report backpressure
    match prod.try_publish(&mut mem, &payload) {
        Ok(false) => {}
        other => panic!("expected backpressure Ok(false), got {:?}", other),
    }

    // Free a slot and try again
    let mut buf = vec![0u8; bus.slot_bytes()];
    let _ = sub.try_recv(&mut mem, &mut buf).unwrap();
    assert_eq!(prod.try_publish(&mut mem, &payload), Ok(true));
}

#[test]
fn single_producer_single_subscriber() {
    let desc = 1024usize;
    let slab = 1024usize * 4096; // 4 MiB
    let (mut mem, bus) = create(desc, slab);
    let sub = bus.subscribe(&mut mem).expect("subscribe");
    let prod = bus.producer();
    let mut buf = vec![0u8; bus.slot_bytes()];

    let payload = vec![0x11u8; 128];
    let total = 10_000u32;

    let mut sent = 0u32;
    let mut got = 0u32;
    while got < total {
        while sent < total && prod.try_publish(&mut mem, &payload).unwrap() {
            sent += 1;
        }
        match sub.try_recv(&mut mem, &mut buf) {
            Ok(Some(n)) => {
                assert_eq!(n, 128);
                got += 1;
            }
            other => panic!("recv error: {:?}", other),
        }
    }
    assert_eq!(got, total);
    assert_eq!(sub.try_recv(&mut mem, &mut buf), Ok(None));
}

#[test]
fn multi_producers_single_subscriber_counts() {
    let desc = 4096usize;
    let slab = 4096usize * 4096; // 16 MiB
    let (mut mem, bus) = create(desc, slab);
    let sub = bus.subscribe(&mut mem).expect("subscribe");
    let slot = bus.slot_bytes();

    let msg_size = 256usize;
    assert!(msg_size <= slot);
    let prod_a = bus.producer();
    let prod_b = bus.producer();
    let payload_a = vec![0xA1u8; msg_size];
    let payload_b = vec![0xB2u8; msg_size];
    let mut sent_a = 0u64;
    let mut sent_b = 0u64;
    for _ in 0..500 {
        prod_a.publish(&mut mem, &payload_a).unwrap();
        sent_a += 1;
        prod_b.publish(&mut mem, &payload_b).unwrap();
        sent_b += 1;
    }

    let mut buf = vec![0u8; slot];
    let mut got_a = 0u64;
    let mut got_b = 0u64;
    while let Some(n) = sub.try_recv(&mut mem, &mut buf).unwrap() {
        assert_eq!(n, msg_size);
        match buf[0] {
            0xA1 => got_a += 1,
            0xB2 => got_b += 1,
            _ => {}
        }
    }
    assert!(got_a > 0 && got_b > 0);
    assert!(sent_a > 0 && sent_b > 0);
    assert_eq!((got_a, got_b), (sent_a, sent_b));
}

#[test]
fn try_publish_backpressure() {
    // Tiny ring to force backpressure quickly
    let desc = 8usize;
    let slab = 8usize * 256;
    let (mut mem, bus) = create(desc, slab);
    let prod = bus.producer();
    let sub = bus.subscribe(&mut mem).expect("subscribe");
    let mut buf = vec![0u8; bus.slot_bytes()];
    let payload = vec![0xCCu8; 64];

    // Fill the ring without consuming
    let mut published = 0;
    for _ in 0..(desc * 2) {
        // attempt more than capacity
        match prod.try_publish(&mut mem, &payload) {
            Ok(true) => published += 1,
            Ok(false) => break,
            Err(e) => panic!("unexpected error: {}", e.message()),
        }
    }
    assert!(published <= desc as usize);

    // Now consume all and ensure we can publish again
    let mut got = 0usize;
    while got < published {
        if let Ok(Some(_)) = sub.try_recv(&mut mem, &mut buf) {
            got += 1;
        } else {
            break;
        }
    }
    assert_eq!(got, published);
    assert!(prod.try_publish(&mut mem, &payload).unwrap());
}

#[test]
fn relay_between_buses() {
    let desc = 1024usize;
    let slab = 1024usize * 1024; // 1 MiB
    let (mut src_mem, src) = create(desc, slab);
    let (mut dst_mem, dst) = create(desc, slab);

    let prod_src = src.producer();
    let sub_src = src.subscribe(&mut src_mem).expect("sub src");
    let sub_dst = dst.subscribe(&mut dst_mem).expect("sub dst");
    let prod_dst = dst.producer();

    // Producer on src
    let payload = vec![0x5Au8; 128];
    for _ in 0..1000 {
        prod_src.publish(&mut src_mem, &payload).unwrap();
    }

    // Relay
    let mut scratch = vec![0u8; src.slot_bytes()];
    let mut fwd = 0usize;
    loop {
        match relay_once(&sub_src, &mut src_mem, &prod_dst, &mut dst_mem, &mut scratch) {
            Ok(Some(_n)) => fwd += 1,
            Ok(None) => break,
            Err(e) => panic!("relay error: {}", e.message()),
        }
    }
    assert_eq!(fwd, 1000);

    // Receive on dst
    let mut buf = vec![0u8; dst.slot_bytes()];
    let mut got = 0usize;
    while got < fwd {
        if let Ok(Some(n)) = sub_dst.try_recv(&mut dst_mem, &mut buf) {
            assert_eq!(n, 128);
            got += 1;
        } else {
            break;
        }
    }
    assert_eq!(got, fwd);
}

#[test]
fn sizes_are_those_of_the_layout() {
    assert_eq!(bus::header_layout_size(0), 640);
    assert_eq!(bus::header_layout_size(4), 640 + 4 * 64);
    assert_eq!(bus::min_buffer_size(1024, 256), 640 + 1024 * 64 + 1024 * 256);
    assert_eq!(BusHandle::mapped_len(8, 8 * 32), Ok(640 + 8 * 64 + 8 * 32));
    assert_eq!((read_seq_offset(0), read_seq_offset(63)), (96, 600));
    assert_eq!((slot_offset(8, 0), slot_offset(8, 7)), (640, 640 + 7 * 64));
    assert_eq!(payload_offset(8, 32, 0), 640 + 8 * 64);
    assert_eq!(payload_offset(8, 32, 7), 640 + 8 * 64 + 7 * 32);
}

#[test]
fn sizes_that_do_not_divide_are_refused() {
    assert_eq!(BusHandle::mapped_len(6, 60), Err(BusError::InvalidArg));
    assert_eq!(BusHandle::mapped_len(0, 60), Err(BusError::InvalidArg));
    assert_eq!(BusHandle::mapped_len(8, 0), Err(BusError::InvalidArg));
    assert_eq!(BusHandle::mapped_len(8, 9), Err(BusError::InvalidArg));
    let mut mem = vec![7u8; 2000];
    assert!(matches!(BusHandle::create(&mut mem, 3, 30), Err(BusError::InvalidArg)));
    assert!(matches!(BusHandle::open(&mem, 3, 30), Err(BusError::InvalidArg)));
    assert!(matches!(BusHandle::from_slice(&mut mem, 12), Err(BusError::InvalidArg)));
    let mut header_only = vec![7u8; 640 + 4 * 64];
    assert!(matches!(BusHandle::from_slice(&mut header_only, 4), Err(BusError::InvalidArg)));
    let mut uneven = vec![7u8; 640 + 4 * 64 + 5];
    assert!(matches!(BusHandle::from_slice(&mut uneven, 4), Err(BusError::InvalidArg)));
    assert!(uneven.iter().all(|b| *b == 7));
    let mut none: Vec<u8> = Vec::new();
    assert!(matches!(Region::from_slice(&mut none), Err(BusError::InvalidArg)));
    assert!(Region::from_slice(&mut uneven).is_ok());
}

#[test]
fn opening_asks_for_the_numbers_of_the_creation() {
    let (mem, _bus) = create(8, 8 * 32);
    assert!(BusHandle::open(&mem, 8, 8 * 32).is_ok());
    // The same length of memory, but other numbers in the header
    let slab16 = mem.len() - (640 + 16 * 64);
    if slab16 % 16 == 0 && slab16 > 0 {
        assert!(matches!(BusHandle::open(&mem, 16, slab16), Err(BusError::InvalidArg)));
    }
    let slab4 = mem.len() - (640 + 4 * 64);
    assert_eq!(slab4 % 4, 0);
    assert!(matches!(BusHandle::open(&mem, 4, slab4), Err(BusError::InvalidArg)));
}

#[test]
fn creating_again_forgets_what_was() {
    let (mut mem, bus) = create(4, 4 * 8);
    let sub = bus.subscribe(&mut mem).unwrap();
    bus.producer().publish(&mut mem, b"old").unwrap();
    let bus = BusHandle::create(&mut mem, 4, 4 * 8).unwrap();
    let mut buf = [0u8; 8];
    assert_eq!(sub.try_recv(&mut mem, &mut buf), Ok(None));
    let late = bus.subscribe(&mut mem).unwrap();
    bus.producer().publish(&mut mem, b"new").unwrap();
    assert_eq!(late.try_recv(&mut mem, &mut buf), Ok(Some(3)));
    assert_eq!(&buf[..3], b"new");
}

#[test]
fn empty_messages_are_refused() {
    let (mut mem, bus) = create(4, 4 * 8);
    let before = mem.clone();
    assert_eq!(bus.producer().publish(&mut mem, &[]), Err(BusError::MsgTooLarge));
    assert_eq!(bus.producer().try_publish(&mut mem, &[]), Err(BusError::MsgTooLarge));
    assert_eq!(bus.producer().try_publish(&mut mem, &[1; 9]), Err(BusError::MsgTooLarge));
    assert_eq!(mem, before);
}

#[test]
fn without_subscribers_there_is_no_backpressure() {
    let (mut mem, bus) = create(4, 4 * 8);
    for k in 0..50u8 {
        assert_eq!(bus.producer().try_publish(&mut mem, &[k]), Ok(true));
    }
}

#[test]
fn a_late_subscriber_begins_behind_the_last_message() {
    let (mut mem, bus) = create(8, 8 * 8);
    let early = bus.subscribe(&mut mem).unwrap();
    let prod = bus.producer();
    prod.publish(&mut mem, b"one").unwrap();
    let late = bus.subscribe(&mut mem).unwrap();
    prod.publish(&mut mem, b"two").unwrap();
    let mut buf = [0u8; 8];
    assert_eq!(late.try_recv(&mut mem, &mut buf), Ok(Some(3)));
    assert_eq!(&buf[..3], b"two");
    assert_eq!(late.try_recv(&mut mem, &mut buf), Ok(None));
    assert_eq!(early.try_recv(&mut mem, &mut buf), Ok(Some(3)));
    assert_eq!(&buf[..3], b"one");
    assert_eq!(early.try_recv(&mut mem, &mut buf), Ok(Some(3)));
    assert_eq!(&buf[..3], b"two");
}

#[test]
fn messages_come_in_order_across_many_turns_of_the_ring() {
    let (mut mem, bus) = create(4, 4 * 2);
    let a = bus.subscribe(&mut mem).unwrap();
    let b = bus.subscribe(&mut mem).unwrap();
    let prod = bus.producer();
    let mut buf = [0u8; 2];
    let mut next_a = 0u8;
    let mut next_b = 0u8;
    for k in 0..200u8 {
        while !prod.try_publish(&mut mem, &[k, !k]).unwrap() {
            assert_eq!(a.try_recv(&mut mem, &mut buf), Ok(Some(2)));
            assert_eq!(buf, [next_a, !next_a]);
            next_a += 1;
            if next_b < next_a {
                assert_eq!(b.try_recv(&mut mem, &mut buf), Ok(Some(2)));
                assert_eq!(buf, [next_b, !next_b]);
                next_b += 1;
            }
        }
    }
    assert_eq!((next_a, next_b), (196, 196));
}

#[test]
fn a_buffer_that_is_too_short_leaves_the_message() {
    let (mut mem, bus) = create(4, 4 * 8);
    let sub = bus.subscribe(&mut mem).unwrap();
    bus.producer().publish(&mut mem, b"12345").unwrap();
    let mut short = [9u8; 4];
    assert_eq!(sub.try_recv(&mut mem, &mut short), Err(BusError::MsgTooLarge));
    assert_eq!(short, [9u8; 4]);
    let mut buf = [9u8; 7];
    assert_eq!(sub.try_recv(&mut mem, &mut buf), Ok(Some(5)));
    assert_eq!(&buf, b"12345\x09\x09");
}

#[test]
fn there_are_places_for_64_subscribers() {
    let (mut mem, bus) = create(4, 4 * 8);
    for _ in 0..64 {
        assert!(bus.subscribe(&mut mem).is_ok());
    }
    bus.producer().publish(&mut mem, b"all").unwrap();
    assert!(matches!(bus.subscribe(&mut mem), Err(BusError::NoSubscriberSlots)));
}

#[test]
fn a_refused_subscription_holds_nobody_back() {
    let (mut mem, bus) = create(4, 4 * 8);
    let mut subs = Vec::new();
    for _ in 0..64 {
        subs.push(bus.subscribe(&mut mem).unwrap());
    }
    for _ in 0..3 {
        assert!(bus.subscribe(&mut mem).is_err());
    }
    let prod = bus.producer();
    for k in 0..4u8 {
        assert_eq!(prod.try_publish(&mut mem, &[k]), Ok(true));
    }
    assert_eq!(prod.try_publish(&mut mem, &[4]), Ok(false));
    let mut buf = [0u8; 8];
    for sub in &subs {
        assert_eq!(prod.try_publish(&mut mem, &[4]), Ok(false));
        assert_eq!(sub.try_recv(&mut mem, &mut buf), Ok(Some(1)));
    }
    assert_eq!(prod.try_publish(&mut mem, &[4]), Ok(true));
}

#[test]
fn a_bus_that_is_opened_again_is_as_it_was_left() {
    let (mut mem, bus) = create(4, 4 * 8);
    bus.subscribe(&mut mem).unwrap();
    for k in 0..4u8 {
        bus.producer().publish(&mut mem, &[k]).unwrap();
    }
    let before = mem.clone();
    let again = BusHandle::open(&mem, 4, 4 * 8).unwrap();
    assert_eq!((again.desc_capacity(), again.slot_bytes()), (4, 8));
    assert_eq!(again.producer().try_publish(&mut mem, &[1]), Ok(false));
    assert_eq!(mem, before);
}

#[test]
fn relaying_drops_what_the_destination_cannot_take() {
    let (mut src_mem, src) = create(4, 4 * 16);
    let (mut dst_mem, dst) = create(4, 4 * 4);
    let from = src.subscribe(&mut src_mem).unwrap();
    let end = dst.subscribe(&mut dst_mem).unwrap();
    src.producer().publish(&mut src_mem, b"too long").unwrap();
    src.producer().publish(&mut src_mem, b"fits").unwrap();
    let mut scratch = [0u8; 16];
    let to = dst.producer();
    assert_eq!(
        relay_once(&from, &mut src_mem, &to, &mut dst_mem, &mut scratch),
        Err(BusError::MsgTooLarge)
    );
    assert_eq!(relay_once(&from, &mut src_mem, &to, &mut dst_mem, &mut scratch), Ok(Some(4)));
    assert_eq!(relay_once(&from, &mut src_mem, &to, &mut dst_mem, &mut scratch), Ok(None));
    let mut buf = [0u8; 4];
    assert_eq!(end.try_recv(&mut dst_mem, &mut buf), Ok(Some(4)));
    assert_eq!(&buf, b"fits");
    assert_eq!(end.try_recv(&mut dst_mem, &mut buf), Ok(None));
}

#[test]
fn relaying_with_a_short_scratch_leaves_the_message() {
    let (mut src_mem, src) = create(4, 4 * 16);
    let (mut dst_mem, dst) = create(4, 4 * 16);
    let from = src.subscribe(&mut src_mem).unwrap();
    src.producer().publish(&mut src_mem, b"too long").unwrap();
    let to = dst.producer();
    let mut short = [0u8; 4];
    assert_eq!(
        relay_once(&from, &mut src_mem, &to, &mut dst_mem, &mut short),
        Err(BusError::MsgTooLarge)
    );
    let mut scratch = [0u8; 8];
    assert_eq!(relay_once(&from, &mut src_mem, &to, &mut dst_mem, &mut scratch), Ok(Some(8)));
}

#[test]
fn a_relay_passes_on_what_the_destination_can_take() {
    let (_, dst) = create(4, 4 * 8);
    assert_eq!(relay_turn(Ok(Some(8)), &dst), Ok(Some(8)));
    assert_eq!(relay_turn(Ok(Some(9)), &dst), Err(BusError::MsgTooLarge));
    assert_eq!(relay_turn(Ok(None), &dst), Ok(None));
    assert_eq!(relay_turn(Err(BusError::NotReady), &dst), Err(BusError::NotReady));
}

#[test]
fn refused_attempts_reserve_nothing() {
    for refused in [1, 7] {
        for reads in 0..=4u8 {
            let (mut mem, bus) = create(4, 4 * 8);
            let sub = bus.subscribe(&mut mem).unwrap();
            let prod = bus.producer();
            for k in 0..4u8 {
                assert_eq!(prod.try_publish(&mut mem, &[k]), Ok(true));
            }
            for _ in 0..refused {
                assert_eq!(prod.try_publish(&mut mem, b"refused"), Ok(false));
            }
            let mut buf = [0u8; 8];
            for k in 0..reads {
                assert_eq!(sub.try_recv(&mut mem, &mut buf), Ok(Some(1)));
                assert_eq!(buf[0], k);
            }
            for k in 0..reads {
                assert_eq!(prod.try_publish(&mut mem, &[4 + k]), Ok(true));
            }
            assert_eq!(prod.try_publish(&mut mem, b"refused"), Ok(false));
            for k in reads..4 + reads {
                assert_eq!(sub.try_recv(&mut mem, &mut buf), Ok(Some(1)));
                assert_eq!(buf[0], k);
            }
            assert_eq!(sub.try_recv(&mut mem, &mut buf), Ok(None));
        }
    }
}

#[test]
fn a_blocking_receipt_waits_until_its_time_is_up() {
    let (mut mem, bus) = create(4, 4 * 8);
    let sub = bus.subscribe(&mut mem).unwrap();
    let mut buf = [0u8; 8];
    assert_eq!(sub.recv_blocking(&mut mem, &mut buf, 0, 50), None);
    assert_eq!(sub.recv_blocking(&mut mem, &mut buf, 49, 50), None);
    assert_eq!(
        sub.recv_blocking(&mut mem, &mut buf, 50, 50),
        Some(Err(BusError::NotReady))
    );
    bus.producer().publish(&mut mem, b"now").unwrap();
    assert_eq!(sub.recv_blocking(&mut mem, &mut buf, 99, 50), Some(Ok(3)));
    assert_eq!(recv_turn(Err(BusError::MsgTooLarge), 0, 50), Some(Err(BusError::MsgTooLarge)));
    assert_eq!(recv_turn(Ok(Some(7)), 60, 50), Some(Ok(7)));
    assert_eq!(recv_turn(Ok(None), 60, 50), Some(Err(BusError::NotReady)));
}

#[test]
fn errors_say_what_is_wrong() {
    assert_eq!(BusError::InvalidArg.message(), "invalid argument");
    assert_eq!(BusError::NoSubscriberSlots.message(), "no subscriber slots available");
    assert_eq!(BusError::MsgTooLarge.message(), "message too large");
    assert_eq!(BusError::NotReady.message(), "not ready");
    assert_eq!(
        BusError::Platform(2).message(),
        "platform error: errno=2 (ENOENT) shared memory object not found"
    );
    assert_eq!(
        BusError::Platform(17).message(),
        "platform error: errno=17 (EEXIST) object already exists"
    );
    assert_eq!(
        BusError::Platform(13).message(),
        "platform error: errno=13 (EACCES) permission denied"
    );
    assert_eq!(
        BusError::Platform(22).message(),
        "platform error: errno=22 (EINVAL) invalid size or flags"
    );
    assert_eq!(
        BusError::Platform(12).message(),
        "platform error: errno=12 (ENOMEM) not enough memory for mapping"
    );
    assert_eq!(BusError::Platform(5).message(), "platform error: errno=5 platform error");
    assert_eq!(
        BusError::Platform(i32::MIN).message(),
        "platform error: errno=-2147483648 platform error"
    );
}
