//! The bus in a slice that the caller provides.
use aarnn_nsys::bus::{self, BusError, BusHandle};

fn make_bus(desc: usize, slot_bytes: usize) -> (Vec<u8>, BusHandle) {
    let total = bus::min_buffer_size(desc, slot_bytes);
    let mut region = vec![0u8; total];
    let bus = BusHandle::from_slice(&mut region, desc).expect("from_slice");
    (region, bus)
}

#[test]
fn from_slice_basic_publish_recv() {
    let desc = 16usize;
    let slot = 64usize;
    let (mut mem, bus) = make_bus(desc, slot);

    let sub = bus.subscribe(&mut mem).expect("subscribe");
    let prod = bus.producer();

    let msg = b"hello-from-slice";
    assert!(msg.len() <= slot);
    prod.publish(&mut mem, msg).expect("publish");

    let mut buf = vec![0u8; slot];
    match sub.try_recv(&mut mem, &mut buf) {
        Ok(Some(n)) => assert_eq!(&buf[..n], msg),
        other => panic!("unexpected recv result: {:?}", other),
    }
}

#[test]
fn from_slice_fanout_and_backpressure() {
    let desc = 4usize; // tiny ring to force backpressure easily
    let slot = 32usize;
    let (mut mem, bus) = make_bus(desc, slot);

    let s0 = bus.subscribe(&mut mem).unwrap();
    let s1 = bus.subscribe(&mut mem).unwrap();
    let prod = bus.producer();

    let msg = b"fanout";
    prod.publish(&mut mem, msg).unwrap();

    let mut b0 = vec![0u8; slot];
    let mut b1 = vec![0u8; slot];
    assert_eq!(s0.try_recv(&mut mem, &mut b0).unwrap(), Some(msg.len()));
    assert_eq!(&b0[..msg.len()], msg);
    assert_eq!(s1.try_recv(&mut mem, &mut b1).unwrap(), Some(msg.len()));
    assert_eq!(&b1[..msg.len()], msg);

    // Fill the ring completely
    let payload = [0xAAu8; 8];
    for _ in 0..desc {
        prod.publish(&mut mem, &payload).unwrap();
    }

    // A publication that does not wait now meets backpressure
    match prod.try_publish(&mut mem, &payload) {
        Ok(false) => {}
        other => panic!("expected backpressure Ok(false), got {:?}", other),
    }

    // Backpressure comes from the slowest subscriber: one that moves on alone frees nothing
    let _ = s0.try_recv(&mut mem, &mut b0).unwrap();
    assert_eq!(prod.try_publish(&mut mem, &payload), Ok(false));
    let _ = s1.try_recv(&mut mem, &mut b1).unwrap();
    assert_eq!(prod.try_publish(&mut mem, &payload), Ok(true));
}

#[test]
fn from_slice_msg_too_large_then_ok() {
    let desc = 8usize;
    let slot = 16usize;
    let (mut mem, bus) = make_bus(desc, slot);
    let sub = bus.subscribe(&mut mem).unwrap();
    let prod = bus.producer();

    let oversize = vec![0u8; slot + 1];
    match prod.publish(&mut mem, &oversize) {
        Err(BusError::MsgTooLarge) => {}
        other => panic!("expected MsgTooLarge, got {:?}", other),
    }

    let ok = [0x5Au8; 8];
    prod.publish(&mut mem, &ok).unwrap();
    let mut buf = vec![0u8; slot];
    assert_eq!(sub.try_recv(&mut mem, &mut buf).unwrap(), Some(ok.len()));
    assert_eq!(&buf[..ok.len()], &ok);
}
