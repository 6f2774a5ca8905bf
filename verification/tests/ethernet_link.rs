//! The Ethernet link: frames, fragments, and the bridge that sends and answers them.
use aarnn_nsys::l2::{build_frag, parse_frame, Frame};
use aarnn_nsys::l2_bridge::{probe_bytes, Cfg, Counters, L2Bridge, Reassembler};

const A: [u8; 6] = [2, 0, 0, 0, 0, 1];
const B: [u8; 6] = [2, 0, 0, 0, 0, 2];
const CFG: Cfg = Cfg { ethertype: 0xCAFE, max_frame: 4096, ttl: 8 };

fn pair() -> (L2Bridge, L2Bridge) {
    (L2Bridge::new(CFG, B, A, false), L2Bridge::new(CFG, A, B, false))
}

fn fragment(f: Frame) -> (u8, u8, u8, u16, u16, Vec<u8>) {
    match f {
        Frame::Fragment { chan, flags, ttl, msg_id, frag_idx, payload } => {
            (chan, flags, ttl, msg_id, frag_idx, payload)
        }
        _ => panic!("not a fragment"),
    }
}

#[test]
fn an_ethernet_frame_has_these_bytes() {
    assert_eq!(
        build_frag(&B, &A, 0xCAFE, 0, 7, 0x0102, 3, true, b"abc"),
        vec![
            2, 0, 0, 0, 0, 2, 2, 0, 0, 0, 0, 1, 0xca, 0xfe, 1, 0, 3, 7, 2, 1, 3, 0, 3, 0, 0x5d,
            0x23, 0x61, 0x62, 0x63
        ]
    );
}

#[test]
fn an_ethernet_frame_reads_back() {
    let mut frame = build_frag(&B, &A, 0xCAFE, 0, 7, 0x0102, 3, false, b"abc");
    frame.extend_from_slice(&[0; 20]); // padding of the network
    assert_eq!(
        fragment(parse_frame(&frame, 0xCAFE)),
        (0, 1, 7, 0x0102, 3, b"abc".to_vec())
    );
}

#[test]
fn an_empty_acknowledgement_is_padded() {
    let frame = build_frag(&B, &A, 0xCAFE, 1, 7, 9, 0, true, b"");
    assert_eq!(frame.len(), 60);
    assert_eq!(
        fragment(parse_frame(&frame, 0xCAFE)),
        (1, 3, 7, 9, 0, vec![0u8; 34])
    );
    // Nothing else is.
    assert_eq!(build_frag(&B, &A, 0xCAFE, 0, 7, 9, 0, true, b"").len(), 26);
    assert_eq!(build_frag(&B, &A, 0xCAFE, 1, 7, 9, 0, false, b"").len(), 26);
    assert_eq!(build_frag(&B, &A, 0xCAFE, 1, 7, 9, 0, true, b"x").len(), 27);
}

#[test]
fn every_changed_byte_behind_the_ethernet_header_is_noticed() {
    let frame = build_frag(&B, &A, 0xCAFE, 0, 7, 1, 0, true, b"hello");
    for i in 12..frame.len() {
        for flip in 1..=255u8 {
            let mut bad = frame.clone();
            bad[i] ^= flip;
            assert!(!matches!(parse_frame(&bad, 0xCAFE), Frame::Fragment { .. }));
        }
    }
}

#[test]
fn frames_are_told_apart() {
    let frame = build_frag(&B, &A, 0xCAFE, 0, 7, 1, 0, true, b"hello");
    assert!(matches!(parse_frame(&frame[..25], 0xCAFE), Frame::Short));
    assert!(matches!(parse_frame(&frame[..30], 0xCAFE), Frame::Short));
    assert!(matches!(parse_frame(&frame, 0xCAFF), Frame::WrongEthertype));
    let mut other = frame.clone();
    other[14] = 2;
    assert!(matches!(parse_frame(&other, 0xCAFE), Frame::WrongVersion));
    let mut other = frame.clone();
    other[30] ^= 1;
    assert!(matches!(parse_frame(&other, 0xCAFE), Frame::BadCrc));
}

#[test]
fn what_is_not_a_fragment_is_counted() {
    let mut bridge = L2Bridge::new(CFG, B, A, false);
    let frame = build_frag(&A, &B, 0xCAFE, 0, 7, 1, 0, true, b"hello");
    let mut bad = frame.clone();
    bad[30] ^= 1;
    let mut later = frame.clone();
    later[14] = 2;
    for rx in [&frame[..10], &frame[..30], &bad[..], &later[..]] {
        let act = bridge.from_link(rx);
        assert!(!act.good && act.publish.is_none() && act.acks.is_empty() && !act.pass);
    }
    bridge.from_link(&build_frag(&A, &B, 0x0800, 0, 7, 1, 0, true, b"hello"));
    bridge.sent(60);
    bridge.sent(u64::MAX);
    assert_eq!(
        bridge.counters,
        Counters {
            short_frame: 2,
            wrong_ethertype: 1,
            crc_fail: 1,
            reasm_reset: 0,
            tx_frag: 2,
            tx_bytes: u64::MAX,
        }
    );
}

#[test]
fn a_message_is_cut_into_fragments() {
    let (mut a, _) = pair();
    assert_eq!(a.msg_id, 1);
    let message: Vec<u8> = (0..4000u32).map(|k| k as u8).collect();
    let frames = a.from_bus(&message);
    assert_eq!(a.msg_id, 2);
    let parts: Vec<_> = frames.iter().map(|f| fragment(parse_frame(f, 0xCAFE))).collect();
    assert_eq!(parts.len(), 3);
    assert_eq!(parts[0], (0, 1, 7, 1, 0, message[..1474].to_vec()));
    assert_eq!(parts[1], (0, 1, 7, 1, 1, message[1474..2948].to_vec()));
    assert_eq!(parts[2], (0, 3, 7, 1, 2, message[2948..].to_vec()));
    assert!(a.from_bus(b"").is_empty());
    assert_eq!(a.from_bus(&[0; 1474]).len(), 1);
    assert_eq!(a.from_bus(&[0; 1475]).len(), 2);
}

#[test]
fn a_message_crosses_the_link_and_comes_back_as_acknowledgement() {
    let (mut a, mut b) = pair();
    a.self_test = true;
    for len in [1usize, 1473, 1474, 1475, 2948, 4096] {
        let message: Vec<u8> = (0..len).map(|k| (k * 7) as u8).collect();
        let id = a.msg_id;
        let frames = a.from_bus(&message);
        let mut acks = Vec::new();
        for (k, frame) in frames.iter().enumerate() {
            let act = b.from_link(frame);
            assert!(act.good);
            assert_eq!(act.publish.is_some(), k == frames.len() - 1);
            if let Some(got) = act.publish {
                assert_eq!(got, message);
                acks = act.acks;
            }
        }
        let mut back = Vec::new();
        for ack in acks {
            let (chan, _, ttl, msg_id, _, payload) = fragment(parse_frame(&ack, 0xCAFE));
            assert_eq!((chan, ttl, msg_id), (1, 6, id));
            back.extend_from_slice(&payload);
            assert_eq!(a.from_link(&ack).pass, len == 1);
        }
        assert_eq!(back, message);
    }
    assert!(a.passed);
}

#[test]
fn fragments_out_of_order_are_dropped() {
    let (mut a, mut b) = pair();
    let message = vec![9u8; 4000];
    let frames = a.from_bus(&message);
    b.from_link(&frames[0]);
    // The last one ends the message, though the one in the middle is missing.
    let act = b.from_link(&frames[2]);
    assert_eq!(act.publish, Some(vec![9u8; 1474]));
    // A message whose beginning is missing is empty, and acknowledged as such.
    let frames = a.from_bus(&message);
    b.from_link(&frames[1]);
    let act = b.from_link(&frames[2]);
    assert_eq!(act.publish, None);
    assert_eq!(act.acks, vec![build_frag(&A, &B, 0xCAFE, 1, 6, 2, 0, true, b"")]);
}

#[test]
fn a_message_that_is_too_long_is_given_up() {
    let (mut a, _) = pair();
    let mut b = L2Bridge::new(Cfg { max_frame: 2000, ..CFG }, A, B, false);
    let frames = a.from_bus(&[1; 3000]);
    assert!(b.from_link(&frames[0]).publish.is_none());
    assert_eq!(b.counters.reasm_reset, 0);
    // The second one overflows, and though it is the third that ends the message it is not last.
    let act = b.from_link(&frames[1]);
    assert!(act.good && act.publish.is_none() && act.acks.is_empty());
    assert_eq!(b.counters.reasm_reset, 1);
    let act = b.from_link(&frames[2]);
    assert!(act.publish.is_none());
    assert_eq!(act.acks.len(), 1);
}

#[test]
fn fragments_are_put_together_one_message_at_a_time() {
    let mut r = Reassembler::new(10);
    assert!(!r.accept(7, 0, b"abc"));
    assert!(!r.accept(7, 1, b"def"));
    assert!(!r.accept(7, 3, b"xxx"));
    assert!(!r.accept(7, 2, b"ghij"));
    assert_eq!(r.take(), b"abcdefghij");
    assert_eq!(r.take(), b"");
    assert!(!r.accept(8, 0, b"one"));
    assert!(!r.accept(9, 0, b"two"));
    assert_eq!(r.take(), b"two");
    assert!(!r.accept(1, 0, b"12345678"));
    assert!(r.accept(1, 1, b"901"));
    assert_eq!(r.take(), b"");
}

#[test]
fn a_self_test_of_the_link_sends_probes() {
    assert_eq!(probe_bytes(), b"MBUS-L2-PROBE");
    let mut a = L2Bridge::new(CFG, B, A, true);
    let (message, frame) = a.start().unwrap();
    assert_eq!(message, b"MBUS-L2-PROBE");
    assert_eq!(frame, build_frag(&B, &A, 0xCAFE, 0, 8, 1, 0, true, b"MBUS-L2-PROBE"));
    for turn in 1..=4096u32 {
        match a.tick() {
            Some(frame) => {
                assert_eq!(turn, 4096);
                assert_eq!(frame, build_frag(&B, &A, 0xCAFE, 0, 8, 2, 0, true, b"MBUS-L2-PROBE"));
            }
            None => assert_ne!(turn, 4096),
        }
    }
    assert_eq!(a.msg_id, 3);
    let (mut quiet, _) = pair();
    assert!(quiet.start().is_none());
    assert!(quiet.tick().is_none());
    assert_eq!(quiet.ticks, 0);
}

#[test]
fn a_changed_fragment_length_can_go_unnoticed() {
    // Header and payload have the checksum that the header alone has with the length 0.
    let mut frame = build_frag(&B, &A, 0xCAFE, 0, 8, 1, 0, true, &[0x3A, 0xF2]);
    frame[22] = 0;
    assert_eq!(fragment(parse_frame(&frame, 0xCAFE)), (0, 3, 8, 1, 0, Vec::new()));
}
