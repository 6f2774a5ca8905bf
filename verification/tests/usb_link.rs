//! The usb-sim link: frames on a byte stream, and the bridge that sends and answers them.
use aarnn_nsys::crc::crc16_ccitt;
use aarnn_nsys::usb_bridge::{
    goes_on_after_read, goes_on_after_write, hop, probe_bytes, slot_share, Fault, Start, UsbBridge,
    ACK_SEQ,
};
use aarnn_nsys::usbsim::{read_frame, write_frame, Cfg, FrameReader, RxErr};

const CFG: Cfg = Cfg { max_frame: 64, ttl: 8 };

fn read(input: &[u8]) -> (Result<(u8, u8, u32, usize), RxErr>, usize, Vec<u8>) {
    let mut work = Vec::new();
    let (r, used) = read_frame(input, CFG, &mut work);
    (r, used, work)
}

#[test]
fn checksums_are_those_of_the_standard() {
    assert_eq!(crc16_ccitt(0xFFFF, b"123456789"), 0x29B1);
    assert_eq!(crc16_ccitt(0, b"123456789"), 0x31C3);
    assert_eq!(crc16_ccitt(0x1234, b""), 0x1234);
}

#[test]
fn a_checksum_can_be_computed_in_parts() {
    let whole = crc16_ccitt(0xFFFF, b"MBUS-PROBE");
    assert_eq!(crc16_ccitt(crc16_ccitt(0xFFFF, b"MBUS-"), b"PROBE"), whole);
}

#[test]
fn a_changed_byte_changes_the_checksum() {
    let data = *b"MBUS-PROBE";
    let sum = crc16_ccitt(0xFFFF, &data);
    for i in 0..data.len() {
        for b in 0..=255u8 {
            let mut other = data;
            other[i] = b;
            assert_eq!(crc16_ccitt(0xFFFF, &other) == sum, b == data[i]);
        }
    }
}

#[test]
fn a_frame_has_these_bytes() {
    assert_eq!(
        write_frame(0, 8, 0x0102_0304, b"hi"),
        vec![
            0xcd, 0xab, 1, 0, 8, 0, 2, 0, 0x04, 0x03, 0x02, 0x01, 0x68, 0x69, 0x46, 0x0f
        ]
    );
}

#[test]
fn a_frame_reads_back() {
    let mut stream = write_frame(3, 7, 0xDEAD_BEEF, b"payload");
    let len = stream.len();
    stream.extend_from_slice(b"more");
    assert_eq!(read(&stream), (Ok((3, 7, 0xDEAD_BEEF, 7)), len, b"payload".to_vec()));
    let empty = write_frame(0, 0, 0, b"");
    assert_eq!(read(&empty), (Ok((0, 0, 0, 0)), 14, Vec::new()));
}

#[test]
fn noise_before_a_frame_is_skipped() {
    let frame = write_frame(0, 1, 2, b"x");
    let mut stream = vec![0u8, 0xAB, 0x77, 0xCD, 0x00];
    stream.extend_from_slice(&frame);
    assert_eq!(read(&stream), (Ok((0, 1, 2, 1)), stream.len(), b"x".to_vec()));
}

#[test]
fn a_stray_first_byte_of_the_magic_number_is_skipped() {
    let stream = [
        0xCD, 0xCD, 0xAB, 0x01, 0x01, 0x07, 0x00, 0x01, 0x00, 0x01, 0x02, 0x03, 0x04, 0x41, 0x81,
        0xE0,
    ];
    assert_eq!(read(&stream), (Ok((1, 7, 0x0403_0201, 1)), 16, vec![0x41]));
    let mut stream = vec![0xCD, 0xCD, 0x00, 0xCD, 0xCD];
    stream.extend_from_slice(&write_frame(0, 1, 2, b"x"));
    assert_eq!(read(&stream), (Ok((0, 1, 2, 1)), stream.len(), b"x".to_vec()));
}

#[test]
fn a_frame_of_another_version_is_refused() {
    for version in [0u8, 2, 255] {
        let hdr = [version, 0, 8, 0, 1, 0, 5, 0, 0, 0];
        let sum = crc16_ccitt(crc16_ccitt(0xFFFF, &hdr), b"x").to_le_bytes();
        let mut frame = vec![0xCD, 0xAB];
        frame.extend_from_slice(&hdr);
        frame.push(b'x');
        frame.extend_from_slice(&sum);
        assert_eq!(read(&frame), (Err(RxErr::BadVersion), 15, b"x".to_vec()));
        frame[2] = 1;
        assert_eq!(read(&frame), (Err(RxErr::BadCrc), 15, b"x".to_vec()));
    }
}

#[test]
fn every_changed_byte_of_a_frame_is_noticed() {
    let frame = write_frame(0, 8, 1, b"hello");
    for i in 0..frame.len() {
        for flip in 1..=255u8 {
            let mut bad = frame.clone();
            bad[i] ^= flip;
            let (r, used, _) = read(&bad);
            assert!(r.is_err());
            if ![0, 1, 6, 7].contains(&i) {
                assert_eq!((r, used), (Err(RxErr::BadCrc), frame.len()));
            }
        }
    }
}

#[test]
fn a_damaged_frame_does_not_let_its_payload_pass_for_a_frame() {
    let inner = write_frame(0, 8, 1, b"inner");
    let mut stream = write_frame(0, 8, 2, &inner);
    stream[2] = 2;
    let (r, used, _) = read(&stream);
    assert_eq!((r, used), (Err(RxErr::BadCrc), stream.len()));
}

#[test]
fn a_frame_that_is_too_long_is_refused() {
    let frame = write_frame(0, 8, 1, &[7; 65]);
    let (r, used, work) = read(&frame);
    assert_eq!((r, used), (Err(RxErr::LenTooBig), 12));
    assert!(work.is_empty());
    assert!(read(&write_frame(0, 8, 1, &[7; 64])).0.is_ok());
}

#[test]
fn a_frame_with_a_wrong_checksum_is_refused() {
    let mut frame = write_frame(0, 8, 1, b"hello");
    let last = frame.len() - 1;
    frame[last] ^= 1;
    assert_eq!(read(&frame), (Err(RxErr::BadCrc), frame.len(), b"hello".to_vec()));
}

#[test]
fn a_stream_that_ends_early_gives_no_frame() {
    let frame = write_frame(0, 8, 1, b"hello");
    for n in 0..frame.len() {
        assert_eq!(read(&frame[..n]), (Err(RxErr::Io), n, Vec::new()));
    }
}

#[test]
fn a_reader_asks_for_one_part_after_the_other() {
    let frame = write_frame(5, 6, 7, b"abc");
    let mut reader = FrameReader::new(CFG);
    let mut at = 0;
    let mut asked = Vec::new();
    while !reader.is_over() {
        let n = reader.wanted();
        asked.push(n);
        reader.feed(&frame[at..at + n]);
        at += n;
    }
    assert_eq!(asked, vec![1, 1, 10, 3, 2]);
    let mut work = Vec::new();
    assert_eq!(reader.finish(&mut work), Ok((5, 6, 7, 3)));
    assert_eq!(work, b"abc");
}

#[test]
fn a_payload_of_64_kib_states_a_length_of_0() {
    let frame = write_frame(0, 8, 1, &vec![0u8; 65536]);
    assert_eq!((frame[6], frame[7]), (0, 0));
    assert_eq!(frame.len(), 65536 + 14);
}

#[test]
fn the_share_of_a_slot_must_hold_a_frame() {
    assert_eq!(slot_share(16384, 64 << 20, 4096), Ok(4096));
    assert_eq!(slot_share(16384, 64 << 20, 4097), Err(4096));
}

#[test]
fn a_bridge_acknowledges_what_it_receives() {
    let mut bridge = UsbBridge::new(CFG, 64, false);
    let act = bridge.from_link(0, 8, b"MBUS-PROBE");
    assert!(act.publish && !act.pass);
    assert_eq!(
        act.ack.unwrap(),
        vec![
            0xcd, 0xab, 1, 1, 7, 0, 0x0a, 0, 0, 0, 0, 0xb0, 0x4d, 0x42, 0x55, 0x53, 0x2d, 0x50,
            0x52, 0x4f, 0x42, 0x45, 0xe9, 0xac
        ]
    );
    assert_eq!(ACK_SEQ, 0xB000_0000);
}

#[test]
fn a_message_that_fits_no_slot_is_acknowledged_but_not_published() {
    let mut bridge = UsbBridge::new(CFG, 4, false);
    let act = bridge.from_link(0, 0, b"12345");
    assert!(!act.publish);
    assert_eq!(act.ack, Some(write_frame(1, 0, ACK_SEQ, b"12345")));
}

#[test]
fn a_self_test_passes_once_with_the_first_acknowledgement() {
    let mut bridge = UsbBridge::new(CFG, 64, true);
    let act = bridge.from_link(1, 8, b"MBUS-PROBE");
    assert!(act.pass && act.ack.is_none() && !act.publish);
    assert!(!bridge.from_link(1, 8, b"MBUS-PROBE").pass);
    assert!(!UsbBridge::new(CFG, 64, false).from_link(1, 8, b"").pass);
    let act = UsbBridge::new(CFG, 64, true).from_link(2, 8, b"");
    assert!(!act.pass && act.ack.is_none() && !act.publish);
}

#[test]
fn a_self_test_starts_with_a_probe() {
    assert_eq!(probe_bytes(), b"MBUS-PROBE");
    let mut bridge = UsbBridge::new(CFG, 64, true);
    assert!(matches!(bridge.start(true), Start::Publish(m) if m == b"MBUS-PROBE"));
    assert_eq!(bridge.seq, 0);
    assert!(
        matches!(bridge.start(false), Start::Send(f) if f == write_frame(0, 8, 0, b"MBUS-PROBE"))
    );
    assert_eq!(bridge.seq, 1);
    assert!(matches!(UsbBridge::new(CFG, 64, false).start(true), Start::Nothing));
}

#[test]
fn a_self_test_repeats_its_probe_until_it_passes() {
    let mut bridge = UsbBridge::new(CFG, 64, true);
    for turn in 1..=8192u32 {
        let sent = bridge.tick();
        assert_eq!(sent.is_some(), turn % 4096 == 0);
    }
    assert_eq!(bridge.seq, 2);
    bridge.from_link(1, 8, b"");
    for _ in 1..=4096u32 {
        assert!(bridge.tick().is_none());
    }
}

#[test]
fn messages_of_the_bus_are_numbered() {
    let mut bridge = UsbBridge::new(CFG, 64, false);
    assert_eq!(bridge.from_bus(b"a"), write_frame(0, 8, 0, b"a"));
    assert_eq!(bridge.from_bus(b"b"), write_frame(0, 8, 1, b"b"));
    bridge.seq = u32::MAX;
    assert_eq!(bridge.from_bus(b"c"), write_frame(0, 8, u32::MAX, b"c"));
    assert_eq!(bridge.seq, 0);
}

#[test]
fn a_bridge_ends_when_its_peer_has_gone() {
    assert!(goes_on_after_read(RxErr::Io, Fault::WouldBlock));
    assert!(!goes_on_after_read(RxErr::Io, Fault::Closed));
    assert!(!goes_on_after_read(RxErr::Io, Fault::Other));
    assert!(goes_on_after_read(RxErr::LenTooBig, Fault::Other));
    assert!(goes_on_after_read(RxErr::BadCrc, Fault::Other));
    assert!(goes_on_after_read(RxErr::BadVersion, Fault::Other));
    assert!(!goes_on_after_write(Fault::Closed));
    assert!(goes_on_after_write(Fault::WouldBlock));
    assert!(goes_on_after_write(Fault::Other));
}

#[test]
fn hops_do_not_go_below_zero() {
    assert_eq!((hop(8), hop(1), hop(0)), (7, 0, 0));
}

#[test]
fn a_changed_length_can_go_unnoticed() {
    // The payload is the checksum that the header would have with the length 0.
    let mut frame = write_frame(0, 8, 0, &[0xA6, 0x90]);
    frame[6] = 0;
    assert_eq!(read(&frame), (Ok((0, 8, 0, 0)), 14, Vec::new()));
}
