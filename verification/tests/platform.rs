//! Addresses, endpoints, and what is handed to the operating system.
use aarnn_nsys::bytes::{put_u16, read_le, write_le};
use aarnn_nsys::mac::{gen_local_mac, mac_to_string, parse_ethertype, parse_mac};
use aarnn_nsys::platform::{
    bind_address, htons, index_request, nonblocking_flags, parse_endpoint, poll_events, poll_ready,
    raw_mode, EndpointSpec, TermBits, TermModes, POLLIN, POLLOUT,
};
use aarnn_nsys::pow2::{is_pow2, slot_index};
use aarnn_nsys::text::{chars_of, parse_number, push_decimal, push_hex_byte};

#[test]
fn addresses_are_read() {
    assert_eq!(parse_mac("02:00:00:00:00:02"), Some([2, 0, 0, 0, 0, 2]));
    assert_eq!(parse_mac("aA:Ff:0:1:+9:000007"), Some([0xAA, 0xFF, 0, 1, 9, 7]));
    for bad in [
        "",
        ":::::",
        "02:00:00:00:00",
        "02:00:00:00:00:02:03",
        "02:00:00:00:00:100",
        "02:00:00:00:00:-1",
        "02:00:00:00:00:+",
        "02:00:00:00:00:0g",
        "02-00-00-00-00-02",
        " 02:00:00:00:00:02",
    ] {
        assert_eq!(parse_mac(bad), None);
    }
}

#[test]
fn addresses_are_written() {
    assert_eq!(mac_to_string(&[2, 0, 0x0A, 0xBC, 0xFF, 0x10]), "02:00:0a:bc:ff:10");
}

#[test]
fn an_address_reads_back() {
    for mac in [[0u8; 6], [0xFF; 6], [2, 0x1F, 0xA0, 9, 0x10, 0xEE]] {
        assert_eq!(parse_mac(&mac_to_string(&mac)), Some(mac));
    }
}

#[test]
fn a_made_up_address_is_local() {
    assert_eq!(
        gen_local_mac(0xFFEE_DDCC_BBAA_9988),
        [0x02, 0x88, 0x99, 0xAA, 0xBB, 0xCC]
    );
}

#[test]
fn protocols_are_read() {
    assert_eq!(parse_ethertype("0xCAFE"), Some(0xCAFE));
    assert_eq!(parse_ethertype("0Xcafe"), Some(0xCAFE));
    assert_eq!(parse_ethertype("2048"), Some(2048));
    assert_eq!(parse_ethertype("+65535"), Some(65535));
    for bad in ["", "0x", "0x10000", "65536", "CAFE", "-1", "x0", "0x-1", " 1"] {
        assert_eq!(parse_ethertype(bad), None);
    }
}

#[test]
fn numbers_are_read_and_written() {
    assert_eq!(parse_number(&chars_of("4294967295"), 10, u32::MAX), Some(u32::MAX));
    assert_eq!(parse_number(&chars_of("4294967296"), 10, u32::MAX), None);
    assert_eq!(parse_number(&chars_of("ff"), 16, 254), None);
    let mut s = String::from("n=");
    push_decimal(&mut s, 0);
    push_decimal(&mut s, 4294967295);
    push_hex_byte(&mut s, 0x0F);
    assert_eq!(s, "n=042949672950f");
}

#[test]
fn endpoints_are_read() {
    assert!(matches!(
        parse_endpoint("pty:/dev/pts/7"),
        Some(EndpointSpec::Pty { path }) if path == "/dev/pts/7"
    ));
    assert!(matches!(
        parse_endpoint("pipe:/tmp/usbsimA"),
        Some(EndpointSpec::Pipe { read, write })
            if read == "/tmp/usbsimA.out" && write == "/tmp/usbsimA.in"
    ));
    assert!(matches!(parse_endpoint("pty:"), Some(EndpointSpec::Pty { path }) if path.is_empty()));
    for bad in ["", "pt", "tty:/dev/tty", "PTY:/dev/pts/7", "/dev/pts/7"] {
        assert!(parse_endpoint(bad).is_none());
    }
}

#[test]
fn a_raw_terminal_keeps_the_other_modes() {
    let bits = TermBits {
        icrnl: 1,
        ixon: 2,
        brkint: 4,
        inpck: 8,
        istrip: 16,
        opost: 1,
        cs8: 0x30,
        echo: 1,
        icanon: 2,
        iexten: 4,
        isig: 8,
    };
    let m = TermModes { input: 0xFF, output: 0xFF, control: 1, local: 0xFF, min: 9, time: 9 };
    assert_eq!(
        raw_mode(m, bits),
        TermModes { input: 0xE0, output: 0xFE, control: 0x31, local: 0xF0, min: 1, time: 0 }
    );
}

#[test]
fn flags_that_could_not_be_read_are_not_set() {
    assert_eq!(nonblocking_flags(2, 0o4000), Some(0o4002));
    assert_eq!(nonblocking_flags(0o4002, 0o4000), Some(0o4002));
    assert_eq!(nonblocking_flags(-1, 0o4000), None);
}

#[test]
fn events_are_polled_for() {
    assert_eq!(poll_events(true, false), POLLIN);
    assert_eq!(poll_events(false, true), POLLOUT);
    assert_eq!(poll_events(true, true), 5);
    assert_eq!(poll_events(false, false), 0);
    assert_eq!(poll_ready(0x0001), (true, false));
    assert_eq!(poll_ready(0x0014), (false, true));
    assert_eq!(poll_ready(0x0008), (false, false));
}

#[test]
fn a_packet_socket_takes_network_byte_order() {
    assert_eq!(htons(0xCAFE).to_ne_bytes(), [0xCA, 0xFE]);
    let a = bind_address(htons(0xCAFE), 3);
    assert_eq!(a.sll_protocol.to_ne_bytes(), [0xCA, 0xFE]);
    assert_eq!((a.sll_family, a.sll_ifindex, a.sll_hatype), (17, 3, 1));
    assert_eq!((a.sll_pkttype, a.sll_halen, a.sll_addr), (0, 6, [0; 8]));
}

#[test]
fn the_name_of_an_interface_has_at_most_15_bytes() {
    let q = index_request(b"vethA").unwrap();
    assert_eq!(&q.ifr_name, b"vethA\0\0\0\0\0\0\0\0\0\0\0");
    assert_eq!(q.ifr_ifindex, 0);
    assert!(index_request(b"123456789012345").is_some());
    assert!(index_request(b"1234567890123456").is_none());
}

#[test]
fn powers_of_two_are_told() {
    for x in 0..70usize {
        assert_eq!(is_pow2(x), [1, 2, 4, 8, 16, 32, 64].contains(&x));
    }
    assert!(is_pow2(1 << 31));
    assert!(!is_pow2(usize::MAX));
}

#[test]
fn sequence_numbers_go_round_the_ring() {
    assert_eq!(slot_index(5, 8), 5);
    assert_eq!(slot_index(8, 8), 0);
    assert_eq!(slot_index(u64::MAX, 8), 7);
    assert_eq!(slot_index(123, 1), 0);
}

#[test]
fn numbers_lie_low_byte_first() {
    let mut mem = [0u8; 10];
    write_le(&mut mem, 1, 8, 0x0807_0605_0403_0201);
    assert_eq!(mem, [0, 1, 2, 3, 4, 5, 6, 7, 8, 0]);
    assert_eq!(read_le(&mem, 1, 8), 0x0807_0605_0403_0201);
    assert_eq!(read_le(&mem, 2, 2), 0x0302);
    write_le(&mut mem, 0, 2, 0x1_FFFE);
    assert_eq!(&mem[..3], &[0xFE, 0xFF, 2]);
    let mut v = vec![9u8];
    put_u16(&mut v, 0xABCD);
    assert_eq!(v, vec![9, 0xCD, 0xAB]);
}
