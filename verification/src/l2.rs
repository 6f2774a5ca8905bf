//! Frames on an Ethernet link.
//!
//! An Ethernet header (destination, source, EtherType in network byte order) is followed by a
//! header of twelve bytes and a fragment of a message. The header holds the version, the channel,
//! flags, the hop limit, and, little-endian, the number of the message, the number of the fragment
//! in it, the length of the fragment, and a checksum over the first ten bytes of the header and
//! the fragment.

use crate::bytes;
use crate::crc;
use vstd::prelude::*;

verus! {

pub const VER: u8 = 1;

/// The frame carries bytes of a message.
pub const FLAG_FRAG: u8 = 1;

/// The frame is the last of its message.
pub const FLAG_LAST: u8 = 2;

pub const ETH_HEADER: usize = 14;

pub const L2_HEADER: usize = 12;

/// The least payload of an Ethernet frame.
pub const ETH_MIN_PAYLOAD: usize = 46;

/// The most bytes of a message that one frame carries: what an Ethernet MTU of 1500 leaves.
pub const MTU_PAYLOAD: usize = 1474;

/// The first ten bytes of a header.
pub open spec fn header(
    chan: u8,
    flags: u8,
    ttl: u8,
    msg_id: u16,
    frag_idx: u16,
    len: nat,
) -> Seq<u8> {
    seq![VER, chan, flags, ttl] + bytes::le_bytes(msg_id as nat, 2) + bytes::le_bytes(
        frag_idx as nat,
        2,
    ) + bytes::le_bytes(len, 2)
}

pub open spec fn checksum(hdr: Seq<u8>, payload: Seq<u8>) -> u16 {
    crc::crc16(0xFFFF, hdr + payload)
}

/// What a frame carries for `payload`: an empty acknowledgement is padded with zeros, so that the
/// frame has the least length of an Ethernet frame.
pub open spec fn carried(chan: u8, last: bool, payload: Seq<u8>) -> Seq<u8> {
    if chan == 1 && last && payload.len() == 0 {
        Seq::new((ETH_MIN_PAYLOAD - L2_HEADER) as nat, |i: int| 0u8)
    } else {
        payload
    }
}

pub open spec fn flags_for(last: bool, payload: Seq<u8>) -> u8 {
    if payload.len() > 0 {
        if last {
            3
        } else {
            1
        }
    } else if last {
        2
    } else {
        0
    }
}

/// The Ethernet header.
pub open spec fn eth_header(dst: Seq<u8>, src: Seq<u8>, ethertype: u16) -> Seq<u8> {
    dst + src + seq![(ethertype / 256) as u8, (ethertype % 256) as u8]
}

/// A whole frame.
pub open spec fn frame(
    eth: Seq<u8>,
    chan: u8,
    ttl: u8,
    msg_id: u16,
    frag_idx: u16,
    last: bool,
    payload: Seq<u8>,
) -> Seq<u8> {
    let data = carried(chan, last, payload);
    let hdr = header(chan, flags_for(last, data), ttl, msg_id, frag_idx, data.len());
    eth + hdr + bytes::le_bytes(checksum(hdr, data) as nat, 2) + data
}

/// The bytes of a frame that carries a fragment of a message.
pub fn build_frag(
    dst_mac: &[u8; 6],
    src_mac: &[u8; 6],
    ethertype: u16,
    chan: u8,
    ttl: u8,
    msg_id: u16,
    frag_idx: u16,
    last: bool,
    payload: &[u8],
) -> (out: Vec<u8>)
    ensures
        out@ == frame(
            eth_header(dst_mac@, src_mac@, ethertype),
            chan,
            ttl,
            msg_id,
            frag_idx,
            last,
            payload@,
        ),
{
    let padding: usize = ETH_MIN_PAYLOAD - L2_HEADER;
    let data: Vec<u8> = if chan == 1 && last && payload.is_empty() {
        vec![0u8; padding]
    } else {
        vstd::slice::slice_to_vec(payload)
    };
    assert(data@ =~= carried(chan, last, payload@));
    let frag: u8 = if data.is_empty() {
        0
    } else {
        FLAG_FRAG
    };
    let flags: u8 = if last {
        frag + FLAG_LAST
    } else {
        frag
    };
    let len: usize = data.len();
    let mut hdr: Vec<u8> = Vec::new();
    hdr.push(VER);
    hdr.push(chan);
    hdr.push(flags);
    hdr.push(ttl);
    bytes::put_u16(&mut hdr, msg_id);
    bytes::put_u16(&mut hdr, frag_idx);
    hdr.push((len % 256) as u8);
    hdr.push((len / 256 % 256) as u8);
    proof {
        reveal_with_fuel(bytes::le_bytes, 3);
        assert(hdr@ =~= header(chan, flags, ttl, msg_id, frag_idx, data@.len()));
        crc::law_crc_of_parts(0xFFFF, hdr@, data@);
    }
    let crc_hdr: u16 = crc::crc16_ccitt(0xFFFF, hdr.as_slice());
    let crc: u16 = crc::crc16_ccitt(crc_hdr, data.as_slice());
    let mut out: Vec<u8> = Vec::new();
    out.extend_from_slice(dst_mac.as_slice());
    out.extend_from_slice(src_mac.as_slice());
    out.push((ethertype / 256) as u8);
    out.push((ethertype % 256) as u8);
    assert(out@ =~= eth_header(dst_mac@, src_mac@, ethertype));
    out.extend_from_slice(hdr.as_slice());
    bytes::put_u16(&mut out, crc);
    out.extend_from_slice(data.as_slice());
    out
}

/// What was found in a frame.
#[verifier::ext_equal]
pub enum FrameView {
    /// Too short for the headers, or for the fragment that it announces.
    Short,
    /// Of another protocol.
    WrongEthertype,
    /// Of another version.
    WrongVersion,
    /// The checksum does not match.
    BadCrc,
    Fragment { chan: u8, flags: u8, ttl: u8, msg_id: u16, frag_idx: u16, payload: Seq<u8> },
}

/// What the bytes `s` are as a frame of the protocol `ethertype`.
pub open spec fn parse(s: Seq<u8>, ethertype: u16) -> FrameView {
    if s.len() < ETH_HEADER + L2_HEADER {
        FrameView::Short
    } else if s[12] * 256 + s[13] != ethertype {
        FrameView::WrongEthertype
    } else if s[14] != VER {
        FrameView::WrongVersion
    } else {
        let len = bytes::le_at(s, 22, 2);
        if s.len() < ETH_HEADER + L2_HEADER + len {
            FrameView::Short
        } else {
            let payload = s.subrange(26, 26 + len as int);
            if checksum(s.subrange(14, 24), payload) != bytes::le_at(s, 24, 2) {
                FrameView::BadCrc
            } else {
                FrameView::Fragment {
                    chan: s[15],
                    flags: s[16],
                    ttl: s[17],
                    msg_id: bytes::le_at(s, 18, 2) as u16,
                    frag_idx: bytes::le_at(s, 20, 2) as u16,
                    payload,
                }
            }
        }
    }
}

/// What was found in a frame.
pub enum Frame {
    Short,
    WrongEthertype,
    WrongVersion,
    BadCrc,
    Fragment { chan: u8, flags: u8, ttl: u8, msg_id: u16, frag_idx: u16, payload: Vec<u8> },
}

impl Frame {
    pub open spec fn view(&self) -> FrameView {
        match *self {
            Frame::Short => FrameView::Short,
            Frame::WrongEthertype => FrameView::WrongEthertype,
            Frame::WrongVersion => FrameView::WrongVersion,
            Frame::BadCrc => FrameView::BadCrc,
            Frame::Fragment { chan, flags, ttl, msg_id, frag_idx, payload } => FrameView::Fragment {
                chan,
                flags,
                ttl,
                msg_id,
                frag_idx,
                payload: payload@,
            },
        }
    }
}

/// Reads a frame of the protocol `ethertype`.
pub fn parse_frame(rx: &[u8], ethertype: u16) -> (f: Frame)
    ensures
        f.view() == parse(rx@, ethertype),
{
    let n: usize = rx.len();
    if n < ETH_HEADER + L2_HEADER {
        return Frame::Short;
    }
    if rx[12] as u32 * 256 + rx[13] as u32 != ethertype as u32 {
        return Frame::WrongEthertype;
    }
    if rx[14] != VER {
        return Frame::WrongVersion;
    }
    proof {
        bytes::lemma_pow256_values();
        bytes::lemma_le_value_bound(rx@.subrange(18, 20));
        bytes::lemma_le_value_bound(rx@.subrange(20, 22));
        bytes::lemma_le_value_bound(rx@.subrange(22, 24));
    }
    let len: usize = bytes::read_le(rx, 22, 2) as usize;
    if n - (ETH_HEADER + L2_HEADER) < len {
        return Frame::Short;
    }
    let hdr = vstd::slice::slice_subrange(rx, 14, 24);
    let payload = vstd::slice::slice_subrange(rx, 26, 26 + len);
    let crc_rx: u64 = bytes::read_le(rx, 24, 2);
    proof {
        crc::law_crc_of_parts(0xFFFF, hdr@, payload@);
    }
    let crc_hdr: u16 = crc::crc16_ccitt(0xFFFF, hdr);
    let crc: u16 = crc::crc16_ccitt(crc_hdr, payload);
    if crc as u64 != crc_rx {
        return Frame::BadCrc;
    }
    Frame::Fragment {
        chan: rx[15],
        flags: rx[16],
        ttl: rx[17],
        msg_id: bytes::read_le(rx, 18, 2) as u16,
        frag_idx: bytes::read_le(rx, 20, 2) as u16,
        payload: vstd::slice::slice_to_vec(payload),
    }
}

/// A frame is found to be what it was built as, whatever the link has put behind it.
pub proof fn law_frame_reads_back(
    dst: Seq<u8>,
    src: Seq<u8>,
    ethertype: u16,
    chan: u8,
    ttl: u8,
    msg_id: u16,
    frag_idx: u16,
    last: bool,
    payload: Seq<u8>,
    padding: Seq<u8>,
)
    requires
        dst.len() == 6,
        src.len() == 6,
        payload.len() < 0x1_0000,
    ensures
        ({
            let data = carried(chan, last, payload);
            let s = frame(
                eth_header(dst, src, ethertype),
                chan,
                ttl,
                msg_id,
                frag_idx,
                last,
                payload,
            );
            &&& s.len() == ETH_HEADER + L2_HEADER + data.len()
            &&& parse(s + padding, ethertype) == (FrameView::Fragment {
                chan,
                flags: flags_for(last, data),
                ttl,
                msg_id,
                frag_idx,
                payload: data,
            })
        }),
{
    let data = carried(chan, last, payload);
    let eth = eth_header(dst, src, ethertype);
    let hdr = header(chan, flags_for(last, data), ttl, msg_id, frag_idx, data.len());
    let crc = checksum(hdr, data);
    let sum = bytes::le_bytes(crc as nat, 2);
    let s = frame(eth, chan, ttl, msg_id, frag_idx, last, payload) + padding;
    bytes::lemma_pow256_values();
    bytes::lemma_le_bytes_len(msg_id as nat, 2);
    bytes::lemma_le_bytes_len(frag_idx as nat, 2);
    bytes::lemma_le_bytes_len(data.len(), 2);
    bytes::lemma_le_bytes_len(crc as nat, 2);
    bytes::lemma_le_value_of_bytes(msg_id as nat, 2);
    bytes::lemma_le_value_of_bytes(frag_idx as nat, 2);
    bytes::lemma_le_value_of_bytes(data.len(), 2);
    bytes::lemma_le_value_of_bytes(crc as nat, 2);
    assert(s =~= eth + hdr + sum + data + padding);
    assert(s.subrange(14, 24) =~= hdr);
    assert(s.subrange(18, 20) =~= bytes::le_bytes(msg_id as nat, 2));
    assert(s.subrange(20, 22) =~= bytes::le_bytes(frag_idx as nat, 2));
    assert(s.subrange(22, 24) =~= bytes::le_bytes(data.len(), 2));
    assert(s.subrange(24, 26) =~= sum);
    assert(s.subrange(26, 26 + data.len() as int) =~= data);
    assert(s[14] == VER);
    assert(s[12] == (ethertype / 256) as u8);
    assert(s[13] == (ethertype % 256) as u8);
}

/// A frame of which one byte behind the Ethernet header was changed on the way, other than the
/// length, is not taken for a fragment.
pub proof fn law_changed_frame_is_detected(
    dst: Seq<u8>,
    src: Seq<u8>,
    ethertype: u16,
    chan: u8,
    ttl: u8,
    msg_id: u16,
    frag_idx: u16,
    last: bool,
    payload: Seq<u8>,
    i: int,
    b: u8,
)
    requires
        dst.len() == 6,
        src.len() == 6,
        payload.len() < 0x1_0000,
        ETH_HEADER <= i < ETH_HEADER + L2_HEADER + carried(chan, last, payload).len(),
        i != 22,
        i != 23,
        frame(
            eth_header(dst, src, ethertype),
            chan,
            ttl,
            msg_id,
            frag_idx,
            last,
            payload,
        )[i] != b,
    ensures
        parse(
            frame(
                eth_header(dst, src, ethertype),
                chan,
                ttl,
                msg_id,
                frag_idx,
                last,
                payload,
            ).update(i, b),
            ethertype,
        ) == if i == ETH_HEADER {
            FrameView::WrongVersion
        } else {
            FrameView::BadCrc
        },
{
    let data = carried(chan, last, payload);
    let n = data.len() as int;
    let eth = eth_header(dst, src, ethertype);
    let hdr = header(chan, flags_for(last, data), ttl, msg_id, frag_idx, data.len());
    let crc = checksum(hdr, data);
    let sum = bytes::le_bytes(crc as nat, 2);
    let whole = frame(eth, chan, ttl, msg_id, frag_idx, last, payload);
    let s = whole.update(i, b);
    bytes::lemma_pow256_values();
    bytes::lemma_le_bytes_len(msg_id as nat, 2);
    bytes::lemma_le_bytes_len(frag_idx as nat, 2);
    bytes::lemma_le_bytes_len(data.len(), 2);
    bytes::lemma_le_bytes_len(crc as nat, 2);
    bytes::lemma_le_value_of_bytes(data.len(), 2);
    bytes::lemma_le_value_of_bytes(crc as nat, 2);
    assert(whole =~= eth + hdr + sum + data);
    assert(whole.subrange(14, 24) =~= hdr);
    assert(whole.subrange(24, 26) =~= sum);
    assert(whole.subrange(26, 26 + n) =~= data);
    assert(whole.subrange(22, 24) =~= bytes::le_bytes(data.len(), 2));
    assert(s.subrange(22, 24) =~= whole.subrange(22, 24));
    assert(s[12] == (ethertype / 256) as u8);
    assert(s[13] == (ethertype % 256) as u8);
    assert(whole[14] == VER);
    let hdr2 = s.subrange(14, 24);
    let data2 = s.subrange(26, 26 + n);
    let sum2 = s.subrange(24, 26);
    if i == 24 || i == 25 {
        assert(hdr2 =~= hdr);
        assert(data2 =~= data);
        assert(sum2 =~= sum.update(i - 24, b));
        bytes::lemma_le_value_apart(sum, sum2);
    } else {
        let k = if i < 24 {
            i - 14
        } else {
            i - 16
        };
        assert(hdr2 + data2 =~= (hdr + data).update(k, b));
        assert((hdr + data)[k] == whole[i]);
        crc::law_changed_byte_is_detected(0xFFFF, hdr + data, k, b);
        assert(sum2 =~= sum);
    }
}

/// An empty acknowledgement makes a frame of 60 bytes, the least that Ethernet carries.
pub proof fn law_empty_ack_has_least_length(eth: Seq<u8>, ttl: u8, msg_id: u16)
    requires
        eth.len() == ETH_HEADER,
    ensures
        frame(eth, 1, ttl, msg_id, 0, true, seq![]).len() == ETH_HEADER + ETH_MIN_PAYLOAD,
{
    let data = carried(1, true, seq![]);
    bytes::lemma_le_bytes_len(msg_id as nat, 2);
    bytes::lemma_le_bytes_len(0, 2);
    bytes::lemma_le_bytes_len(data.len(), 2);
    let hdr = header(1, flags_for(true, data), ttl, msg_id, 0, data.len());
    bytes::lemma_le_bytes_len(checksum(hdr, data) as nat, 2);
}

/// The bytes of a built frame, one by one: destination and source, the EtherType with its high byte
/// first, the header with its numbers low byte first, and what is carried: the payload, or 34 zero
/// bytes for an empty acknowledgement. The checksum is that of the ten bytes of the header before it
/// and of what is carried, with a register that begins at `0xFFFF`.
pub proof fn law_built_bytes(
    dst_mac: &[u8; 6],
    src_mac: &[u8; 6],
    ethertype: u16,
    chan: u8,
    ttl: u8,
    msg_id: u16,
    frag_idx: u16,
    last: bool,
    payload: &[u8],
    out: Vec<u8>,
    covered: &[u8],
    sum: u16,
)
    requires
        call_ensures(
            build_frag,
            (dst_mac, src_mac, ethertype, chan, ttl, msg_id, frag_idx, last, payload),
            out,
        ),
        covered@ == out@.subrange(14, 24) + out@.skip(26),
        call_ensures(crc::crc16_ccitt, (0xFFFFu16, covered), sum),
    ensures
        ({
            let padded = chan == 1 && last && payload@.len() == 0;
            let n = if padded {
                34
            } else {
                payload@.len() as int
            };
            &&& out@.len() == 26 + n
            &&& forall|i: int| 0 <= i < 6 ==> out@[i] == #[trigger] dst_mac@[i]
            &&& forall|i: int| 0 <= i < 6 ==> out@[6 + i] == #[trigger] src_mac@[i]
            &&& out@[12] == ethertype / 256
            &&& out@[13] == ethertype % 256
            &&& out@[14] == 1
            &&& out@[15] == chan
            &&& out@[16] == (if n > 0 {
                1int
            } else {
                0
            }) + (if last {
                2int
            } else {
                0
            })
            &&& out@[17] == ttl
            &&& out@[18] == msg_id % 256
            &&& out@[19] == msg_id / 256
            &&& out@[20] == frag_idx % 256
            &&& out@[21] == frag_idx / 256
            &&& out@[22] == n % 256
            &&& out@[23] == n / 256 % 256
            &&& out@[24] == sum % 256
            &&& out@[25] == sum / 256
            &&& if padded {
                forall|i: int| 26 <= i < 60 ==> #[trigger] out@[i] == 0
            } else {
                out@.skip(26) == payload@
            }
        }),
{
    let data = carried(chan, last, payload@);
    let hdr = header(chan, flags_for(last, data), ttl, msg_id, frag_idx, data.len());
    let eth = eth_header(dst_mac@, src_mac@, ethertype);
    reveal_with_fuel(bytes::le_bytes, 3);
    assert(hdr.len() == 10);
    assert(eth.len() == 14);
    assert(out@.subrange(14, 24) =~= hdr);
    assert(out@.skip(26) =~= data);
    assert forall|i: int| 0 <= i < 6 implies out@[i] == #[trigger] dst_mac@[i] by {
        assert(out@[i] == eth[i]);
    }
    assert forall|i: int| 0 <= i < 6 implies out@[6 + i] == #[trigger] src_mac@[i] by {
        assert(out@[6 + i] == eth[6 + i]);
    }
    assert(out@[12] == eth[12] && out@[13] == eth[13]);
    assert forall|i: int| 14 <= i < 24 implies #[trigger] out@[i] == hdr[i - 14] by {}
    if chan == 1 && last && payload@.len() == 0 {
        assert forall|i: int| 26 <= i < 60 implies #[trigger] out@[i] == 0 by {
            assert(out@[i] == out@.skip(26)[i - 26]);
        }
    }
}

/// What is found in received bytes, byte by byte: they must have 26 bytes at least, the EtherType,
/// the version 1, as many bytes as the fragment is said to have, and the checksum of header and
/// fragment, and are looked at in this order.
pub proof fn law_found_in_bytes(rx: &[u8], ethertype: u16, f: Frame, covered: &[u8], sum: u16)
    requires
        call_ensures(parse_frame, (rx, ethertype), f),
        rx@.len() >= 26 && rx@.len() >= 26 + rx@[22] + 256 * rx@[23] ==> covered@ == rx@.subrange(
            14,
            24,
        ) + rx@.subrange(26, 26 + rx@[22] + 256 * rx@[23]),
        call_ensures(crc::crc16_ccitt, (0xFFFFu16, covered), sum),
    ensures
        rx@.len() < 26 ==> f is Short,
        rx@.len() >= 26 ==> {
            let n = rx@[22] + 256 * rx@[23];
            if 256 * rx@[12] + rx@[13] != ethertype {
                f is WrongEthertype
            } else if rx@[14] != 1 {
                f is WrongVersion
            } else if rx@.len() < 26 + n {
                f is Short
            } else if rx@[24] + 256 * rx@[25] != sum {
                f is BadCrc
            } else {
                &&& f matches Frame::Fragment { chan, flags, ttl, msg_id, frag_idx, payload }
                &&& chan == rx@[15]
                &&& flags == rx@[16]
                &&& ttl == rx@[17]
                &&& msg_id == rx@[18] + 256 * rx@[19]
                &&& frag_idx == rx@[20] + 256 * rx@[21]
                &&& payload@ == rx@.subrange(26, 26 + n)
            }
        },
{
    if rx@.len() >= 26 {
        bytes::lemma_le_bytes_listed(rx@, 18, 2);
        bytes::lemma_le_bytes_listed(rx@, 20, 2);
        bytes::lemma_le_bytes_listed(rx@, 22, 2);
        bytes::lemma_le_bytes_listed(rx@, 24, 2);
    }
}

/// A built frame is found to carry what it was built of, whatever the link has put behind it.
pub proof fn law_built_frame_is_found(
    dst_mac: &[u8; 6],
    src_mac: &[u8; 6],
    ethertype: u16,
    chan: u8,
    ttl: u8,
    msg_id: u16,
    frag_idx: u16,
    last: bool,
    payload: &[u8],
    out: Vec<u8>,
    rx: &[u8],
    f: Frame,
)
    requires
        call_ensures(
            build_frag,
            (dst_mac, src_mac, ethertype, chan, ttl, msg_id, frag_idx, last, payload),
            out,
        ),
        payload@.len() < 0x1_0000,
        out@.is_prefix_of(rx@),
        call_ensures(parse_frame, (rx, ethertype), f),
    ensures
        f matches Frame::Fragment { chan: c, flags, ttl: t, msg_id: m, frag_idx: i, payload: p }
            && c == chan && t == ttl && m == msg_id && i == frag_idx && (flags == 2 || flags == 3
            <==> last) && (payload@.len() > 0 ==> p@ == payload@),
{
    let rest = rx@.skip(out@.len() as int);
    assert(rx@ =~= out@ + rest);
    law_frame_reads_back(
        dst_mac@,
        src_mac@,
        ethertype,
        chan,
        ttl,
        msg_id,
        frag_idx,
        last,
        payload@,
        rest,
    );
}

} // verus!
