//! Frames on a byte stream: the wire format of the usb-sim link.
//!
//! A frame is the magic number, a header of ten bytes, the payload and a checksum over header and
//! payload. The header holds the version, the channel, the hop limit, a reserved byte, the payload
//! length (two bytes) and the sequence number (four bytes). Numbers are little-endian.

use crate::bytes;
use crate::crc;
use vstd::prelude::*;

verus! {

pub const MAGIC: u16 = 0xABCD;

pub const VER: u8 = 1;

/// How a link is set up.
#[derive(Clone, Copy, Debug)]
pub struct Cfg {
    /// The longest payload that is accepted.
    pub max_frame: usize,
    /// The hop limit of frames that are sent.
    pub ttl: u8,
}

/// The header of a frame with a payload of `len` bytes.
pub open spec fn header(chan: u8, ttl: u8, seq: u32, len: nat) -> Seq<u8> {
    seq![VER, chan, ttl, 0u8] + bytes::le_bytes(len, 2) + bytes::le_bytes(seq as nat, 4)
}

/// The checksum of header and payload.
pub open spec fn checksum(hdr: Seq<u8>, payload: Seq<u8>) -> u16 {
    crc::crc16(0xFFFF, hdr + payload)
}

/// A whole frame.
pub open spec fn frame(chan: u8, ttl: u8, seq: u32, payload: Seq<u8>) -> Seq<u8> {
    let hdr = header(chan, ttl, seq, payload.len());
    bytes::le_bytes(MAGIC as nat, 2) + hdr + payload + bytes::le_bytes(
        checksum(hdr, payload) as nat,
        2,
    )
}

/// The bytes of a frame that carries `payload`.
pub fn write_frame(chan: u8, ttl: u8, seq: u32, payload: &[u8]) -> (out: Vec<u8>)
    ensures
        out@ == frame(chan, ttl, seq, payload@),
{
    let len: usize = payload.len();
    let mut hdr: Vec<u8> = Vec::new();
    hdr.push(VER);
    hdr.push(chan);
    hdr.push(ttl);
    hdr.push(0);
    hdr.push((len % 256) as u8);
    hdr.push((len / 256 % 256) as u8);
    hdr.push((seq % 256) as u8);
    hdr.push((seq / 256 % 256) as u8);
    hdr.push((seq / 65536 % 256) as u8);
    hdr.push((seq / 16777216) as u8);
    proof {
        reveal_with_fuel(bytes::le_bytes, 5);
        assert(hdr@ =~= header(chan, ttl, seq, payload@.len()));
    }
    let crc_hdr: u16 = crc::crc16_ccitt(0xFFFF, hdr.as_slice());
    let crc: u16 = crc::crc16_ccitt(crc_hdr, payload);
    proof {
        crc::law_crc_of_parts(0xFFFF, hdr@, payload@);
    }
    let mut out: Vec<u8> = Vec::new();
    bytes::put_u16(&mut out, MAGIC);
    out.extend_from_slice(hdr.as_slice());
    out.extend_from_slice(payload);
    bytes::put_u16(&mut out, crc);
    assert(out@ =~= frame(chan, ttl, seq, payload@));
    out
}

/// What comes of reading a frame from a stream.
#[verifier::ext_equal]
pub enum Outcome {
    /// The stream ended before the frame did.
    Starved,
    /// The header announces more than is accepted; `used` bytes were read.
    TooBig { used: nat },
    /// The checksum does not match; `used` bytes were read.
    Corrupt { used: nat, payload: Seq<u8> },
    /// The checksum matches, but the frame is of another version; `used` bytes were read.
    WrongVersion { used: nat, payload: Seq<u8> },
    /// A whole frame; `used` bytes were read.
    Whole { used: nat, chan: u8, ttl: u8, seq: u32, payload: Seq<u8> },
}

/// Whether the magic number stands at `i` in `s`.
pub open spec fn magic_at(s: Seq<u8>, i: int) -> bool {
    &&& 0 <= i
    &&& i + 1 < s.len()
    &&& s[i] == MAGIC % 256
    &&& s[i + 1] == MAGIC / 256
}

/// How many bytes of `s` there are up to and with the first magic number.
pub open spec fn sync(s: Seq<u8>) -> Option<nat>
    decreases s.len(),
{
    if s.len() < 2 {
        None
    } else if magic_at(s, 0) {
        Some(2)
    } else {
        match sync(s.skip(1)) {
            Some(n) => Some(n + 1),
            None => None,
        }
    }
}

/// The payload length that a header states.
pub open spec fn stated_len(hdr: Seq<u8>) -> nat {
    bytes::le_at(hdr, 4, 2)
}

/// What follows a header, when `rest` follows it on the stream and `used` bytes were read.
pub open spec fn parse_body(hdr: Seq<u8>, rest: Seq<u8>, max_frame: nat, used: nat) -> Outcome {
    let len = stated_len(hdr);
    if len > max_frame {
        Outcome::TooBig { used }
    } else if rest.len() < len + 2 {
        Outcome::Starved
    } else {
        let payload = rest.take(len as int);
        let used = used + len + 2;
        if checksum(hdr, payload) != bytes::le_at(rest, len as int, 2) {
            Outcome::Corrupt { used, payload }
        } else if hdr[0] != VER {
            Outcome::WrongVersion { used, payload }
        } else {
            Outcome::Whole {
                used,
                chan: hdr[1],
                ttl: hdr[2],
                seq: bytes::le_at(hdr, 6, 4) as u32,
                payload,
            }
        }
    }
}

/// The first frame on the stream `s`.
pub open spec fn parse(s: Seq<u8>, max_frame: nat) -> Outcome {
    match sync(s) {
        None => Outcome::Starved,
        Some(n) => if s.len() < n + 10 {
            Outcome::Starved
        } else {
            parse_body(
                s.subrange(n as int, n as int + 10),
                s.skip(n as int + 10),
                max_frame,
                n + 10,
            )
        },
    }
}

/// Where the reading of a frame stands.
#[derive(Clone, Copy, Debug, PartialEq, Eq)]
pub enum RxPhase {
    /// The first byte of the magic number is looked for.
    Sync,
    /// The first byte of the magic number was read, and the second should come.
    Mark,
    Header,
    Payload,
    Checksum,
    /// A whole frame was read.
    Whole,
    /// The header announced more than is accepted.
    TooBig,
    /// The checksum did not match.
    Corrupt,
    /// The frame is of another version.
    WrongVersion,
}

/// Reads one frame, as many bytes at a time as it asks for.
pub struct FrameReader {
    phase: RxPhase,
    hdr: Vec<u8>,
    payload: Vec<u8>,
    max_frame: usize,
}

/// What a [`FrameReader`] knows.
#[verifier::ext_equal]
pub struct RxState {
    pub phase: RxPhase,
    pub hdr: Seq<u8>,
    pub payload: Seq<u8>,
    pub max_frame: nat,
}

impl RxState {
    /// How many bytes are to be read next; none, if the reading is over.
    pub open spec fn wants(self) -> nat {
        match self.phase {
            RxPhase::Sync => 1,
            RxPhase::Mark => 1,
            RxPhase::Header => 10,
            RxPhase::Payload => stated_len(self.hdr),
            RxPhase::Checksum => 2,
            _ => 0,
        }
    }

    pub open spec fn over(self) -> bool {
        self.phase is Whole || self.phase is WrongVersion || self.phase is TooBig
            || self.phase is Corrupt
    }

    pub open spec fn valid(self) -> bool {
        self.phase !is Sync && self.phase !is Mark && self.phase !is Header ==> self.hdr.len()
            == 10
    }

    /// What is known once the bytes that were asked for have come.
    pub open spec fn fed(self, data: Seq<u8>) -> RxState {
        match self.phase {
            RxPhase::Sync => RxState {
                phase: if data[0] == MAGIC % 256 {
                    RxPhase::Mark
                } else {
                    RxPhase::Sync
                },
                ..self
            },
            RxPhase::Mark => RxState {
                phase: if data[0] == MAGIC / 256 {
                    RxPhase::Header
                } else if data[0] == MAGIC % 256 {
                    RxPhase::Mark
                } else {
                    RxPhase::Sync
                },
                ..self
            },
            RxPhase::Header => RxState {
                hdr: data,
                phase: if stated_len(data) > self.max_frame {
                    RxPhase::TooBig
                } else {
                    RxPhase::Payload
                },
                ..self
            },
            RxPhase::Payload => RxState { payload: data, phase: RxPhase::Checksum, ..self },
            RxPhase::Checksum => RxState {
                phase: if checksum(self.hdr, self.payload) != bytes::le_at(data, 0, 2) {
                    RxPhase::Corrupt
                } else if self.hdr[0] != VER {
                    RxPhase::WrongVersion
                } else {
                    RxPhase::Whole
                },
                ..self
            },
            _ => self,
        }
    }

    /// What comes of reading on from `input`, when `used` bytes were read before.
    pub open spec fn outcome(self, input: Seq<u8>, used: nat) -> Outcome
        decreases
                input.len(),
                (if self.phase is Payload {
                    1int
                } else {
                    0
                }),
    {
        if self.over() {
            match self.phase {
                RxPhase::WrongVersion => Outcome::WrongVersion { used, payload: self.payload },
                RxPhase::TooBig => Outcome::TooBig { used },
                RxPhase::Corrupt => Outcome::Corrupt { used, payload: self.payload },
                _ => Outcome::Whole {
                    used,
                    chan: self.hdr[1],
                    ttl: self.hdr[2],
                    seq: bytes::le_at(self.hdr, 6, 4) as u32,
                    payload: self.payload,
                },
            }
        } else if input.len() < self.wants() {
            Outcome::Starved
        } else {
            let n = self.wants();
            self.fed(input.take(n as int)).outcome(input.skip(n as int), used + n)
        }
    }
}

impl FrameReader {
    pub closed spec fn state(&self) -> RxState {
        RxState {
            phase: self.phase,
            hdr: self.hdr@,
            payload: self.payload@,
            max_frame: self.max_frame as nat,
        }
    }

    /// A reader that looks for the beginning of a frame.
    pub fn new(cfg: Cfg) -> (r: FrameReader)
        ensures
            r.state() == (RxState {
                phase: RxPhase::Sync,
                hdr: seq![],
                payload: seq![],
                max_frame: cfg.max_frame as nat,
            }),
            r.state().valid(),
    {
        FrameReader {
            phase: RxPhase::Sync,
            hdr: Vec::new(),
            payload: Vec::new(),
            max_frame: cfg.max_frame,
        }
    }

    /// Whether the reading is over.
    pub fn is_over(&self) -> (b: bool)
        ensures
            b == self.state().over(),
    {
        matches!(
            self.phase,
            RxPhase::Whole | RxPhase::WrongVersion | RxPhase::TooBig | RxPhase::Corrupt
        )
    }

    /// How many bytes to read next.
    pub fn wanted(&self) -> (n: usize)
        requires
            self.state().valid(),
        ensures
            n == self.state().wants(),
    {
        match self.phase {
            RxPhase::Sync => 1,
            RxPhase::Mark => 1,
            RxPhase::Header => 10,
            RxPhase::Payload => {
                proof {
                    bytes::lemma_le_value_bound(self.hdr@.subrange(4, 6));
                    bytes::lemma_pow256_values();
                }
                bytes::read_le(self.hdr.as_slice(), 4, 2) as usize
            },
            RxPhase::Checksum => 2,
            _ => 0,
        }
    }

    /// Takes the bytes that were asked for.
    pub fn feed(&mut self, data: &[u8])
        requires
            old(self).state().valid(),
            data@.len() == old(self).state().wants(),
        ensures
            final(self).state() == old(self).state().fed(data@),
            final(self).state().valid(),
    {
        match self.phase {
            RxPhase::Sync => {
                self.phase = if data[0] as u16 == MAGIC % 256 {
                    RxPhase::Mark
                } else {
                    RxPhase::Sync
                };
            },
            RxPhase::Mark => {
                self.phase = if data[0] as u16 == MAGIC / 256 {
                    RxPhase::Header
                } else if data[0] as u16 == MAGIC % 256 {
                    RxPhase::Mark
                } else {
                    RxPhase::Sync
                };
            },
            RxPhase::Header => {
                let len: u64 = bytes::read_le(data, 4, 2);
                self.hdr = vstd::slice::slice_to_vec(data);
                self.phase = if len > self.max_frame as u64 {
                    RxPhase::TooBig
                } else {
                    RxPhase::Payload
                };
            },
            RxPhase::Payload => {
                self.payload = vstd::slice::slice_to_vec(data);
                self.phase = RxPhase::Checksum;
            },
            RxPhase::Checksum => {
                let crc_rx: u64 = bytes::read_le(data, 0, 2);
                let crc_hdr: u16 = crc::crc16_ccitt(0xFFFF, self.hdr.as_slice());
                let crc: u16 = crc::crc16_ccitt(crc_hdr, self.payload.as_slice());
                proof {
                    crc::law_crc_of_parts(0xFFFF, self.hdr@, self.payload@);
                }
                self.phase = if crc as u64 != crc_rx {
                    RxPhase::Corrupt
                } else if self.hdr[0] != VER {
                    RxPhase::WrongVersion
                } else {
                    RxPhase::Whole
                };
            },
            _ => {},
        }
    }

    /// What came of it, once the reading is over. The payload, if it was read, is moved to `work`.
    pub fn finish(self, work: &mut Vec<u8>) -> (r: Result<(u8, u8, u32, usize), RxErr>)
        requires
            self.state().valid(),
            self.state().over(),
        ensures
            match self.state().outcome(seq![], 0) {
                Outcome::WrongVersion { payload, .. } => r == Err::<(u8, u8, u32, usize), RxErr>(
                    RxErr::BadVersion,
                ) && final(work)@ == payload,
                Outcome::TooBig { .. } => r == Err::<(u8, u8, u32, usize), RxErr>(RxErr::LenTooBig)
                    && final(work)@ == old(work)@,
                Outcome::Corrupt { payload, .. } => r == Err::<(u8, u8, u32, usize), RxErr>(
                    RxErr::BadCrc,
                ) && final(work)@ == payload,
                Outcome::Whole { chan, ttl, seq, payload, .. } => r == Ok::<
                    (u8, u8, u32, usize),
                    RxErr,
                >((chan, ttl, seq, payload.len() as usize)) && final(work)@ == payload,
                Outcome::Starved => false,
            },
    {
        match self.phase {
            RxPhase::WrongVersion => {
                *work = self.payload;
                Err(RxErr::BadVersion)
            },
            RxPhase::TooBig => Err(RxErr::LenTooBig),
            RxPhase::Corrupt => {
                *work = self.payload;
                Err(RxErr::BadCrc)
            },
            _ => {
                let chan: u8 = self.hdr[1];
                let ttl: u8 = self.hdr[2];
                let seq: u32 = bytes::read_le(self.hdr.as_slice(), 6, 4) as u32;
                let n: usize = self.payload.len();
                *work = self.payload;
                Ok((chan, ttl, seq, n))
            },
        }
    }
}

/// Why no frame was read.
#[derive(Clone, Copy, Debug, PartialEq, Eq)]
pub enum RxErr {
    /// The stream ended, or could not be read.
    Io,
    /// The frame is of another version.
    BadVersion,
    /// The header announces more than is accepted.
    LenTooBig,
    /// The checksum does not match.
    BadCrc,
}

/// Reading on from the search for the magic number is searching and then reading the rest; with the
/// first byte of the magic number behind it, the reader searches as if that byte came first.
proof fn lemma_outcome_of_sync(st: RxState, input: Seq<u8>, used: nat)
    requires
        st.phase is Sync || st.phase is Mark,
    ensures
        ({
            let marked = seq![(MAGIC % 256) as u8] + input;
            let (sought, behind) = if st.phase is Mark {
                (sync(marked), 1nat)
            } else {
                (sync(input), 0nat)
            };
            &&& sought matches Some(n) ==> 2 <= n <= input.len() + behind
            &&& st.outcome(input, used) == match sought {
                None => Outcome::Starved,
                Some(n) => (RxState { phase: RxPhase::Header, ..st }).outcome(
                    input.skip(n - behind),
                    (used + n - behind) as nat,
                ),
            }
        }),
    decreases input.len(),
{
    let marked = seq![(MAGIC % 256) as u8] + input;
    assert(marked.skip(1) =~= input);
    if input.len() > 0 {
        let rest = input.skip(1);
        let next = st.fed(input.take(1));
        assert(input.take(1)[0] == input[0]);
        assert(st.outcome(input, used) == next.outcome(rest, used + 1));
        if next.phase !is Header {
            lemma_outcome_of_sync(next, rest, used + 1);
        }
        if next.phase is Sync {
            if let Some(n) = sync(rest) {
                assert(rest.skip(n as int) =~= input.skip(n as int + 1));
            }
        } else if next.phase is Mark {
            assert(seq![(MAGIC % 256) as u8] + rest =~= input);
            if let Some(n) = sync(input) {
                assert(rest.skip(n - 1) =~= input.skip(n as int));
            }
        }
    }
}

/// A reader reads what [`parse`] says.
proof fn lemma_outcome_is_parse(st: RxState, input: Seq<u8>)
    requires
        st.phase is Sync,
    ensures
        st.outcome(input, 0) == parse(input, st.max_frame),
{
    lemma_outcome_of_sync(st, input, 0);
    if let Some(n) = sync(input) {
        let s1 = RxState { phase: RxPhase::Header, ..st };
        let in1 = input.skip(n as int);
        if input.len() >= n + 10 {
            let hdr = input.subrange(n as int, n as int + 10);
            let s2 = s1.fed(hdr);
            let in2 = input.skip(n as int + 10);
            let len = stated_len(hdr);
            assert(in1.take(10) =~= hdr);
            assert(in1.skip(10) =~= in2);
            assert(s1.outcome(in1, n) == s2.outcome(in2, n + 10));
            if len <= st.max_frame && in2.len() >= len {
                let s3 = s2.fed(in2.take(len as int));
                let in3 = in2.skip(len as int);
                assert(s2.outcome(in2, n + 10) == s3.outcome(in3, n + 10 + len));
                if in3.len() >= 2 {
                    let s4 = s3.fed(in3.take(2));
                    assert(s3.outcome(in3, n + 10 + len) == s4.outcome(
                        in3.skip(2),
                        n + 10 + len + 2,
                    ));
                    assert(in3.take(2).subrange(0, 2) =~= in2.subrange(
                        len as int,
                        len as int + 2,
                    ));
                }
            }
        }
    }
}

/// Reads the first frame of `input` into `work`; tells how many bytes were read.
pub fn read_frame(input: &[u8], cfg: Cfg, work: &mut Vec<u8>) -> (r: (
    Result<(u8, u8, u32, usize), RxErr>,
    usize,
))
    ensures
        match parse(input@, cfg.max_frame as nat) {
            Outcome::Starved => r.0 == Err::<(u8, u8, u32, usize), RxErr>(RxErr::Io) && r.1
                == input@.len() && final(work)@ == old(work)@,
            Outcome::WrongVersion { used, payload } => r.0 == Err::<(u8, u8, u32, usize), RxErr>(
                RxErr::BadVersion,
            ) && r.1 == used && final(work)@ == payload,
            Outcome::TooBig { used } => r.0 == Err::<(u8, u8, u32, usize), RxErr>(RxErr::LenTooBig)
                && r.1 == used && final(work)@ == old(work)@,
            Outcome::Corrupt { used, payload } => r.0 == Err::<(u8, u8, u32, usize), RxErr>(
                RxErr::BadCrc,
            ) && r.1 == used && final(work)@ == payload,
            Outcome::Whole { used, chan, ttl, seq, payload } => r.0 == Ok::<
                (u8, u8, u32, usize),
                RxErr,
            >((chan, ttl, seq, payload.len() as usize)) && r.1 == used && final(work)@ == payload,
        },
{
    let n: usize = input.len();
    let mut reader = FrameReader::new(cfg);
    let mut at: usize = 0;
    let ghost start = reader.state();
    proof {
        lemma_outcome_is_parse(start, input@);
        assert(input@.skip(0) =~= input@);
    }
    while !reader.is_over()
        invariant
            at <= n == input@.len(),
            reader.state().valid(),
            reader.state().outcome(input@.skip(at as int), at as nat) == parse(
                input@,
                cfg.max_frame as nat,
            ),
            work@ == old(work)@,
        decreases
                n - at,
                (if reader.state().phase is Payload {
                    1int
                } else {
                    0
                }),
    {
        let k: usize = reader.wanted();
        let ghost rest = input@.skip(at as int);
        if n - at < k {
            return (Err(RxErr::Io), n);
        }
        let data = vstd::slice::slice_subrange(input, at, at + k);
        proof {
            assert(data@ =~= rest.take(k as int));
            assert(rest.skip(k as int) =~= input@.skip(at + k));
        }
        reader.feed(data);
        at = at + k;
    }
    let ghost last = reader.state();
    let r = reader.finish(work);
    (r, at)
}

/// A header states what it was made of.
proof fn lemma_header_fields(chan: u8, ttl: u8, seq: u32, len: nat)
    requires
        len < 0x1_0000,
    ensures
        ({
            let hdr = header(chan, ttl, seq, len);
            &&& hdr.len() == 10
            &&& hdr[0] == VER
            &&& hdr[1] == chan
            &&& hdr[2] == ttl
            &&& stated_len(hdr) == len
            &&& bytes::le_at(hdr, 6, 4) == seq
        }),
{
    let hdr = header(chan, ttl, seq, len);
    bytes::lemma_pow256_values();
    bytes::lemma_le_bytes_len(len, 2);
    bytes::lemma_le_bytes_len(seq as nat, 4);
    bytes::lemma_le_value_of_bytes(len, 2);
    bytes::lemma_le_value_of_bytes(seq as nat, 4);
    assert(hdr.subrange(4, 6) =~= bytes::le_bytes(len, 2));
    assert(hdr.subrange(6, 10) =~= bytes::le_bytes(seq as nat, 4));
}

proof fn lemma_magic()
    ensures
        bytes::le_bytes(MAGIC as nat, 2) == seq![0xCDu8, 0xABu8],
{
    reveal_with_fuel(bytes::le_bytes, 3);
    assert(bytes::le_bytes(MAGIC as nat, 2) =~= seq![0xCDu8, 0xABu8]);
}

/// Reading a frame gives back what was written, whatever follows it on the stream.
pub proof fn law_frame_reads_back(
    chan: u8,
    ttl: u8,
    seq: u32,
    payload: Seq<u8>,
    rest: Seq<u8>,
    max_frame: nat,
)
    requires
        payload.len() <= max_frame,
        payload.len() < 0x1_0000,
    ensures
        frame(chan, ttl, seq, payload).len() == payload.len() + 14,
        parse(frame(chan, ttl, seq, payload) + rest, max_frame) == (Outcome::Whole {
            used: payload.len() + 14,
            chan,
            ttl,
            seq,
            payload,
        }),
{
    let hdr = header(chan, ttl, seq, payload.len());
    let crc = checksum(hdr, payload);
    let sum = bytes::le_bytes(crc as nat, 2);
    let s = frame(chan, ttl, seq, payload) + rest;
    lemma_magic();
    lemma_header_fields(chan, ttl, seq, payload.len());
    bytes::lemma_le_bytes_len(crc as nat, 2);
    bytes::lemma_pow256_values();
    bytes::lemma_le_value_of_bytes(crc as nat, 2);
    assert(sync(s) == Some(2nat));
    assert(s.subrange(2, 12) =~= hdr);
    let body = s.skip(12);
    assert(body =~= payload + sum + rest);
    assert(body.take(payload.len() as int) =~= payload);
    assert(body.subrange(payload.len() as int, payload.len() as int + 2) =~= sum);
}

/// The reader begins behind the first magic number of the stream.
pub proof fn law_first_magic_is_found(s: Seq<u8>)
    ensures
        match sync(s) {
            Some(n) => magic_at(s, n - 2) && forall|i: int| #[trigger]
                magic_at(s, i) ==> n - 2 <= i,
            None => forall|i: int| !#[trigger] magic_at(s, i),
        },
    decreases s.len(),
{
    if s.len() >= 2 && !magic_at(s, 0) {
        let rest = s.skip(1);
        law_first_magic_is_found(rest);
        assert forall|i: int| #[trigger] magic_at(s, i) implies magic_at(rest, i - 1) by {}
        if let Some(n) = sync(rest) {
            assert(magic_at(rest, n - 2));
        }
    }
}

/// Bytes in which no frame begins are skipped.
pub proof fn law_noise_is_skipped(noise: Seq<u8>, s: Seq<u8>, max_frame: nat)
    requires
        forall|i: int| 0 <= i < noise.len() ==> !#[trigger] magic_at(noise + s, i),
    ensures
        parse(noise + s, max_frame) == match parse(s, max_frame) {
            Outcome::Starved => Outcome::Starved,
            Outcome::WrongVersion { used, payload } => Outcome::WrongVersion {
                used: used + noise.len(),
                payload,
            },
            Outcome::TooBig { used } => Outcome::TooBig { used: used + noise.len() },
            Outcome::Corrupt { used, payload } => Outcome::Corrupt {
                used: used + noise.len(),
                payload,
            },
            Outcome::Whole { used, chan, ttl, seq, payload } => Outcome::Whole {
                used: used + noise.len(),
                chan,
                ttl,
                seq,
                payload,
            },
        },
    decreases noise.len(),
{
    if noise.len() == 0 {
        assert(noise + s =~= s);
    } else {
        let t = noise.skip(1) + s;
        assert((noise + s).skip(1) =~= t);
        assert forall|i: int| 0 <= i < noise.skip(1).len() implies !#[trigger] magic_at(t, i) by {
            assert(!magic_at(noise + s, i + 1));
        }
        law_noise_is_skipped(noise.skip(1), s, max_frame);
        assert(!magic_at(noise + s, 0));
        if let Some(n) = sync(t) {
            if t.len() >= n + 10 {
                assert((noise + s).subrange(n as int + 1, n as int + 11) =~= t.subrange(
                    n as int,
                    n as int + 10,
                ));
                assert((noise + s).skip(n as int + 11) =~= t.skip(n as int + 10));
            }
        }
    }
}

/// A whole frame of another version, whose checksum matches, is refused, and is read to its end.
pub proof fn law_other_version_is_refused(
    hdr: Seq<u8>,
    payload: Seq<u8>,
    rest: Seq<u8>,
    max_frame: nat,
)
    requires
        hdr.len() == 10,
        hdr[0] != VER,
        stated_len(hdr) == payload.len() <= max_frame,
    ensures
        parse(
            bytes::le_bytes(MAGIC as nat, 2) + hdr + payload + bytes::le_bytes(
                checksum(hdr, payload) as nat,
                2,
            ) + rest,
            max_frame,
        ) == (Outcome::WrongVersion { used: payload.len() + 14, payload }),
{
    let crc = checksum(hdr, payload);
    let sum = bytes::le_bytes(crc as nat, 2);
    let s = bytes::le_bytes(MAGIC as nat, 2) + hdr + payload + sum + rest;
    lemma_magic();
    bytes::lemma_le_bytes_len(crc as nat, 2);
    bytes::lemma_pow256_values();
    bytes::lemma_le_value_of_bytes(crc as nat, 2);
    assert(sync(s) == Some(2nat));
    assert(s.subrange(2, 12) =~= hdr);
    let body = s.skip(12);
    assert(body =~= payload + sum + rest);
    assert(body.take(payload.len() as int) =~= payload);
    assert(body.subrange(payload.len() as int, payload.len() as int + 2) =~= sum);
}

/// A frame of which one byte behind the magic number was changed on the way, other than the
/// length, is not taken for a frame, and is read to its end: the next frame is looked for behind
/// it. (A change of the magic number or of the length makes the
/// reader look elsewhere for the frame or for its checksum.)
pub proof fn law_changed_frame_is_detected(
    chan: u8,
    ttl: u8,
    seq: u32,
    payload: Seq<u8>,
    rest: Seq<u8>,
    max_frame: nat,
    i: int,
    b: u8,
)
    requires
        payload.len() <= max_frame,
        payload.len() < 0x1_0000,
        2 <= i < payload.len() + 14,
        i != 6,
        i != 7,
        frame(chan, ttl, seq, payload)[i] != b,
    ensures
        parse(frame(chan, ttl, seq, payload).update(i, b) + rest, max_frame) matches
            Outcome::Corrupt { used, .. } && used == payload.len() + 14,
{
    let hdr = header(chan, ttl, seq, payload.len());
    let n = payload.len() as int;
    let crc = checksum(hdr, payload);
    let sum = bytes::le_bytes(crc as nat, 2);
    let whole = frame(chan, ttl, seq, payload);
    let s = whole.update(i, b) + rest;
    lemma_magic();
    lemma_header_fields(chan, ttl, seq, payload.len());
    bytes::lemma_le_bytes_len(crc as nat, 2);
    bytes::lemma_pow256_values();
    bytes::lemma_le_value_of_bytes(crc as nat, 2);
    assert(whole.len() == n + 14);
    assert(whole.subrange(2, 12) =~= hdr);
    assert(whole.subrange(12, 12 + n) =~= payload);
    assert(whole.subrange(12 + n, 14 + n) =~= sum);
    assert(sync(s) == Some(2nat));
    let hdr2 = s.subrange(2, 12);
    let body = s.skip(12);
    assert(hdr2.subrange(4, 6) =~= hdr.subrange(4, 6));
    let payload2 = body.take(n);
    let sum2 = body.subrange(n, n + 2);
    assert(sum2 =~= s.subrange(12 + n, 14 + n));
    if i < 12 + n {
        let k = i - 2;
        assert(hdr2 + payload2 =~= (hdr + payload).update(k, b));
        assert((hdr + payload)[k] == whole[i]);
        crc::law_changed_byte_is_detected(0xFFFF, hdr + payload, k, b);
        assert(sum2 =~= sum);
    } else {
        assert(hdr2 =~= hdr);
        assert(payload2 =~= payload);
        let k = i - 12 - n;
        assert(sum2 =~= sum.update(k, b));
        assert(sum[k] == whole[i]);
        bytes::lemma_le_value_apart(sum, sum2);
    }
}

/// The bytes of a written frame, one by one. The last two are the checksum, low byte first, of all
/// that stands between the magic number and them, with a register that begins at `0xFFFF`.
pub proof fn law_written_bytes(
    chan: u8,
    ttl: u8,
    seq: u32,
    payload: &[u8],
    out: Vec<u8>,
    covered: &[u8],
    sum: u16,
)
    requires
        call_ensures(write_frame, (chan, ttl, seq, payload), out),
        covered@ == out@.subrange(2, out@.len() - 2),
        call_ensures(crc::crc16_ccitt, (0xFFFFu16, covered), sum),
    ensures
        ({
            let n = payload@.len() as int;
            &&& out@.len() == n + 14
            &&& out@[0] == 0xCD
            &&& out@[1] == 0xAB
            &&& out@[2] == 1
            &&& out@[3] == chan
            &&& out@[4] == ttl
            &&& out@[5] == 0
            &&& out@[6] == n % 256
            &&& out@[7] == n / 256 % 256
            &&& out@[8] == seq % 256
            &&& out@[9] == seq / 256 % 256
            &&& out@[10] == seq / 65536 % 256
            &&& out@[11] == seq / 16777216
            &&& out@.subrange(12, 12 + n) == payload@
            &&& out@[12 + n] == sum % 256
            &&& out@[13 + n] == sum / 256
        }),
{
    let n = payload@.len();
    let hdr = header(chan, ttl, seq, n);
    let crc = checksum(hdr, payload@);
    reveal_with_fuel(bytes::le_bytes, 5);
    lemma_magic();
    assert(out@.len() == n + 14);
    assert(covered@ =~= hdr + payload@);
    assert(out@.subrange(12, 12 + n as int) =~= payload@);
}

/// What is read of a stream, byte by byte: the first magic number begins the frame, whose length,
/// checksum and version are looked at in this order. The checksum is that of all between magic
/// number and checksum, with a register that begins at `0xFFFF`.
pub proof fn law_read_bytes(
    input: &[u8],
    cfg: Cfg,
    work: &mut Vec<u8>,
    r: (Result<(u8, u8, u32, usize), RxErr>, usize),
    i: int,
    covered: &[u8],
    sum: u16,
)
    requires
        call_ensures(read_frame, (input, cfg, work), r),
        0 <= i,
        i + 12 <= input@.len(),
        input@[i] == 0xCD,
        input@[i + 1] == 0xAB,
        forall|j: int| 0 <= j < i ==> !(#[trigger] input@[j] == 0xCD && input@[j + 1] == 0xAB),
        ({
            let n = input@[i + 6] + 256 * input@[i + 7];
            i + 14 + n <= input@.len() ==> covered@ == input@.subrange(i + 2, i + 12 + n)
        }),
        call_ensures(crc::crc16_ccitt, (0xFFFFu16, covered), sum),
    ensures
        ({
            let b = input@;
            let n = b[i + 6] + 256 * b[i + 7];
            let seq = b[i + 8] + 0x100 * b[i + 9] + 0x1_0000 * b[i + 10] + 0x100_0000 * b[i + 11];
            if n > cfg.max_frame {
                &&& r.0 == Err::<(u8, u8, u32, usize), RxErr>(RxErr::LenTooBig)
                &&& r.1 == i + 12
                &&& final(work)@ == old(work)@
            } else if b.len() < i + 14 + n {
                &&& r.0 == Err::<(u8, u8, u32, usize), RxErr>(RxErr::Io)
                &&& r.1 == b.len()
                &&& final(work)@ == old(work)@
            } else {
                &&& r.1 == i + 14 + n
                &&& final(work)@ == b.subrange(i + 12, i + 12 + n)
                &&& r.0 == if b[i + 12 + n] + 256 * b[i + 13 + n] != sum {
                    Err::<(u8, u8, u32, usize), RxErr>(RxErr::BadCrc)
                } else if b[i + 2] != 1 {
                    Err::<(u8, u8, u32, usize), RxErr>(RxErr::BadVersion)
                } else {
                    Ok::<(u8, u8, u32, usize), RxErr>((b[i + 3], b[i + 4], seq as u32, n as usize))
                }
            }
        }),
{
    let b = input@;
    assert(input.len() == b.len());
    law_first_magic_is_found(b);
    assert(magic_at(b, i));
    if let Some(m) = sync(b) {
        if m - 2 < i {
            assert(magic_at(b, m - 2));
            assert(b[m - 2] == 0xCD && b[m - 1] == 0xAB);
            assert(b[m - 2 + 1] == b[m - 1]);
        }
    }
    assert(sync(b) == Some((i + 2) as nat));
    let hdr = b.subrange(i + 2, i + 12);
    let rest = b.skip(i + 12);
    bytes::lemma_le_bytes_listed(hdr, 4, 2);
    bytes::lemma_le_bytes_listed(hdr, 6, 4);
    let n = b[i + 6] + 256 * b[i + 7];
    assert(stated_len(hdr) == n);
    if b.len() >= i + 14 + n {
        assert(rest.take(n) =~= b.subrange(i + 12, i + 12 + n));
        assert(hdr + rest.take(n) =~= b.subrange(i + 2, i + 12 + n));
        bytes::lemma_le_bytes_listed(rest, n, 2);
    }
}

/// Without a magic number that a header follows, the whole stream is read, and nothing found.
pub proof fn law_no_magic_no_frame(
    input: &[u8],
    cfg: Cfg,
    work: &mut Vec<u8>,
    r: (Result<(u8, u8, u32, usize), RxErr>, usize),
)
    requires
        call_ensures(read_frame, (input, cfg, work), r),
        forall|j: int|
            0 <= j && j + 12 <= input@.len() ==> !(#[trigger] input@[j] == 0xCD && input@[j + 1]
                == 0xAB),
    ensures
        r == (Err::<(u8, u8, u32, usize), RxErr>(RxErr::Io), input@.len() as usize),
        final(work)@ == old(work)@,
{
    assert(input.len() == input@.len());
    law_first_magic_is_found(input@);
    if let Some(m) = sync(input@) {
        assert(magic_at(input@, m - 2));
        let j = m - 2;
        assert(input@[j] == 0xCD && input@[j + 1] == 0xAB);
    }
}

/// What was written is read back, whatever follows it on the stream.
pub proof fn law_written_frame_reads_back(
    chan: u8,
    ttl: u8,
    seq: u32,
    payload: &[u8],
    out: Vec<u8>,
    input: &[u8],
    cfg: Cfg,
    work: &mut Vec<u8>,
    r: (Result<(u8, u8, u32, usize), RxErr>, usize),
)
    requires
        call_ensures(write_frame, (chan, ttl, seq, payload), out),
        payload@.len() <= cfg.max_frame,
        payload@.len() < 0x1_0000,
        out@.is_prefix_of(input@),
        call_ensures(read_frame, (input, cfg, work), r),
    ensures
        r == (
            Ok::<(u8, u8, u32, usize), RxErr>((chan, ttl, seq, payload@.len() as usize)),
            (payload@.len() + 14) as usize,
        ),
        final(work)@ == payload@,
{
    let rest = input@.skip(out@.len() as int);
    assert(input@ =~= out@ + rest);
    assert(input.len() == input@.len());
    law_frame_reads_back(chan, ttl, seq, payload@, rest, cfg.max_frame as nat);
}

/// A reader that is fed what it asks for finds in a stream what there is to be found.
pub proof fn law_reader_finds_what_is_there(cfg: Cfg, reader: FrameReader, input: Seq<u8>)
    requires
        call_ensures(FrameReader::new, (cfg,), reader),
    ensures
        reader.state().outcome(input, 0) == parse(input, cfg.max_frame as nat),
{
    lemma_outcome_is_parse(reader.state(), input);
}

/// A reader asks for one byte while it looks for a frame, then for the ten of the header, for as
/// many as the header states, and for the two of the checksum; and it is over when it asks for
/// none, unless it waits for an empty payload.
pub proof fn law_reader_asks_for_the_parts(reader: &FrameReader, n: usize, over: bool)
    requires
        reader.state().valid(),
        call_ensures(FrameReader::wanted, (reader,), n),
        call_ensures(FrameReader::is_over, (reader,), over),
    ensures
        match reader.state().phase {
            RxPhase::Sync | RxPhase::Mark => n == 1 && !over,
            RxPhase::Header => n == 10 && !over,
            RxPhase::Payload => n == reader.state().hdr[4] + 256 * reader.state().hdr[5] && !over,
            RxPhase::Checksum => n == 2 && !over,
            _ => n == 0 && over,
        },
{
    if reader.state().phase is Payload {
        bytes::lemma_le_bytes_listed(reader.state().hdr, 4, 2);
    }
}

/// What a reader makes of the bytes that it asked for. It looks for the byte 0xCD with 0xAB behind
/// it; then come ten bytes of header, whose fifth and sixth state the length of the payload, low
/// byte first. One that is longer than accepted ends the reading.
pub proof fn law_reader_takes_what_it_asked_for(r: &mut FrameReader, data: &[u8])
    requires
        r.state().valid(),
        data@.len() == r.state().wants(),
        call_ensures(FrameReader::feed, (r, data), ()),
    ensures
        ({
            let s = old(r).state();
            let t = final(r).state();
            &&& t.max_frame == s.max_frame
            &&& s.phase is Sync ==> (t.phase is Mark <==> data@[0] == 0xCD) && (t.phase is Sync
                <==> data@[0] != 0xCD)
            &&& s.phase is Mark ==> (t.phase is Header <==> data@[0] == 0xAB) && (t.phase is Mark
                <==> data@[0] == 0xCD) && (t.phase is Sync <==> data@[0] != 0xAB && data@[0]
                != 0xCD)
            &&& s.phase is Sync || s.phase is Mark ==> t.hdr == s.hdr && t.payload == s.payload
            &&& s.phase is Header ==> {
                let len = data@[4] + 0x100 * data@[5];
                &&& t.hdr == data@
                &&& t.payload == s.payload
                &&& t.phase is TooBig <==> len > s.max_frame
                &&& t.phase is Payload <==> len <= s.max_frame
            }
            &&& s.phase is Payload ==> t.hdr == s.hdr && t.payload == data@ && t.phase is Checksum
        }),
{
    let d = data@;
    if r.state().phase is Header {
        bytes::lemma_le_bytes_listed(d, 4, 2);
    }
}

/// The last two bytes must be the remainder of header and payload, low byte first; if they are, the
/// first byte of the header must be the version.
pub proof fn law_reader_checks_the_sum(
    r: &mut FrameReader,
    data: &[u8],
    covered: &[u8],
    sum: u16,
)
    requires
        r.state().valid(),
        r.state().phase is Checksum,
        data@.len() == 2,
        call_ensures(FrameReader::feed, (r, data), ()),
        covered@ == r.state().hdr + r.state().payload,
        call_ensures(crc::crc16_ccitt, (0xFFFFu16, covered), sum),
    ensures
        ({
            let t = final(r).state();
            &&& t.hdr == old(r).state().hdr
            &&& t.payload == old(r).state().payload
            &&& t.phase is Corrupt <==> data@[0] + 0x100 * data@[1] != sum
            &&& t.phase is WrongVersion <==> data@[0] + 0x100 * data@[1] == sum && t.hdr[0] != 1
            &&& t.phase is Whole <==> data@[0] + 0x100 * data@[1] == sum && t.hdr[0] == 1
        }),
{
    bytes::lemma_le_bytes_listed(data@, 0, 2);
}

/// What a finished reader hands out: the error, or what the header states of channel, hop limit and
/// number, with the length of the payload. The payload, if it was read, is in the buffer.
pub proof fn law_reader_hands_out_the_frame(
    r: FrameReader,
    work: &mut Vec<u8>,
    res: Result<(u8, u8, u32, usize), RxErr>,
)
    requires
        r.state().valid(),
        r.state().over(),
        r.state().payload.len() <= usize::MAX,
        call_ensures(FrameReader::finish, (r, work), res),
    ensures
        ({
            let s = r.state();
            &&& s.phase is TooBig ==> res is Err && res->Err_0 is LenTooBig && final(work)@ == old(
                work)@
            &&& s.phase is Corrupt ==> res is Err && res->Err_0 is BadCrc && final(work)@
                == s.payload
            &&& s.phase is WrongVersion ==> res is Err && res->Err_0 is BadVersion && final(work)@
                == s.payload
            &&& s.phase is Whole ==> {
                &&& res is Ok
                &&& (res->Ok_0).0 == s.hdr[1]
                &&& (res->Ok_0).1 == s.hdr[2]
                &&& (res->Ok_0).2 == s.hdr[6] + 0x100 * s.hdr[7] + 0x1_0000 * s.hdr[8] + 0x100_0000
                    * s.hdr[9]
                &&& (res->Ok_0).3 == s.payload.len()
                &&& final(work)@ == s.payload
            }
        }),
{
    bytes::lemma_le_bytes_listed(r.state().hdr, 6, 4);
}

} // verus!
