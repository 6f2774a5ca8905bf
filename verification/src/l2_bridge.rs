//! The bridge between a bus and an Ethernet link: what it sends and does on each event.
//!
//! Channel 0 carries messages, cut into fragments that fit into a frame; channel 1 acknowledges a
//! message by sending it back.

use crate::l2;
use crate::l2::{Frame, FrameView, FLAG_LAST, MTU_PAYLOAD};
use crate::usb_bridge;
use vstd::prelude::*;

verus! {

// ---- fragments ----

/// How many fragments a message of `len` bytes is cut into.
pub open spec fn fragment_count(len: int) -> int {
    (len + MTU_PAYLOAD - 1) / MTU_PAYLOAD as int
}

/// Where the fragment `k` of a message of `len` bytes ends.
pub open spec fn fragment_end(len: int, k: int) -> int {
    if (k + 1) * MTU_PAYLOAD <= len {
        (k + 1) * MTU_PAYLOAD
    } else {
        len
    }
}

/// The bytes of the fragment `k` of a message.
pub open spec fn fragment(message: Seq<u8>, k: int) -> Seq<u8> {
    message.subrange(k * MTU_PAYLOAD, fragment_end(message.len() as int, k))
}

/// Whether the fragment `k` is the last of a message of `len` bytes.
pub open spec fn is_last(len: int, k: int) -> bool {
    (k + 1) * MTU_PAYLOAD >= len
}

/// The frame that carries the fragment `k` of a message.
pub open spec fn fragment_frame(
    eth: Seq<u8>,
    chan: u8,
    ttl: u8,
    msg_id: u16,
    message: Seq<u8>,
    k: int,
) -> Seq<u8> {
    l2::frame(
        eth,
        chan,
        ttl,
        msg_id,
        (k % 65536) as u16,
        is_last(message.len() as int, k),
        fragment(message, k),
    )
}

/// Whether `frames` are the frames that carry a message, in order.
pub open spec fn carries(
    frames: Seq<Vec<u8>>,
    eth: Seq<u8>,
    chan: u8,
    ttl: u8,
    msg_id: u16,
    message: Seq<u8>,
) -> bool {
    &&& frames.len() == fragment_count(message.len() as int)
    &&& forall|k: int|
        0 <= k < frames.len() ==> (#[trigger] frames[k])@ == fragment_frame(
            eth,
            chan,
            ttl,
            msg_id,
            message,
            k,
        )
}

/// Who talks to whom on a link, and by which protocol.
#[derive(Clone, Copy, Debug)]
pub struct Link {
    pub dst_mac: [u8; 6],
    pub src_mac: [u8; 6],
    pub ethertype: u16,
}

impl Link {
    pub open spec fn eth(self) -> Seq<u8> {
        l2::eth_header(self.dst_mac@, self.src_mac@, self.ethertype)
    }

    /// A frame on the link.
    pub fn frame(
        &self,
        chan: u8,
        ttl: u8,
        msg_id: u16,
        frag_idx: u16,
        last: bool,
        payload: &[u8],
    ) -> (out: Vec<u8>)
        ensures
            out@ == l2::frame(self.eth(), chan, ttl, msg_id, frag_idx, last, payload@),
    {
        l2::build_frag(
            &self.dst_mac,
            &self.src_mac,
            self.ethertype,
            chan,
            ttl,
            msg_id,
            frag_idx,
            last,
            payload,
        )
    }

    /// The frames that carry a message.
    pub fn fragments(&self, chan: u8, ttl: u8, msg_id: u16, message: &[u8]) -> (frames: Vec<
        Vec<u8>,
    >)
        ensures
            carries(frames@, self.eth(), chan, ttl, msg_id, message@),
    {
        let n: usize = message.len();
        let mut frames: Vec<Vec<u8>> = Vec::new();
        let mut sent: usize = 0;
        let mut idx: u16 = 0;
        while sent < n
            invariant
                n == message@.len(),
                sent == if frames@.len() * MTU_PAYLOAD <= n {
                    frames@.len() * MTU_PAYLOAD
                } else {
                    n as int
                },
                frames@.len() <= fragment_count(n as int),
                idx == frames@.len() % 65536,
                forall|k: int|
                    0 <= k < frames@.len() ==> (#[trigger] frames@[k])@ == fragment_frame(
                        self.eth(),
                        chan,
                        ttl,
                        msg_id,
                        message@,
                        k,
                    ),
            decreases n - sent,
        {
            let ghost k = frames@.len() as int;
            let take: usize = if n - sent < MTU_PAYLOAD {
                n - sent
            } else {
                MTU_PAYLOAD
            };
            let last = sent + take >= n;
            let part = vstd::slice::slice_subrange(message, sent, sent + take);
            assert(part@ == fragment(message@, k));
            let frame = self.frame(chan, ttl, msg_id, idx, last, part);
            frames.push(frame);
            idx = idx.wrapping_add(1);
            sent = sent + take;
        }
        frames
    }
}

// ---- reassembly ----

/// What a [`Reassembler`] holds.
#[verifier::ext_equal]
pub struct Held {
    /// The bytes of the message so far.
    pub data: Seq<u8>,
    /// The number of the message.
    pub id: u16,
    /// The fragment that comes next.
    pub next: u16,
    /// The longest message that is accepted.
    pub max: nat,
}

impl Held {
    /// Ready for the first fragment of the message `id`.
    pub open spec fn cleared(self, id: u16) -> Held {
        Held { data: seq![], id, next: 0, ..self }
    }

    /// What is held when a fragment with this number is looked at: that of another message, or the
    /// first of a message, begins anew.
    pub open spec fn opened(self, msg_id: u16, frag_idx: u16) -> Held {
        if self.id != msg_id || frag_idx == 0 {
            self.cleared(msg_id)
        } else {
            self
        }
    }

    /// Whether the fragment is the one that comes next, but makes the message too long.
    pub open spec fn overflows(self, msg_id: u16, frag_idx: u16, payload: Seq<u8>) -> bool {
        let h = self.opened(msg_id, frag_idx);
        frag_idx == h.next && h.data.len() + payload.len() > h.max
    }

    /// What is held after the fragment.
    pub open spec fn with(self, msg_id: u16, frag_idx: u16, payload: Seq<u8>) -> Held {
        let h = self.opened(msg_id, frag_idx);
        if frag_idx != h.next {
            h
        } else if h.data.len() + payload.len() > h.max {
            h.cleared(h.id)
        } else {
            Held {
                data: h.data + payload,
                next: if h.next == u16::MAX {
                    0
                } else {
                    (h.next + 1) as u16
                },
                ..h
            }
        }
    }
}

/// Puts a message together from its fragments, one message at a time.
pub struct Reassembler {
    data: Vec<u8>,
    id: u16,
    next: u16,
    max: usize,
}

impl Reassembler {
    pub closed spec fn held(&self) -> Held {
        Held { data: self.data@, id: self.id, next: self.next, max: self.max as nat }
    }

    pub open spec fn valid(&self) -> bool {
        self.held().data.len() <= self.held().max
    }

    pub fn new(max: usize) -> (r: Reassembler)
        ensures
            r.held() == (Held { data: seq![], id: 0, next: 0, max: max as nat }),
            r.valid(),
    {
        Reassembler { data: Vec::new(), id: 0, next: 0, max }
    }

    /// Takes a fragment; says whether it made the message too long.
    pub fn accept(&mut self, msg_id: u16, frag_idx: u16, payload: &[u8]) -> (overflow: bool)
        requires
            old(self).valid(),
        ensures
            final(self).valid(),
            overflow == old(self).held().overflows(msg_id, frag_idx, payload@),
            final(self).held() == old(self).held().with(msg_id, frag_idx, payload@),
    {
        if self.id != msg_id || frag_idx == 0 {
            self.id = msg_id;
            self.data = Vec::new();
            self.next = 0;
        }
        if frag_idx == self.next {
            if payload.len() > self.max - self.data.len() {
                self.data = Vec::new();
                self.next = 0;
                return true;
            }
            self.data.extend_from_slice(payload);
            self.next = self.next.wrapping_add(1);
            assert(self.held() =~= old(self).held().with(msg_id, frag_idx, payload@));
        }
        false
    }

    /// Hands out the bytes of the message so far.
    pub fn take(&mut self) -> (data: Vec<u8>)
        requires
            old(self).valid(),
        ensures
            data@ == old(self).held().data,
            final(self).held() == (Held { data: seq![], ..old(self).held() }),
            final(self).valid(),
    {
        let mut data: Vec<u8> = Vec::new();
        std::mem::swap(&mut data, &mut self.data);
        data
    }
}

// ---- the bridge ----

/// How a bridge is set up.
#[derive(Clone, Copy, Debug)]
pub struct Cfg {
    pub ethertype: u16,
    /// The longest message that is accepted.
    pub max_frame: usize,
    /// The hop limit of messages.
    pub ttl: u8,
}

/// The message `MBUS-L2-PROBE`, by which a bridge tests its link.
pub open spec fn probe() -> Seq<u8> {
    seq![0x4Du8, 0x42, 0x55, 0x53, 0x2D, 0x4C, 0x32, 0x2D, 0x50, 0x52, 0x4F, 0x42, 0x45]
}

pub fn probe_bytes() -> (v: Vec<u8>)
    ensures
        v@ == probe(),
{
    let v: Vec<u8> = vec![
        0x4Du8, 0x42, 0x55, 0x53, 0x2D, 0x4C, 0x32, 0x2D, 0x50, 0x52, 0x4F, 0x42, 0x45,
    ];
    assert(v@ =~= probe());
    v
}

/// What a bridge has counted.
#[derive(Clone, Copy, Debug, PartialEq, Eq)]
pub struct Counters {
    /// Frames too short for their headers, or for the fragment that they announce.
    pub short_frame: u64,
    /// Frames of other protocols.
    pub wrong_ethertype: u64,
    /// Frames whose checksum does not match.
    pub crc_fail: u64,
    /// Messages that were given up for being too long.
    pub reasm_reset: u64,
    /// Frames sent.
    pub tx_frag: u64,
    /// Bytes sent.
    pub tx_bytes: u64,
}

impl Counters {
    /// Whether one more of each kind of received frame can be counted.
    pub open spec fn can_count(self) -> bool {
        &&& self.short_frame < u64::MAX
        &&& self.wrong_ethertype < u64::MAX
        &&& self.crc_fail < u64::MAX
        &&& self.reasm_reset < u64::MAX
    }
}

/// Whether a fragment ends its message.
pub open spec fn ends(flags: u8) -> bool {
    flags & FLAG_LAST != 0
}

/// What is held of a message after a frame came.
pub open spec fn rx_held(h: Held, f: FrameView) -> Held {
    match f {
        FrameView::Fragment { chan, flags, msg_id, frag_idx, payload, .. } => if chan != 0 {
            h
        } else if h.overflows(msg_id, frag_idx, payload) || !ends(flags) {
            h.with(msg_id, frag_idx, payload)
        } else {
            Held { data: seq![], ..h.with(msg_id, frag_idx, payload) }
        },
        _ => h,
    }
}

/// Whether a frame ends a message, to which there is an answer.
pub open spec fn rx_ends(h: Held, f: FrameView) -> bool {
    match f {
        FrameView::Fragment { chan, flags, msg_id, frag_idx, payload, .. } => chan == 0
            && !h.overflows(msg_id, frag_idx, payload) && ends(flags),
        _ => false,
    }
}

/// The message that a frame completes. (An empty message is acknowledged, but not passed on.)
pub open spec fn rx_message(h: Held, f: FrameView) -> Seq<u8> {
    match f {
        FrameView::Fragment { msg_id, frag_idx, payload, .. } => h.with(
            msg_id,
            frag_idx,
            payload,
        ).data,
        _ => seq![],
    }
}

/// What has been counted after a frame came.
pub open spec fn rx_counters(c: Counters, h: Held, f: FrameView) -> Counters {
    match f {
        FrameView::Short => Counters { short_frame: (c.short_frame + 1) as u64, ..c },
        FrameView::WrongEthertype => Counters {
            wrong_ethertype: (c.wrong_ethertype + 1) as u64,
            ..c
        },
        FrameView::WrongVersion => c,
        FrameView::BadCrc => Counters { crc_fail: (c.crc_fail + 1) as u64, ..c },
        FrameView::Fragment { chan, msg_id, frag_idx, payload, .. } => if chan == 0 && h.overflows(
            msg_id,
            frag_idx,
            payload,
        ) {
            Counters { reasm_reset: (c.reasm_reset + 1) as u64, ..c }
        } else {
            c
        },
    }
}

/// What a bridge does about a frame that it has received.
pub struct Reaction {
    /// The frame is a good one.
    pub good: bool,
    /// Publish this on the bus.
    pub publish: Option<Vec<u8>>,
    /// Send these frames.
    pub acks: Vec<Vec<u8>>,
    /// Report that the link works.
    pub pass: bool,
}

/// A bridge between a bus and an Ethernet link.
pub struct L2Bridge {
    pub link: Link,
    pub cfg: Cfg,
    pub reasm: Reassembler,
    pub self_test: bool,
    /// Whether it was reported that the link works.
    pub passed: bool,
    /// The number of the next message.
    pub msg_id: u16,
    pub ticks: u32,
    pub counters: Counters,
}

pub open spec fn following16(x: u16) -> u16 {
    if x == u16::MAX {
        0
    } else {
        (x + 1) as u16
    }
}

impl L2Bridge {
    pub open spec fn valid(&self) -> bool {
        &&& self.reasm.valid()
        &&& self.link.ethertype == self.cfg.ethertype
    }

    /// The bridge after it has used the number of a message.
    pub open spec fn after_message(self) -> L2Bridge {
        L2Bridge { msg_id: following16(self.msg_id), ..self }
    }

    pub fn new(cfg: Cfg, dst_mac: [u8; 6], src_mac: [u8; 6], self_test: bool) -> (b: L2Bridge)
        ensures
            b.valid(),
            b.link == (Link { dst_mac, src_mac, ethertype: cfg.ethertype }),
            b.cfg == cfg,
            b.reasm.held() == (Held { data: seq![], id: 0, next: 0, max: cfg.max_frame as nat }),
            b.self_test == self_test,
            !b.passed,
            b.msg_id == 1,
            b.ticks == 0,
            b.counters == (Counters {
                short_frame: 0,
                wrong_ethertype: 0,
                crc_fail: 0,
                reasm_reset: 0,
                tx_frag: 0,
                tx_bytes: 0,
            }),
    {
        L2Bridge {
            link: Link { dst_mac, src_mac, ethertype: cfg.ethertype },
            cfg,
            reasm: Reassembler::new(cfg.max_frame),
            self_test,
            passed: false,
            msg_id: 1,
            ticks: 0,
            counters: Counters {
                short_frame: 0,
                wrong_ethertype: 0,
                crc_fail: 0,
                reasm_reset: 0,
                tx_frag: 0,
                tx_bytes: 0,
            },
        }
    }

    fn probe_frame(&mut self) -> (frame: Vec<u8>)
        ensures
            frame@ == l2::frame(
                old(self).link.eth(),
                0,
                old(self).cfg.ttl,
                old(self).msg_id,
                0,
                true,
                probe(),
            ),
            *final(self) == old(self).after_message(),
    {
        let message = probe_bytes();
        let frame = self.link.frame(0, self.cfg.ttl, self.msg_id, 0, true, message.as_slice());
        self.msg_id = self.msg_id.wrapping_add(1);
        frame
    }

    /// What to do at the start: a self-test publishes a probe on the bus and sends one over the
    /// link.
    pub fn start(&mut self) -> (act: Option<(Vec<u8>, Vec<u8>)>)
        ensures
            if old(self).self_test {
                &&& act matches Some((message, frame)) && message@ == probe() && frame@
                    == l2::frame(
                    old(self).link.eth(),
                    0,
                    old(self).cfg.ttl,
                    old(self).msg_id,
                    0,
                    true,
                    probe(),
                )
                &&& *final(self) == old(self).after_message()
            } else {
                act is None && *final(self) == *old(self)
            },
    {
        if !self.self_test {
            return None;
        }
        let message = probe_bytes();
        let frame = self.probe_frame();
        Some((message, frame))
    }

    /// What to send on a turn of the loop: in every 4096th turn of a self-test that has not passed
    /// yet, a probe.
    pub fn tick(&mut self) -> (act: Option<Vec<u8>>)
        ensures
            ({
                let now = usb_bridge::following(old(self).ticks);
                if !old(self).self_test || old(self).passed {
                    act is None && *final(self) == *old(self)
                } else if now % 4096 == 0 {
                    &&& act matches Some(frame) && frame@ == l2::frame(
                        old(self).link.eth(),
                        0,
                        old(self).cfg.ttl,
                        old(self).msg_id,
                        0,
                        true,
                        probe(),
                    )
                    &&& *final(self) == (L2Bridge { ticks: now, ..old(self).after_message() })
                } else {
                    act is None && *final(self) == (L2Bridge { ticks: now, ..*old(self) })
                }
            }),
    {
        if !self.self_test || self.passed {
            return None;
        }
        self.ticks = self.ticks.wrapping_add(1);
        if self.ticks % 4096 == 0 {
            Some(self.probe_frame())
        } else {
            None
        }
    }

    /// The frames for a message that was received from the bus.
    pub fn from_bus(&mut self, message: &[u8]) -> (frames: Vec<Vec<u8>>)
        ensures
            carries(
                frames@,
                old(self).link.eth(),
                0,
                usb_bridge::one_hop_less(old(self).cfg.ttl),
                old(self).msg_id,
                message@,
            ),
            *final(self) == old(self).after_message(),
    {
        let ttl: u8 = usb_bridge::hop(self.cfg.ttl);
        let frames = self.link.fragments(0, ttl, self.msg_id, message);
        self.msg_id = self.msg_id.wrapping_add(1);
        frames
    }

    /// Counts a frame of `n` bytes that was sent.
    pub fn sent(&mut self, n: u64)
        ensures
            *final(self) == (L2Bridge {
                counters: Counters {
                    tx_frag: if old(self).counters.tx_frag == u64::MAX {
                        u64::MAX
                    } else {
                        (old(self).counters.tx_frag + 1) as u64
                    },
                    tx_bytes: if old(self).counters.tx_bytes + n > u64::MAX {
                        u64::MAX
                    } else {
                        (old(self).counters.tx_bytes + n) as u64
                    },
                    ..old(self).counters
                },
                ..*old(self)
            }),
    {
        self.counters.tx_frag = self.counters.tx_frag.saturating_add(1);
        self.counters.tx_bytes = self.counters.tx_bytes.saturating_add(n);
    }

    /// What to do about the bytes `rx` that were received from the link.
    pub fn from_link(&mut self, rx: &[u8]) -> (act: Reaction)
        requires
            old(self).valid(),
            old(self).counters.can_count(),
        ensures
            final(self).valid(),
            ({
                let b = *old(self);
                let h = b.reasm.held();
                let f = l2::parse(rx@, b.cfg.ethertype);
                &&& act.good == f is Fragment
                &&& match act.publish {
                    Some(message) => rx_ends(h, f) && rx_message(h, f).len() > 0 && message@
                        == rx_message(h, f),
                    None => !rx_ends(h, f) || rx_message(h, f).len() == 0,
                }
                &&& if !rx_ends(h, f) {
                    act.acks@.len() == 0
                } else if rx_message(h, f).len() == 0 {
                    act.acks@.len() == 1 && act.acks@[0]@ == l2::frame(
                        b.link.eth(),
                        1,
                        usb_bridge::one_hop_less(f->ttl),
                        f->msg_id,
                        0,
                        true,
                        seq![],
                    )
                } else {
                    carries(
                        act.acks@,
                        b.link.eth(),
                        1,
                        usb_bridge::one_hop_less(f->ttl),
                        f->msg_id,
                        rx_message(h, f),
                    )
                }
                &&& act.pass == (f is Fragment && f->chan == 1 && b.self_test && !b.passed)
                &&& final(self).reasm.held() == rx_held(h, f)
                &&& *final(self) == (L2Bridge {
                    reasm: final(self).reasm,
                    passed: b.passed || act.pass,
                    counters: rx_counters(b.counters, h, f),
                    ..b
                })
            }),
    {
        let mut act = Reaction { good: false, publish: None, acks: Vec::new(), pass: false };
        match l2::parse_frame(rx, self.cfg.ethertype) {
            Frame::Short => {
                self.counters.short_frame = self.counters.short_frame + 1;
            },
            Frame::WrongEthertype => {
                self.counters.wrong_ethertype = self.counters.wrong_ethertype + 1;
            },
            Frame::WrongVersion => {},
            Frame::BadCrc => {
                self.counters.crc_fail = self.counters.crc_fail + 1;
            },
            Frame::Fragment { chan, flags, ttl, msg_id, frag_idx, payload } => {
                act.good = true;
                if chan == 0 {
                    if self.reasm.accept(msg_id, frag_idx, payload.as_slice()) {
                        self.counters.reasm_reset = self.counters.reasm_reset + 1;
                    } else if (flags & FLAG_LAST) != 0 {
                        let message = self.reasm.take();
                        let ttl2: u8 = usb_bridge::hop(ttl);
                        if message.is_empty() {
                            let empty: Vec<u8> = Vec::new();
                            let ack = self.link.frame(1, ttl2, msg_id, 0, true, empty.as_slice());
                            assert(empty@ =~= Seq::<u8>::empty());
                            act.acks.push(ack);
                        } else {
                            act.acks = self.link.fragments(1, ttl2, msg_id, message.as_slice());
                            act.publish = Some(message);
                        }
                    }
                } else if chan == 1 && self.self_test && !self.passed {
                    self.passed = true;
                    act.pass = true;
                }
            },
        }
        act
    }
}

// ---- laws ----

/// The fragments of a message follow each other and make up the whole of it.
pub proof fn law_fragments_make_up_the_message(message: Seq<u8>, k: int)
    requires
        0 <= k < fragment_count(message.len() as int),
    ensures
        0 < fragment(message, k).len() <= MTU_PAYLOAD,
        message.take(k * MTU_PAYLOAD) + fragment(message, k) == message.take(
            fragment_end(message.len() as int, k),
        ),
        is_last(message.len() as int, k) <==> k == fragment_count(message.len() as int) - 1,
        is_last(message.len() as int, k) ==> fragment_end(message.len() as int, k)
            == message.len(),
{
    let end = fragment_end(message.len() as int, k);
    assert(message.take(k * MTU_PAYLOAD) + fragment(message, k) =~= message.take(end));
}

/// What is held after the first `k` of `frames`.
pub open spec fn held_after(h: Held, frames: Seq<Seq<u8>>, ethertype: u16, k: int) -> Held
    decreases k,
{
    if k <= 0 {
        h
    } else {
        rx_held(held_after(h, frames, ethertype, k - 1), l2::parse(frames[k - 1], ethertype))
    }
}

/// The frames that carry a message, in order.
pub open spec fn message_frames(
    eth: Seq<u8>,
    ttl: u8,
    msg_id: u16,
    message: Seq<u8>,
) -> Seq<Seq<u8>> {
    Seq::new(
        fragment_count(message.len() as int) as nat,
        |k: int| fragment_frame(eth, 0, ttl, msg_id, message, k),
    )
}

/// What the other side finds in the frame of the fragment `k`.
spec fn fragment_view(ttl: u8, msg_id: u16, message: Seq<u8>, k: int) -> FrameView {
    FrameView::Fragment {
        chan: 0,
        flags: if k == fragment_count(message.len() as int) - 1 {
            3
        } else {
            1
        },
        ttl,
        msg_id,
        frag_idx: k as u16,
        payload: fragment(message, k),
    }
}

proof fn lemma_fragment_parses(link: Link, ttl: u8, msg_id: u16, message: Seq<u8>, k: int)
    requires
        fragment_count(message.len() as int) <= 65536,
        0 <= k < fragment_count(message.len() as int),
    ensures
        l2::parse(
            message_frames(link.eth(), ttl, msg_id, message)[k],
            link.ethertype,
        ) == fragment_view(ttl, msg_id, message, k),
{
    let frames = message_frames(link.eth(), ttl, msg_id, message);
    law_fragments_make_up_the_message(message, k);
    l2::law_frame_reads_back(
        link.dst_mac@,
        link.src_mac@,
        link.ethertype,
        0,
        ttl,
        msg_id,
        k as u16,
        is_last(message.len() as int, k),
        fragment(message, k),
        seq![],
    );
    assert(frames[k] + Seq::<u8>::empty() =~= frames[k]);
}

/// Whether `g` is ready for the fragment `k`.
spec fn ready(g: Held, max: nat, msg_id: u16, message: Seq<u8>, k: int) -> bool {
    &&& g.max == max
    &&& k > 0 ==> g.id == msg_id && g.next == k && g.data == message.take(k * MTU_PAYLOAD)
}

proof fn lemma_fragment_fits(g: Held, max: nat, msg_id: u16, message: Seq<u8>, k: int)
    requires
        0 < message.len() <= max,
        0 <= k < fragment_count(message.len() as int) <= 65536,
        ready(g, max, msg_id, message, k),
    ensures
        !g.overflows(msg_id, k as u16, fragment(message, k)),
        g.with(msg_id, k as u16, fragment(message, k)).data == message.take(
            fragment_end(message.len() as int, k),
        ),
        k + 1 < fragment_count(message.len() as int) ==> ready(
            g.with(msg_id, k as u16, fragment(message, k)),
            max,
            msg_id,
            message,
            k + 1,
        ),
{
    law_fragments_make_up_the_message(message, k);
    let o = g.opened(msg_id, k as u16);
    assert(o.data == message.take(k * MTU_PAYLOAD)) by {
        if k == 0 {
            assert(message.take(0) =~= Seq::<u8>::empty());
        }
    }
    assert(o.data + fragment(message, k) == message.take(fragment_end(message.len() as int, k)));
}

proof fn lemma_held_after(h: Held, link: Link, ttl: u8, msg_id: u16, message: Seq<u8>, k: int)
    requires
        0 < message.len() <= h.max,
        0 <= k < fragment_count(message.len() as int) <= 65536,
    ensures
        ready(
            held_after(
                h,
                message_frames(link.eth(), ttl, msg_id, message),
                link.ethertype,
                k,
            ),
            h.max,
            msg_id,
            message,
            k,
        ),
    decreases k,
{
    if k > 0 {
        let frames = message_frames(link.eth(), ttl, msg_id, message);
        let g = held_after(h, frames, link.ethertype, k - 1);
        lemma_held_after(h, link, ttl, msg_id, message, k - 1);
        lemma_fragment_parses(link, ttl, msg_id, message, k - 1);
        lemma_fragment_fits(g, h.max, msg_id, message, k - 1);
        assert(1u8 & FLAG_LAST == 0) by (bit_vector);
    }
}

/// A message that is cut into frames by one bridge is put together by the other, whatever that one
/// held before, and is passed on with the last frame and not before.
pub proof fn law_message_crosses_the_link(
    h: Held,
    link: Link,
    ttl: u8,
    msg_id: u16,
    message: Seq<u8>,
    k: int,
)
    requires
        0 < message.len() <= h.max,
        fragment_count(message.len() as int) <= 65536,
        0 <= k < fragment_count(message.len() as int),
    ensures
        ({
            let frames = message_frames(link.eth(), ttl, msg_id, message);
            let g = held_after(h, frames, link.ethertype, k);
            let f = l2::parse(frames[k], link.ethertype);
            &&& rx_ends(g, f) <==> k == frames.len() - 1
            &&& rx_ends(g, f) ==> rx_message(g, f) == message
        }),
{
    let frames = message_frames(link.eth(), ttl, msg_id, message);
    lemma_held_after(h, link, ttl, msg_id, message, k);
    lemma_fragment_parses(link, ttl, msg_id, message, k);
    lemma_fragment_fits(
        held_after(h, frames, link.ethertype, k),
        h.max,
        msg_id,
        message,
        k,
    );
    law_fragments_make_up_the_message(message, k);
    assert(1u8 & FLAG_LAST == 0) by (bit_vector);
    assert(3u8 & FLAG_LAST != 0) by (bit_vector);
    assert(message.take(message.len() as int) =~= message);
}

/// Every frame of an acknowledgement is found to be one, that of an empty message too.
pub proof fn law_acknowledgement_is_recognized(
    link: Link,
    ttl: u8,
    msg_id: u16,
    message: Seq<u8>,
    k: int,
)
    requires
        0 <= k < fragment_count(message.len() as int),
    ensures
        l2::parse(fragment_frame(link.eth(), 1, ttl, msg_id, message, k), link.ethertype) matches
            FrameView::Fragment { chan, payload, .. } && chan == 1 && payload == fragment(
            message,
            k,
        ),
        l2::parse(
            l2::frame(link.eth(), 1, ttl, msg_id, 0, true, seq![]),
            link.ethertype,
        ) matches FrameView::Fragment { chan, .. } && chan == 1,
{
    law_fragments_make_up_the_message(message, k);
    let data = fragment(message, k);
    let last = is_last(message.len() as int, k);
    let idx = (k % 65536) as u16;
    let frame = l2::frame(link.eth(), 1, ttl, msg_id, idx, last, data);
    let empty = l2::frame(link.eth(), 1, ttl, msg_id, 0, true, seq![]);
    l2::law_frame_reads_back(
        link.dst_mac@,
        link.src_mac@,
        link.ethertype,
        1,
        ttl,
        msg_id,
        idx,
        last,
        data,
        seq![],
    );
    l2::law_frame_reads_back(
        link.dst_mac@,
        link.src_mac@,
        link.ethertype,
        1,
        ttl,
        msg_id,
        0,
        true,
        seq![],
        seq![],
    );
    assert(frame + Seq::<u8>::empty() =~= frame);
    assert(empty + Seq::<u8>::empty() =~= empty);
}

/// A frame of a link goes from its source to its destination, by its protocol.
pub proof fn law_link_builds_frames(
    link: &Link,
    chan: u8,
    ttl: u8,
    msg_id: u16,
    frag_idx: u16,
    last: bool,
    payload: &[u8],
    out: Vec<u8>,
    f: Vec<u8>,
)
    requires
        call_ensures(Link::frame, (link, chan, ttl, msg_id, frag_idx, last, payload), out),
        call_ensures(
            l2::build_frag,
            (
                &link.dst_mac,
                &link.src_mac,
                link.ethertype,
                chan,
                ttl,
                msg_id,
                frag_idx,
                last,
                payload,
            ),
            f,
        ),
    ensures
        out@ == f@,
{
}

/// A message is cut into pieces of 1474 bytes, the last of which may be shorter. Each is sent with
/// its number, and only the last is marked as the last.
pub proof fn law_message_is_cut(
    link: &Link,
    chan: u8,
    ttl: u8,
    msg_id: u16,
    message: &[u8],
    frames: Vec<Vec<u8>>,
    k: int,
    part: &[u8],
    f: Vec<u8>,
)
    requires
        call_ensures(Link::fragments, (link, chan, ttl, msg_id, message), frames),
        0 <= k,
        1474 * k < message@.len(),
        part@ == message@.subrange(
            1474 * k,
            if 1474 * k + 1474 < message@.len() {
                1474 * k + 1474
            } else {
                message@.len() as int
            },
        ),
        call_ensures(
            l2::build_frag,
            (
                &link.dst_mac,
                &link.src_mac,
                link.ethertype,
                chan,
                ttl,
                msg_id,
                (k % 65536) as u16,
                1474 * k + 1474 >= message@.len(),
                part,
            ),
            f,
        ),
    ensures
        k < frames@.len(),
        frames@[k]@ == f@,
        1474 * (frames@.len() - 1) < message@.len() <= 1474 * frames@.len(),
{
    assert(part@ == fragment(message@, k));
}

/// An empty message has no fragments.
pub proof fn law_empty_message_is_not_sent(
    link: &Link,
    chan: u8,
    ttl: u8,
    msg_id: u16,
    message: &[u8],
    frames: Vec<Vec<u8>>,
)
    requires
        call_ensures(Link::fragments, (link, chan, ttl, msg_id, message), frames),
        message@.len() == 0,
    ensures
        frames@.len() == 0,
{
}

/// A fragment is put behind what is held if it is the next of the message; that of another message,
/// or a first one, begins anew. One that is not the next is dropped, and one that makes the message
/// too long throws it away.
pub proof fn law_fragment_is_taken(
    r: &mut Reassembler,
    msg_id: u16,
    frag_idx: u16,
    payload: &[u8],
    overflow: bool,
)
    requires
        call_ensures(Reassembler::accept, (r, msg_id, frag_idx, payload), overflow),
    ensures
        ({
            let h = old(r).held();
            let g = final(r).held();
            let anew = h.id != msg_id || frag_idx == 0;
            let data = if anew {
                Seq::<u8>::empty()
            } else {
                h.data
            };
            let next = if anew {
                0
            } else {
                h.next as int
            };
            &&& g.id == msg_id
            &&& g.max == h.max
            &&& if frag_idx != next {
                !overflow && g.data == data && g.next == next
            } else if data.len() + payload@.len() > h.max {
                overflow && g.data.len() == 0 && g.next == 0
            } else {
                !overflow && g.data == data + payload@ && g.next == (next + 1) % 65536
            }
        }),
{
}

/// What is held is handed out once; the message and the fragment that come next stay the same.
pub proof fn law_held_is_handed_out(r: &mut Reassembler, data: Vec<u8>)
    requires
        call_ensures(Reassembler::take, (r,), data),
    ensures
        data@ == old(r).held().data,
        final(r).held().data.len() == 0,
        final(r).held().id == old(r).held().id,
        final(r).held().next == old(r).held().next,
        final(r).held().max == old(r).held().max,
{
}

/// At first nothing is held.
pub proof fn law_reassembly_begins_empty(max: usize, r: Reassembler)
    requires
        call_ensures(Reassembler::new, (max,), r),
    ensures
        r.held().data.len() == 0,
        r.held().id == 0,
        r.held().next == 0,
        r.held().max == max,
{
}

/// What does not belong to a message, be it of another channel or no good frame, leaves what is held
/// of a message alone, and is answered with nothing. A frame of channel 1 makes a self-test pass,
/// once.
pub proof fn law_other_frames_leave_messages_alone(
    b: &mut L2Bridge,
    rx: &[u8],
    act: Reaction,
    f: Frame,
)
    requires
        call_ensures(L2Bridge::from_link, (b, rx), act),
        call_ensures(l2::parse_frame, (rx, b.cfg.ethertype), f),
        f matches Frame::Fragment { chan, .. } ==> chan != 0,
    ensures
        final(b).reasm.held() == old(b).reasm.held(),
        act.publish is None,
        act.acks@.len() == 0,
        act.good <==> f is Fragment,
        act.pass <==> (f matches Frame::Fragment { chan, .. } && chan == 1) && old(b).self_test
            && !old(b).passed,
{
}

/// A fragment is taken, and if it is marked as the last, and does not make the message too long, the
/// message is published as far as it is held, and sent back on channel 1 with one hop less; an empty
/// one is not published, and sent back as one empty frame.
pub proof fn law_message_is_published_with_its_last_fragment(
    b: &mut L2Bridge,
    rx: &[u8],
    act: Reaction,
    f: Frame,
    r: &mut Reassembler,
    payload: &[u8],
    overflow: bool,
    t: u8,
    message: &[u8],
    acks: Vec<Vec<u8>>,
    empty: &[u8],
    empty_ack: Vec<u8>,
)
    requires
        call_ensures(L2Bridge::from_link, (b, rx), act),
        call_ensures(l2::parse_frame, (rx, b.cfg.ethertype), f),
        f matches Frame::Fragment { chan, payload: p, .. } && chan == 0 && p@ == payload@,
        r.held() == b.reasm.held(),
        call_ensures(Reassembler::accept, (r, f->msg_id, f->frag_idx, payload), overflow),
        call_ensures(usb_bridge::hop, (f->ttl,), t),
        message@ == final(r).held().data,
        call_ensures(Link::fragments, (&b.link, 1u8, t, f->msg_id, message), acks),
        empty@.len() == 0,
        call_ensures(Link::frame, (&b.link, 1u8, t, f->msg_id, 0u16, true, empty), empty_ack),
    ensures
        ({
            let last = f->flags / 2 % 2 == 1;
            &&& act.good
            &&& !act.pass
            &&& final(b).reasm.held().id == final(r).held().id
            &&& final(b).reasm.held().next == final(r).held().next
            &&& final(b).reasm.held().max == final(r).held().max
            &&& if overflow || !last {
                &&& act.publish is None
                &&& act.acks@.len() == 0
                &&& final(b).reasm.held().data == final(r).held().data
            } else if message@.len() == 0 {
                &&& act.publish is None
                &&& act.acks@.len() == 1
                &&& act.acks@[0]@ == empty_ack@
                &&& final(b).reasm.held().data.len() == 0
            } else {
                &&& act.publish is Some
                &&& act.publish->0@ == message@
                &&& act.acks@.len() == acks@.len()
                &&& forall|k: int|
                    0 <= k < acks@.len() ==> (#[trigger] act.acks@[k])@ == acks@[k]@
                &&& final(b).reasm.held().data.len() == 0
            }
        }),
{
    let flags = f->flags;
    assert((flags & FLAG_LAST != 0) == (flags / 2 % 2 == 1)) by (bit_vector);
    assert(empty@ =~= Seq::<u8>::empty());
}

/// What is counted of received frames: those that are too short, of another protocol, with a wrong
/// checksum, and those that make a message too long, each on its own; nothing else of the bridge
/// changes but what is held of a message, and that it has passed.
pub proof fn law_received_frames_are_counted(
    b: &mut L2Bridge,
    rx: &[u8],
    act: Reaction,
    f: Frame,
    r: &mut Reassembler,
    payload: &[u8],
    overflow: bool,
)
    requires
        b.counters.can_count(),
        call_ensures(L2Bridge::from_link, (b, rx), act),
        call_ensures(l2::parse_frame, (rx, b.cfg.ethertype), f),
        f matches Frame::Fragment { payload: p, .. } ==> p@ == payload@,
        r.held() == b.reasm.held(),
        f is Fragment ==> call_ensures(
            Reassembler::accept,
            (r, f->msg_id, f->frag_idx, payload),
            overflow,
        ),
    ensures
        ({
            let c = old(b).counters;
            let d = final(b).counters;
            &&& d.short_frame - c.short_frame == if f is Short {
                1int
            } else {
                0
            }
            &&& d.wrong_ethertype - c.wrong_ethertype == if f is WrongEthertype {
                1int
            } else {
                0
            }
            &&& d.crc_fail - c.crc_fail == if f is BadCrc {
                1int
            } else {
                0
            }
            &&& d.reasm_reset - c.reasm_reset == if f is Fragment && f->chan == 0 && overflow {
                1int
            } else {
                0
            }
            &&& d.tx_frag == c.tx_frag
            &&& d.tx_bytes == c.tx_bytes
        }),
        final(b).passed <==> old(b).passed || act.pass,
        final(b).link == old(b).link,
        final(b).cfg == old(b).cfg,
        final(b).self_test == old(b).self_test,
        final(b).msg_id == old(b).msg_id,
        final(b).ticks == old(b).ticks,
{
}

/// A message of the bus is sent on channel 0 with one hop less than the limit of the bridge, under
/// the next message number; nothing else of the bridge changes.
pub proof fn law_bus_message_is_sent(
    b: &mut L2Bridge,
    message: &[u8],
    frames: Vec<Vec<u8>>,
    t: u8,
    same: Vec<Vec<u8>>,
)
    requires
        call_ensures(L2Bridge::from_bus, (b, message), frames),
        call_ensures(usb_bridge::hop, (b.cfg.ttl,), t),
        call_ensures(Link::fragments, (&b.link, 0u8, t, b.msg_id, message), same),
    ensures
        frames@.len() == same@.len(),
        forall|k: int| 0 <= k < same@.len() ==> (#[trigger] frames@[k])@ == same@[k]@,
        final(b).msg_id == (old(b).msg_id + 1) % 65536,
        final(b).link == old(b).link,
        final(b).cfg == old(b).cfg,
        final(b).reasm == old(b).reasm,
        final(b).self_test == old(b).self_test,
        final(b).passed == old(b).passed,
        final(b).ticks == old(b).ticks,
        final(b).counters == old(b).counters,
{
}

/// Every frame that was sent is counted, with its bytes, as far as the counters go.
pub proof fn law_sent_frames_are_counted(b: &mut L2Bridge, n: u64)
    requires
        call_ensures(L2Bridge::sent, (b, n), ()),
    ensures
        ({
            let c = old(b).counters;
            let d = final(b).counters;
            &&& c.tx_frag < u64::MAX ==> d.tx_frag == c.tx_frag + 1
            &&& c.tx_frag == u64::MAX ==> d.tx_frag == u64::MAX
            &&& c.tx_bytes + n <= u64::MAX ==> d.tx_bytes == c.tx_bytes + n
            &&& c.tx_bytes + n > u64::MAX ==> d.tx_bytes == u64::MAX
            &&& d.short_frame == c.short_frame
            &&& d.wrong_ethertype == c.wrong_ethertype
            &&& d.crc_fail == c.crc_fail
            &&& d.reasm_reset == c.reasm_reset
        }),
        final(b).link == old(b).link,
        final(b).cfg == old(b).cfg,
        final(b).reasm == old(b).reasm,
        final(b).self_test == old(b).self_test,
        final(b).passed == old(b).passed,
        final(b).msg_id == old(b).msg_id,
        final(b).ticks == old(b).ticks,
{
}

/// A new bridge has counted and sent nothing, and numbers its messages from 1 on.
pub proof fn law_l2_bridge_begins(
    cfg: Cfg,
    dst_mac: [u8; 6],
    src_mac: [u8; 6],
    self_test: bool,
    b: L2Bridge,
)
    requires
        call_ensures(L2Bridge::new, (cfg, dst_mac, src_mac, self_test), b),
    ensures
        b.link.dst_mac@ == dst_mac@,
        b.link.src_mac@ == src_mac@,
        b.link.ethertype == cfg.ethertype,
        b.cfg == cfg,
        b.reasm.held().data.len() == 0,
        b.reasm.held().max == cfg.max_frame,
        b.self_test == self_test,
        !b.passed,
        b.msg_id == 1,
        b.ticks == 0,
        b.counters.short_frame == 0,
        b.counters.wrong_ethertype == 0,
        b.counters.crc_fail == 0,
        b.counters.reasm_reset == 0,
        b.counters.tx_frag == 0,
        b.counters.tx_bytes == 0,
{
}

/// The probe is the text `MBUS-L2-PROBE`.
pub proof fn law_l2_probe_text(v: Vec<u8>)
    requires
        call_ensures(probe_bytes, (), v),
    ensures
        v@ == seq![77u8, 66, 85, 83, 45, 76, 50, 45, 80, 82, 79, 66, 69],
{
}

/// A self-test begins with a probe on the bus and one on the link. Later it sends one in every 4096th
/// turn, until it has passed. Each is one frame on channel 0, with the hop limit of the bridge and
/// the next message number.
pub proof fn law_l2_self_test_sends_probes(
    b: &mut L2Bridge,
    begin: Option<(Vec<u8>, Vec<u8>)>,
    c: &mut L2Bridge,
    turn: Option<Vec<u8>>,
    probe: &[u8],
    f: Vec<u8>,
)
    requires
        call_ensures(L2Bridge::start, (b,), begin),
        *c == *b,
        call_ensures(L2Bridge::tick, (c,), turn),
        probe@ == seq![77u8, 66, 85, 83, 45, 76, 50, 45, 80, 82, 79, 66, 69],
        call_ensures(Link::frame, (&b.link, 0u8, b.cfg.ttl, b.msg_id, 0u16, true, probe), f),
    ensures
        begin is Some <==> old(b).self_test,
        begin is Some ==> (begin->0).0@ == probe@ && (begin->0).1@ == f@ && *final(b) == (L2Bridge {
            msg_id: ((old(b).msg_id + 1) % 65536) as u16,
            ..*old(b)
        }),
        begin is None ==> *final(b) == *old(b),
        old(c).self_test && !old(c).passed ==> {
            let now = (old(c).ticks + 1) % 0x1_0000_0000;
            &&& final(c).ticks == now
            &&& turn is Some <==> now % 4096 == 0
            &&& turn is Some ==> turn->0@ == f@ && *final(c) == (L2Bridge {
                ticks: now as u32,
                msg_id: ((old(c).msg_id + 1) % 65536) as u16,
                ..*old(c)
            })
            &&& turn is None ==> *final(c) == (L2Bridge { ticks: now as u32, ..*old(c) })
        },
        !old(c).self_test || old(c).passed ==> turn is None && *final(c) == *old(c),
{
    assert(probe@ =~= self::probe());
}

/// Whether `all` holds, at the rising places `at`, the frames that carry a message, and elsewhere
/// only what is not of channel 0.
pub open spec fn woven(
    all: Seq<Seq<u8>>,
    at: Seq<int>,
    frames: Seq<Seq<u8>>,
    ethertype: u16,
) -> bool {
    &&& at.len() == frames.len()
    &&& forall|k: int| 0 <= k < at.len() ==> 0 <= #[trigger] at[k] < all.len() && all[at[k]]
        == frames[k]
    &&& forall|j: int, k: int| 0 <= j < k < at.len() ==> #[trigger] at[j] < #[trigger] at[k]
    &&& forall|i: int|
        0 <= i < all.len() && !at.contains(i) ==> match l2::parse(#[trigger] all[i], ethertype) {
            FrameView::Fragment { chan, .. } => chan != 0,
            _ => true,
        }
}

proof fn lemma_held_among_others(
    h: Held,
    link: Link,
    ttl: u8,
    msg_id: u16,
    message: Seq<u8>,
    all: Seq<Seq<u8>>,
    at: Seq<int>,
    k: int,
    i: int,
)
    requires
        0 < message.len() <= h.max,
        fragment_count(message.len() as int) <= 65536,
        woven(all, at, message_frames(link.eth(), ttl, msg_id, message), link.ethertype),
        0 <= k < at.len(),
        0 <= i <= at[k],
        k > 0 ==> at[k - 1] < i,
    ensures
        ready(held_after(h, all, link.ethertype, i), h.max, msg_id, message, k),
    decreases i,
{
    let frames = message_frames(link.eth(), ttl, msg_id, message);
    if i > 0 {
        let g = held_after(h, all, link.ethertype, i - 1);
        if k > 0 && at[k - 1] == i - 1 {
            lemma_held_among_others(h, link, ttl, msg_id, message, all, at, k - 1, i - 1);
            assert(all[i - 1] == frames[k - 1]);
            lemma_fragment_parses(link, ttl, msg_id, message, k - 1);
            lemma_fragment_fits(g, h.max, msg_id, message, k - 1);
            assert(1u8 & FLAG_LAST == 0) by (bit_vector);
        } else {
            lemma_held_among_others(h, link, ttl, msg_id, message, all, at, k, i - 1);
            assert(!at.contains(i - 1)) by {
                if at.contains(i - 1) {
                    let j = choose|j: int| 0 <= j < at.len() && at[j] == i - 1;
                    assert(at[j] == i - 1);
                    if j < k - 1 {
                        assert(at[j] < at[k - 1]);
                    } else if j > k {
                        assert(at[k] < at[j]);
                    }
                }
            }
            assert(held_after(h, all, link.ethertype, i) == g) by {
                assert(all[i - 1] == all[i - 1]);
            }
        }
    }
}

/// A message that is cut into frames by one bridge is put together by the other, also when
/// acknowledgements, frames of other protocols and damaged ones come in between: it is passed on,
/// whole, with its last frame and not before.
pub proof fn law_message_crosses_among_others(
    h: Held,
    link: Link,
    ttl: u8,
    msg_id: u16,
    message: Seq<u8>,
    all: Seq<Seq<u8>>,
    at: Seq<int>,
    k: int,
)
    requires
        0 < message.len() <= h.max,
        fragment_count(message.len() as int) <= 65536,
        woven(all, at, message_frames(link.eth(), ttl, msg_id, message), link.ethertype),
        0 <= k < at.len(),
    ensures
        ({
            let g = held_after(h, all, link.ethertype, at[k]);
            let f = l2::parse(all[at[k]], link.ethertype);
            &&& rx_ends(g, f) <==> k == at.len() - 1
            &&& rx_ends(g, f) ==> rx_message(g, f) == message
        }),
{
    let frames = message_frames(link.eth(), ttl, msg_id, message);
    let g = held_after(h, all, link.ethertype, at[k]);
    if k > 0 {
        assert(at[k - 1] < at[k]);
    }
    lemma_held_among_others(h, link, ttl, msg_id, message, all, at, k, at[k]);
    assert(all[at[k]] == frames[k]);
    lemma_fragment_parses(link, ttl, msg_id, message, k);
    lemma_fragment_fits(g, h.max, msg_id, message, k);
    law_fragments_make_up_the_message(message, k);
    assert(1u8 & FLAG_LAST == 0) by (bit_vector);
    assert(3u8 & FLAG_LAST != 0) by (bit_vector);
    assert(message.take(message.len() as int) =~= message);
}

/// The bytes of each of `frames`.
pub open spec fn contents(frames: Seq<Vec<u8>>) -> Seq<Seq<u8>> {
    Seq::new(frames.len(), |k: int| frames[k]@)
}

/// The bytes of each of `rx`.
pub open spec fn received_bytes(rx: Seq<&[u8]>) -> Seq<Seq<u8>> {
    Seq::new(rx.len(), |k: int| rx[k]@)
}

proof fn lemma_run(
    calls: Seq<&mut L2Bridge>,
    rx: Seq<&[u8]>,
    acts: Seq<Reaction>,
    ethertype: u16,
    i: int,
)
    requires
        calls.len() == acts.len() == rx.len(),
        calls[0].cfg.ethertype == ethertype,
        forall|j: int|
            0 <= j < calls.len() ==> call_ensures(
                L2Bridge::from_link,
                (#[trigger] calls[j], rx[j]),
                acts[j],
            ),
        forall|j: int|
            #![trigger calls[j]]
            0 <= j < calls.len() - 1 ==> *calls[j + 1] == *final(calls[j]),
        0 <= i < calls.len(),
    ensures
        calls[i].cfg.ethertype == ethertype,
        calls[i].reasm.held() == held_after(
            calls[0].reasm.held(),
            received_bytes(rx),
            ethertype,
            i,
        ),
    decreases i,
{
    if i > 0 {
        lemma_run(calls, rx, acts, ethertype, i - 1);
        assert(call_ensures(L2Bridge::from_link, (calls[i - 1], rx[i - 1]), acts[i - 1]));
        assert(*calls[i - 1 + 1] == *final(calls[i - 1]));
    }
}

/// A message that one end of a link sends crosses it: whatever else is received in between, so long
/// as it belongs to no message, the bridge at the other end publishes the message, whole, when the
/// last of its frames is there, and publishes nothing else.
pub proof fn law_message_is_published_at_the_other_end(
    link: Link,
    ttl: u8,
    msg_id: u16,
    message: &[u8],
    frames: Vec<Vec<u8>>,
    at: Seq<int>,
    calls: Seq<&mut L2Bridge>,
    rx: Seq<&[u8]>,
    acts: Seq<Reaction>,
    i: int,
)
    requires
        call_ensures(Link::fragments, (&link, 0u8, ttl, msg_id, message), frames),
        0 < message@.len() <= calls[0].reasm.held().max,
        message@.len() <= 1474 * 65536,
        woven(received_bytes(rx), at, contents(frames@), link.ethertype),
        calls.len() == acts.len() == rx.len(),
        calls[0].cfg.ethertype == link.ethertype,
        forall|j: int|
            0 <= j < calls.len() ==> call_ensures(
                L2Bridge::from_link,
                (#[trigger] calls[j], rx[j]),
                acts[j],
            ),
        forall|j: int|
            #![trigger calls[j]]
            0 <= j < calls.len() - 1 ==> *calls[j + 1] == *final(calls[j]),
        0 <= i < calls.len(),
    ensures
        at.len() > 0,
        acts[i].publish is Some <==> i == at.last(),
        i == at.last() ==> acts[i].publish->0@ == message@,
{
    let h = calls[0].reasm.held();
    let all = received_bytes(rx);
    assert(contents(frames@) =~= message_frames(link.eth(), ttl, msg_id, message@));
    lemma_run(calls, rx, acts, link.ethertype, i);
    assert(call_ensures(L2Bridge::from_link, (calls[i], rx[i]), acts[i]));
    assert(all[i] == rx[i]@);
    if at.contains(i) {
        let k = choose|k: int| 0 <= k < at.len() && at[k] == i;
        law_message_crosses_among_others(h, link, ttl, msg_id, message@, all, at, k);
        if k < at.len() - 1 {
            assert(at[k] < at[at.len() - 1]);
        }
    } else {
        assert(at.last() == at[at.len() - 1]);
    }
}

} // verus!
