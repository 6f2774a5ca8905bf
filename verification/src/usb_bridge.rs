//! The bridge between a bus and a usb-sim link: what it sends and does on each event.
//!
//! Channel 0 carries messages, channel 1 acknowledges them by sending them back.

use crate::usbsim;
use crate::usbsim::{Cfg, RxErr};
use vstd::prelude::*;

verus! {

/// The sequence number of acknowledgements.
pub const ACK_SEQ: u32 = 0xB000_0000;

/// The message `MBUS-PROBE`, by which a bridge tests its link.
pub open spec fn probe() -> Seq<u8> {
    seq![0x4Du8, 0x42, 0x55, 0x53, 0x2D, 0x50, 0x52, 0x4F, 0x42, 0x45]
}

pub fn probe_bytes() -> (v: Vec<u8>)
    ensures
        v@ == probe(),
{
    let v: Vec<u8> = vec![0x4Du8, 0x42, 0x55, 0x53, 0x2D, 0x50, 0x52, 0x4F, 0x42, 0x45];
    assert(v@ =~= probe());
    v
}

/// The hop limit of an answer.
pub open spec fn one_hop_less(ttl: u8) -> u8 {
    if ttl > 0 {
        (ttl - 1) as u8
    } else {
        0
    }
}

pub fn hop(ttl: u8) -> (t: u8)
    ensures
        t == one_hop_less(ttl),
{
    if ttl > 0 {
        ttl - 1
    } else {
        0
    }
}

/// The number that follows `x`, and after the last the first.
pub open spec fn following(x: u32) -> u32 {
    if x == u32::MAX {
        0
    } else {
        (x + 1) as u32
    }
}

/// The payload bytes of a slot, or, as an error, that they are too few for `max_frame`.
pub fn slot_share(desc: usize, slab: usize, max_frame: usize) -> (r: Result<usize, usize>)
    requires
        desc > 0,
    ensures
        r is Ok <==> slab as int / desc as int >= max_frame,
        r matches Ok(n) ==> n == slab as int / desc as int,
        r matches Err(n) ==> n == slab as int / desc as int,
{
    let slot_bytes: usize = slab / desc;
    if slot_bytes < max_frame {
        Err(slot_bytes)
    } else {
        Ok(slot_bytes)
    }
}

/// Why reading or writing failed.
#[derive(Clone, Copy, Debug, PartialEq, Eq)]
pub enum Fault {
    /// Nothing can be read or written just now.
    WouldBlock,
    /// The peer has gone: end of file, broken pipe, connection reset.
    Closed,
    Other,
}

/// Whether the bridge goes on after a frame could not be read; `fault` says why the stream could
/// not be.
pub fn goes_on_after_read(e: RxErr, fault: Fault) -> (b: bool)
    ensures
        b == (e !is Io || fault is WouldBlock),
{
    match e {
        RxErr::Io => matches!(fault, Fault::WouldBlock),
        RxErr::BadVersion => true,
        RxErr::LenTooBig => true,
        RxErr::BadCrc => true,
    }
}

/// Whether the bridge goes on after a frame could not be written.
pub fn goes_on_after_write(fault: Fault) -> (b: bool)
    ensures
        b == (fault !is Closed),
{
    !matches!(fault, Fault::Closed)
}

/// What a bridge does about the link when it starts.
pub enum Start {
    Nothing,
    /// Publish this on the bus.
    Publish(Vec<u8>),
    /// Send this frame.
    Send(Vec<u8>),
}

/// What a bridge does about a frame that it has received.
pub struct Reaction {
    /// Publish the payload on the bus, if there is one.
    pub publish: bool,
    /// Send this frame back.
    pub ack: Option<Vec<u8>>,
    /// Report that the link works.
    pub pass: bool,
}

/// A bridge between a bus and a usb-sim link.
pub struct UsbBridge {
    pub cfg: Cfg,
    /// The payload bytes of a slot of the bus.
    pub slot_bytes: usize,
    pub self_test: bool,
    /// Whether it was reported that the link works.
    pub passed: bool,
    /// The sequence number of the next frame.
    pub seq: u32,
    pub ticks: u32,
}

impl UsbBridge {
    pub fn new(cfg: Cfg, slot_bytes: usize, self_test: bool) -> (b: UsbBridge)
        ensures
            b == (UsbBridge { cfg, slot_bytes, self_test, passed: false, seq: 0, ticks: 0 }),
    {
        UsbBridge { cfg, slot_bytes, self_test, passed: false, seq: 0, ticks: 0 }
    }

    /// The bridge after it has used a sequence number.
    pub open spec fn after_frame(self) -> UsbBridge {
        UsbBridge { seq: following(self.seq), ..self }
    }

    /// What to do at the start: a self-test publishes a probe on the bus or, without a bus, sends
    /// one over the link.
    pub fn start(&mut self, has_bus: bool) -> (act: Start)
        ensures
            if !old(self).self_test {
                act is Nothing && *final(self) == *old(self)
            } else if has_bus {
                &&& act matches Start::Publish(message) && message@ == probe()
                &&& *final(self) == *old(self)
            } else {
                &&& act matches Start::Send(frame) && frame@ == usbsim::frame(
                    0,
                    old(self).cfg.ttl,
                    old(self).seq,
                    probe(),
                )
                &&& *final(self) == old(self).after_frame()
            },
    {
        if !self.self_test {
            return Start::Nothing;
        }
        let message = probe_bytes();
        if has_bus {
            return Start::Publish(message);
        }
        let frame = usbsim::write_frame(0, self.cfg.ttl, self.seq, message.as_slice());
        self.seq = self.seq.wrapping_add(1);
        Start::Send(frame)
    }

    /// What to send on a turn of the loop: in every 4096th turn of a self-test that has not passed
    /// yet, a probe.
    pub fn tick(&mut self) -> (act: Option<Vec<u8>>)
        ensures
            ({
                let now = following(old(self).ticks);
                if old(self).self_test && !old(self).passed && now % 4096 == 0 {
                    &&& act matches Some(frame) && frame@ == usbsim::frame(
                        0,
                        old(self).cfg.ttl,
                        old(self).seq,
                        probe(),
                    )
                    &&& *final(self) == (UsbBridge { ticks: now, ..old(self).after_frame() })
                } else {
                    &&& act is None
                    &&& *final(self) == (UsbBridge { ticks: now, ..*old(self) })
                }
            }),
    {
        self.ticks = self.ticks.wrapping_add(1);
        if self.self_test && !self.passed && self.ticks % 4096 == 0 {
            let message = probe_bytes();
            let frame = usbsim::write_frame(0, self.cfg.ttl, self.seq, message.as_slice());
            self.seq = self.seq.wrapping_add(1);
            Some(frame)
        } else {
            None
        }
    }

    /// The frame for a message that was received from the bus.
    pub fn from_bus(&mut self, message: &[u8]) -> (frame: Vec<u8>)
        ensures
            frame@ == usbsim::frame(0, old(self).cfg.ttl, old(self).seq, message@),
            *final(self) == old(self).after_frame(),
    {
        let frame = usbsim::write_frame(0, self.cfg.ttl, self.seq, message);
        self.seq = self.seq.wrapping_add(1);
        frame
    }

    /// What to do about a frame that was received from the link.
    pub fn from_link(&mut self, chan: u8, ttl: u8, payload: &[u8]) -> (act: Reaction)
        ensures
            act.publish <==> chan == 0 && payload@.len() <= old(self).slot_bytes,
            act.ack is Some <==> chan == 0,
            act.ack matches Some(frame) ==> frame@ == usbsim::frame(
                1,
                one_hop_less(ttl),
                ACK_SEQ,
                payload@,
            ),
            act.pass <==> chan == 1 && old(self).self_test && !old(self).passed,
            *final(self) == (UsbBridge { passed: old(self).passed || act.pass, ..*old(self) }),
    {
        if chan == 0 {
            let ack = usbsim::write_frame(1, hop(ttl), ACK_SEQ, payload);
            Reaction { publish: payload.len() <= self.slot_bytes, ack: Some(ack), pass: false }
        } else if chan == 1 && self.self_test && !self.passed {
            self.passed = true;
            Reaction { publish: false, ack: None, pass: true }
        } else {
            Reaction { publish: false, ack: None, pass: false }
        }
    }
}

/// What one bridge sends for a message of the bus, the other reads as that message; and what the
/// other sends back for it, the first reads as an acknowledgement.
pub proof fn law_message_crosses_the_link(
    ttl: u8,
    seq: u32,
    message: Seq<u8>,
    rest: Seq<u8>,
    max_frame: nat,
)
    requires
        message.len() <= max_frame,
        message.len() < 0x1_0000,
    ensures
        usbsim::parse(usbsim::frame(0, ttl, seq, message) + rest, max_frame) == (
        usbsim::Outcome::Whole {
            used: message.len() + 14,
            chan: 0,
            ttl,
            seq,
            payload: message,
        }),
        usbsim::parse(
            usbsim::frame(1, one_hop_less(ttl), ACK_SEQ, message) + rest,
            max_frame,
        ) == (usbsim::Outcome::Whole {
            used: message.len() + 14,
            chan: 1,
            ttl: one_hop_less(ttl),
            seq: ACK_SEQ,
            payload: message,
        }),
{
    usbsim::law_frame_reads_back(0, ttl, seq, message, rest, max_frame);
    usbsim::law_frame_reads_back(1, one_hop_less(ttl), ACK_SEQ, message, rest, max_frame);
}

/// One hop is taken off, as long as there is one.
pub proof fn law_hops_are_counted_down(ttl: u8, t: u8)
    requires
        call_ensures(hop, (ttl,), t),
    ensures
        ttl > 0 ==> t + 1 == ttl,
        ttl == 0 ==> t == 0,
{
}

/// The slots get equal shares of the slab, as great as can be; they are refused if a frame does not
/// fit into one.
pub proof fn law_slab_is_shared_out(
    desc: usize,
    slab: usize,
    max_frame: usize,
    r: Result<usize, usize>,
)
    requires
        desc > 0,
        call_ensures(slot_share, (desc, slab, max_frame), r),
    ensures
        ({
            let n = match r {
                Ok(n) => n as int,
                Err(n) => n as int,
            };
            &&& n * desc <= slab < (n + 1) * desc
            &&& r is Ok <==> max_frame <= n
        }),
{
    let n = slab as int / desc as int;
    vstd::arithmetic::div_mod::lemma_fundamental_div_mod(slab as int, desc as int);
    vstd::arithmetic::div_mod::lemma_mod_bound(slab as int, desc as int);
    assert(n * desc <= slab < (n + 1) * desc) by (nonlinear_arith)
        requires
            slab as int == desc as int * n + slab as int % desc as int,
            0 <= slab as int % (desc as int) < desc,
    ;
}

/// A bridge goes on after a frame that it cannot use, and when nothing can be read or written just
/// now; it ends when the peer has gone, and when the stream cannot be read for another reason.
pub proof fn law_bridge_ends_with_its_peer(e: RxErr, fault: Fault, read: bool, write: bool)
    requires
        call_ensures(goes_on_after_read, (e, fault), read),
        call_ensures(goes_on_after_write, (fault,), write),
    ensures
        e is LenTooBig || e is BadCrc || e is BadVersion ==> read,
        e is Io ==> (read <==> fault is WouldBlock),
        fault is Closed ==> !write,
        fault is WouldBlock || fault is Other ==> write,
{
}

/// The probe is the text `MBUS-PROBE`.
pub proof fn law_probe_text(v: Vec<u8>)
    requires
        call_ensures(probe_bytes, (), v),
    ensures
        v@ == seq![77u8, 66, 85, 83, 45, 80, 82, 79, 66, 69],
{
}

/// A new bridge has sent nothing and passed nothing.
pub proof fn law_bridge_begins(cfg: Cfg, slot_bytes: usize, self_test: bool, b: UsbBridge)
    requires
        call_ensures(UsbBridge::new, (cfg, slot_bytes, self_test), b),
    ensures
        b.cfg.ttl == cfg.ttl,
        b.cfg.max_frame == cfg.max_frame,
        b.slot_bytes == slot_bytes,
        b.self_test == self_test,
        !b.passed,
        b.seq == 0,
        b.ticks == 0,
{
}

/// A message of the bus is sent as a frame on channel 0, with the hop limit of the bridge and the
/// next sequence number; nothing else of the bridge changes.
pub proof fn law_bus_message_is_framed(b: &mut UsbBridge, message: &[u8], frame: Vec<u8>, f: Vec<u8>)
    requires
        call_ensures(UsbBridge::from_bus, (b, message), frame),
        call_ensures(usbsim::write_frame, (0u8, b.cfg.ttl, b.seq, message), f),
    ensures
        frame@ == f@,
        final(b).seq == (old(b).seq + 1) % 0x1_0000_0000,
        final(b).ticks == old(b).ticks,
        final(b).passed == old(b).passed,
        final(b).self_test == old(b).self_test,
        final(b).slot_bytes == old(b).slot_bytes,
        final(b).cfg == old(b).cfg,
{
}

/// What is received on channel 0 is sent back as it came, on channel 1 with one hop less, and is
/// published if a slot can hold it. What is received on channel 1 makes a self-test pass, once. On
/// other channels nothing happens. The numbers of the frames that the bridge sends do not change.
pub proof fn law_link_message_is_acknowledged(
    b: &mut UsbBridge,
    chan: u8,
    ttl: u8,
    payload: &[u8],
    act: Reaction,
    t: u8,
    f: Vec<u8>,
)
    requires
        call_ensures(UsbBridge::from_link, (b, chan, ttl, payload), act),
        call_ensures(hop, (ttl,), t),
        call_ensures(usbsim::write_frame, (1u8, t, 0xB000_0000u32, payload), f),
    ensures
        chan == 0 ==> act.ack is Some && act.ack->0@ == f@ && !act.pass && (act.publish
            <==> payload@.len() <= old(b).slot_bytes),
        chan == 1 ==> act.ack is None && !act.publish && (act.pass <==> old(b).self_test && !old(
            b).passed),
        chan > 1 ==> act.ack is None && !act.publish && !act.pass,
        final(b).passed <==> old(b).passed || act.pass,
        final(b).seq == old(b).seq,
        final(b).ticks == old(b).ticks,
        final(b).self_test == old(b).self_test,
        final(b).slot_bytes == old(b).slot_bytes,
        final(b).cfg == old(b).cfg,
{
}

/// Every 4096th turn of a self-test that has not passed sends a probe, with the next sequence
/// number; no other turn sends anything.
pub proof fn law_probe_is_repeated(b: &mut UsbBridge, act: Option<Vec<u8>>, probe: &[u8], f: Vec<u8>)
    requires
        call_ensures(UsbBridge::tick, (b,), act),
        probe@ == seq![77u8, 66, 85, 83, 45, 80, 82, 79, 66, 69],
        call_ensures(usbsim::write_frame, (0u8, b.cfg.ttl, b.seq, probe), f),
    ensures
        final(b).ticks == (old(b).ticks + 1) % 0x1_0000_0000,
        act is Some <==> old(b).self_test && !old(b).passed && final(b).ticks % 4096 == 0,
        act is Some ==> act->0@ == f@ && final(b).seq == (old(b).seq + 1) % 0x1_0000_0000,
        act is None ==> final(b).seq == old(b).seq,
        final(b).passed == old(b).passed,
        final(b).self_test == old(b).self_test,
        final(b).slot_bytes == old(b).slot_bytes,
        final(b).cfg == old(b).cfg,
{
    assert(probe@ =~= self::probe());
}

/// A self-test begins with a probe: on the bus if there is one, and else on the link, with the next
/// sequence number.
pub proof fn law_self_test_begins_with_a_probe(
    b: &mut UsbBridge,
    has_bus: bool,
    act: Start,
    probe: &[u8],
    f: Vec<u8>,
)
    requires
        call_ensures(UsbBridge::start, (b, has_bus), act),
        probe@ == seq![77u8, 66, 85, 83, 45, 80, 82, 79, 66, 69],
        call_ensures(usbsim::write_frame, (0u8, b.cfg.ttl, b.seq, probe), f),
    ensures
        !old(b).self_test ==> act is Nothing && *final(b) == *old(b),
        old(b).self_test && has_bus ==> (act matches Start::Publish(m) && m@ == probe@) && *final(b)
            == *old(b),
        old(b).self_test && !has_bus ==> (act matches Start::Send(s) && s@ == f@) && final(b).seq
            == (old(b).seq + 1) % 0x1_0000_0000 && final(b).passed == old(b).passed && final(b).ticks
            == old(b).ticks && final(b).cfg == old(b).cfg && final(b).self_test && final(b).slot_bytes
            == old(b).slot_bytes,
{
    assert(probe@ =~= self::probe());
}

} // verus!
