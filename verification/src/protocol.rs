//! The bus protocol, one shared-memory access at a time.
//!
//! A bus is shared by many producers and subscribers, each of which touches the shared region in
//! single steps: a load, a store, an atomic addition or exchange, or a copy between the region
//! and a private buffer. [`Publish`], [`Receive`] and [`Subscribe`] are the state machines behind
//! the operations of the bus. Each says which [`Access`] comes next and takes the [`Reply`] to
//! it. Whoever owns the region performs the accesses: [`crate::bus`] does so on a slice of bytes,
//! a shared-memory backend with atomic instructions.

use crate::error::BusError;
use crate::layout::{BusView, SlotView, MAX_SUBSCRIBERS};
use crate::pow2;
use vstd::arithmetic::power2;
use vstd::prelude::*;

verus! {

/// One access to the shared region.
#[derive(Clone, Copy, Debug, PartialEq, Eq)]
pub enum Access {
    /// Load the claim sequence.
    LoadClaim,
    /// Add one to the claim sequence; the reply is its value before.
    AddClaim,
    /// Add one to the claim sequence if it is `expected`.
    SwapClaim { expected: u64 },
    /// Load the number of subscribers.
    LoadSubs,
    /// Add one to the number of subscribers; the reply is its value before.
    AddSubs,
    /// Load the write sequence.
    LoadWrite,
    /// Add one to the write sequence if it is `expected`.
    SwapWrite { expected: u64 },
    /// Load the read sequence of a subscriber.
    LoadRead { sub: u32 },
    /// Store the read sequence of a subscriber.
    StoreRead { sub: u32, seq: u64 },
    /// Load the commit sequence of a slot.
    LoadSeq { slot: u64 },
    /// Store the commit sequence of a slot, after all that was stored before.
    StoreSeq { slot: u64, seq: u64 },
    /// Load the message length of a slot.
    LoadLen { slot: u64 },
    /// Store the message length of a slot.
    StoreLen { slot: u64, len: u32 },
    /// Copy the message to be published into the payload area of a slot.
    Fill { slot: u64 },
    /// Copy `len` bytes of the payload area of a slot into the receive buffer.
    Copy { slot: u64, len: u32 },
    /// Let others make progress.
    Yield,
    /// Nothing more: the operation is finished.
    Finish,
}

/// The reply to an access.
#[derive(Clone, Copy, Debug, PartialEq, Eq)]
pub enum Reply {
    /// The value that was loaded, or found before an addition.
    Value(u64),
    /// Whether an exchange took place.
    Swapped(bool),
    /// The access was made and has nothing to report.
    Made,
}

/// `x + 1`, as an atomic addition computes it.
pub open spec fn succ64(x: u64) -> u64 {
    if x == u64::MAX {
        0
    } else {
        (x + 1) as u64
    }
}

pub open spec fn succ32(x: u32) -> u32 {
    if x == u32::MAX {
        0
    } else {
        (x + 1) as u32
    }
}

/// How many of `n` that have subscribed have got a place.
pub open spec fn seats_taken(n: int) -> int {
    if n < MAX_SUBSCRIBERS {
        n
    } else {
        MAX_SUBSCRIBERS as int
    }
}

/// `buf` with its first bytes replaced by `data`.
pub open spec fn overlaid(buf: Seq<u8>, data: Seq<u8>) -> Seq<u8> {
    data + buf.skip(data.len() as int)
}

/// The least of `bound` and the first `n` of `reads`.
pub open spec fn least(reads: Seq<u64>, n: int, bound: u64) -> u64
    decreases n,
{
    if n <= 0 {
        bound
    } else {
        let rest = least(reads, n - 1, bound);
        if reads[n - 1] < rest {
            reads[n - 1]
        } else {
            rest
        }
    }
}

impl BusView {
    /// The slot that sequence number `seq` falls on.
    pub open spec fn slot_of(self, seq: int) -> int {
        seq % self.capacity as int
    }

    /// Whether the slot of `seq` was last committed for `seq`.
    pub open spec fn committed(self, seq: int) -> bool {
        self.slots[self.slot_of(seq)].seq == seq + 1
    }

    /// The parts have the sizes that the header states.
    pub open spec fn shaped(self) -> bool {
        &&& power2::is_pow2(self.capacity as int)
        &&& self.capacity > 0
        &&& self.slot_bytes > 0
        &&& self.slots.len() == self.capacity
        &&& self.read_seq.len() == MAX_SUBSCRIBERS
        &&& forall|i: int|
            0 <= i < self.slots.len() ==> (#[trigger] self.slots[i]).payload.len()
                == self.slot_bytes
    }

    /// How many subscribers have a place. A subscription that is refused is counted in `n_subs`,
    /// but gets none.
    pub open spec fn active(self) -> int {
        seats_taken(self.n_subs as int)
    }

    /// The least of the write sequence and the read sequences of the subscribers.
    pub open spec fn min_read(self) -> u64 {
        least(self.read_seq, self.active(), self.write_seq)
    }

    /// Whether the next message can be published without overrunning a subscriber.
    pub open spec fn room(self) -> bool {
        has_room(self.claim_seq as int, self.min_read() as int, self.capacity as int)
    }

    /// Whether a message of `len` bytes can be published at all.
    pub open spec fn takes(self, len: int) -> bool {
        0 < len <= self.slot_bytes
    }

    /// The bus with the next sequence number claimed.
    pub open spec fn claimed(self) -> BusView {
        BusView { claim_seq: (self.claim_seq + 1) as u64, ..self }
    }

    /// The bus with `data` committed in the slot of the next sequence number.
    pub open spec fn filled(self, data: Seq<u8>) -> BusView {
        let slot = self.slot_of(self.claim_seq as int);
        self.claimed().with_slot(
            slot,
            SlotView {
                seq: (self.claim_seq + 1) as u64,
                len: data.len() as u32,
                payload: overlaid(self.slots[slot].payload, data),
            },
        )
    }

    /// Whether `next` is this bus after `data` was published: it is committed, and the write
    /// sequence has moved on to the first message that is not committed.
    pub open spec fn published(self, data: Seq<u8>, next: BusView) -> bool {
        &&& next == (BusView { write_seq: next.write_seq, ..self.filled(data) })
        &&& self.write_seq <= next.write_seq
        &&& forall|s: int|
            self.write_seq <= s < next.write_seq ==> #[trigger] self.filled(data).committed(s)
        &&& !self.filled(data).committed(next.write_seq as int)
    }

    /// The message that the slot of `seq` holds.
    pub open spec fn message(self, seq: int) -> Seq<u8> {
        let slot = self.slots[self.slot_of(seq)];
        slot.payload.take(slot.len as int)
    }

    /// The length of the message that the slot of `seq` holds, as the slot states it.
    pub open spec fn message_len(self, seq: int) -> int {
        self.slots[self.slot_of(seq)].len as int
    }

    /// Whether the message of `seq`, if it is committed and fits into `room` bytes, lies inside
    /// its payload area. A buffer that is no longer than a payload area makes sure of that.
    pub open spec fn readable(self, seq: int, room: int) -> bool {
        self.committed(seq) && self.message_len(seq) <= room ==> self.message_len(seq)
            <= self.slot_bytes
    }

    /// Whether no slot claims to hold more than its payload area.
    pub open spec fn intact(self) -> bool {
        forall|i: int|
            0 <= i < self.slots.len() ==> (#[trigger] self.slots[i]).len <= self.slot_bytes
    }

    /// The bus after subscriber `sub` has passed the message that was next for it.
    pub open spec fn passed(self, sub: int) -> BusView {
        BusView {
            read_seq: self.read_seq.update(sub, (self.read_seq[sub] + 1) as u64),
            ..self
        }
    }

    /// The bus after one more subscription, which begins behind the last message.
    pub open spec fn subscribed(self) -> BusView {
        let place = self.n_subs as int;
        BusView {
            n_subs: succ32(self.n_subs),
            read_seq: if place < MAX_SUBSCRIBERS {
                self.read_seq.update(place, self.write_seq)
            } else {
                self.read_seq
            },
            ..self
        }
    }

    pub open spec fn with_slot(self, slot: int, s: SlotView) -> BusView {
        BusView { slots: self.slots.update(slot, s), ..self }
    }
}

/// Whether `a` stays inside a bus that holds `v`, with `data` to be published and a receive
/// buffer of `room` bytes.
pub open spec fn in_bounds(v: BusView, a: Access, data: Seq<u8>, room: int) -> bool {
    match a {
        Access::LoadRead { sub } => sub < MAX_SUBSCRIBERS,
        Access::StoreRead { sub, .. } => sub < MAX_SUBSCRIBERS,
        Access::LoadSeq { slot } => slot < v.capacity,
        Access::StoreSeq { slot, .. } => slot < v.capacity,
        Access::LoadLen { slot } => slot < v.capacity,
        Access::StoreLen { slot, .. } => slot < v.capacity,
        Access::Fill { slot } => slot < v.capacity && data.len() <= v.slot_bytes,
        Access::Copy { slot, len } => slot < v.capacity && len <= v.slot_bytes && len <= room,
        _ => true,
    }
}

/// What the region holds after the access `a`, with `data` to be published.
pub open spec fn after(v: BusView, a: Access, data: Seq<u8>) -> BusView {
    match a {
        Access::AddClaim => BusView { claim_seq: succ64(v.claim_seq), ..v },
        Access::SwapClaim { expected } => if v.claim_seq == expected {
            BusView { claim_seq: succ64(expected), ..v }
        } else {
            v
        },
        Access::AddSubs => BusView { n_subs: succ32(v.n_subs), ..v },
        Access::SwapWrite { expected } => if v.write_seq == expected {
            BusView { write_seq: succ64(expected), ..v }
        } else {
            v
        },
        Access::StoreRead { sub, seq } => BusView {
            read_seq: v.read_seq.update(sub as int, seq),
            ..v
        },
        Access::StoreSeq { slot, seq } => v.with_slot(
            slot as int,
            SlotView { seq, ..v.slots[slot as int] },
        ),
        Access::StoreLen { slot, len } => v.with_slot(
            slot as int,
            SlotView { len, ..v.slots[slot as int] },
        ),
        Access::Fill { slot } => v.with_slot(
            slot as int,
            SlotView {
                payload: overlaid(v.slots[slot as int].payload, data),
                ..v.slots[slot as int]
            },
        ),
        _ => v,
    }
}

/// Whether the access `a` writes to a region that holds `v`.
pub open spec fn writes(v: BusView, a: Access) -> bool {
    match a {
        Access::AddClaim => true,
        Access::SwapClaim { expected } => v.claim_seq == expected,
        Access::AddSubs => true,
        Access::SwapWrite { expected } => v.write_seq == expected,
        Access::StoreRead { .. } => true,
        Access::StoreSeq { .. } => true,
        Access::StoreLen { .. } => true,
        Access::Fill { .. } => true,
        _ => false,
    }
}

/// The reply to the access `a` of a region that holds `v`.
pub open spec fn reply_to(v: BusView, a: Access) -> Reply {
    match a {
        Access::LoadClaim => Reply::Value(v.claim_seq),
        Access::AddClaim => Reply::Value(v.claim_seq),
        Access::SwapClaim { expected } => Reply::Swapped(v.claim_seq == expected),
        Access::LoadSubs => Reply::Value(v.n_subs as u64),
        Access::AddSubs => Reply::Value(v.n_subs as u64),
        Access::LoadWrite => Reply::Value(v.write_seq),
        Access::SwapWrite { expected } => Reply::Swapped(v.write_seq == expected),
        Access::LoadRead { sub } => Reply::Value(v.read_seq[sub as int]),
        Access::LoadSeq { slot } => Reply::Value(v.slots[slot as int].seq),
        Access::LoadLen { slot } => Reply::Value(v.slots[slot as int].len as u64),
        _ => Reply::Made,
    }
}

/// What the receive buffer holds after the access `a` of a region that holds `v`.
pub open spec fn buffer_after(v: BusView, a: Access, buf: Seq<u8>) -> Seq<u8> {
    match a {
        Access::Copy { slot, len } => overlaid(buf, v.slots[slot as int].payload.take(len as int)),
        _ => buf,
    }
}

/// Whether the ring has room for the message with sequence number `claim`, when all before
/// `min_read` have been read.
pub open spec fn has_room(claim: int, min_read: int, capacity: int) -> bool {
    claim < min_read + capacity
}

/// Where a publication stands.
#[derive(Clone, Copy, Debug, PartialEq, Eq)]
pub enum PublishPhase {
    /// A sequence number is to be claimed, or looked up.
    Claim,
    /// The write sequence is to be loaded.
    Write,
    /// The number of subscribers is to be loaded.
    Subs,
    /// The read sequence of the subscriber `next_sub` is to be loaded.
    Reads,
    /// There was no room, and others are to be given the chance to make some.
    Stalled,
    /// There is room, and the sequence number looked up is to be claimed.
    Swap,
    /// The message is to be copied.
    Fill,
    /// Its length is to be stored.
    Len,
    /// It is to be committed.
    Commit,
    /// The write sequence is to be loaded again.
    Tail,
    /// The slot that the write sequence falls on is to be looked at.
    TailSlot,
    /// The write sequence is to be moved on.
    TailSwap,
    Done,
}

/// One publication of a message.
///
/// A blocking publication claims a sequence number at once, and waits until the ring has room
/// for it. The other kind claims one only if there is room, and else gives up.
///
/// The write sequence is loaded before the subscribers are counted. So a subscriber that is not
/// counted joins later, and begins no earlier than at the write sequence that was loaded: what
/// room there is for the counted ones, there is for it too.
#[derive(Clone, Copy, Debug, PartialEq, Eq)]
pub struct Publish {
    pub blocking: bool,
    pub capacity: u64,
    /// The length of the message, as the slot stores it.
    pub len: u32,
    pub phase: PublishPhase,
    pub claim: u64,
    pub subs: u32,
    pub next_sub: u32,
    /// The least of the write sequence and the read sequences loaded so far.
    pub min_read: u64,
    pub tail: u64,
    /// Whether the message was published.
    pub published: bool,
}

impl Publish {
    pub open spec fn valid(self) -> bool {
        &&& power2::is_pow2(self.capacity as int)
        &&& self.capacity > 0
        &&& self.phase is Reads ==> self.next_sub < self.subs <= MAX_SUBSCRIBERS
        &&& self.claim < u64::MAX
    }

    pub open spec fn slot(self) -> u64 {
        self.claim % self.capacity
    }

    pub open spec fn access(self) -> Access {
        match self.phase {
            PublishPhase::Claim => if self.blocking {
                Access::AddClaim
            } else {
                Access::LoadClaim
            },
            PublishPhase::Write => Access::LoadWrite,
            PublishPhase::Subs => Access::LoadSubs,
            PublishPhase::Reads => Access::LoadRead { sub: self.next_sub },
            PublishPhase::Stalled => Access::Yield,
            PublishPhase::Swap => Access::SwapClaim { expected: self.claim },
            PublishPhase::Fill => Access::Fill { slot: self.slot() },
            PublishPhase::Len => Access::StoreLen { slot: self.slot(), len: self.len },
            PublishPhase::Commit => Access::StoreSeq {
                slot: self.slot(),
                seq: (self.claim + 1) as u64,
            },
            PublishPhase::Tail => Access::LoadWrite,
            PublishPhase::TailSlot => Access::LoadSeq { slot: self.tail % self.capacity },
            PublishPhase::TailSwap => Access::SwapWrite { expected: self.tail },
            PublishPhase::Done => Access::Finish,
        }
    }

    /// The replies that `access` can have: of the right kind, and a sequence number that has a
    /// successor.
    pub open spec fn expects(self, reply: Reply) -> bool {
        match self.phase {
            PublishPhase::Claim => reply is Value && reply->Value_0 < u64::MAX,
            PublishPhase::Write => reply is Value,
            PublishPhase::Subs => reply is Value,
            PublishPhase::Reads => reply is Value,
            PublishPhase::Swap => reply is Swapped,
            PublishPhase::Tail => reply is Value,
            PublishPhase::TailSlot => reply is Value,
            PublishPhase::TailSwap => reply is Swapped,
            PublishPhase::Done => false,
            _ => reply is Made,
        }
    }

    /// What follows once `min_read` is known.
    pub open spec fn decided(self) -> Publish {
        if has_room(self.claim as int, self.min_read as int, self.capacity as int) {
            Publish {
                phase: if self.blocking {
                    PublishPhase::Fill
                } else {
                    PublishPhase::Swap
                },
                ..self
            }
        } else {
            Publish {
                phase: if self.blocking {
                    PublishPhase::Stalled
                } else {
                    PublishPhase::Done
                },
                ..self
            }
        }
    }

    pub open spec fn step(self, reply: Reply) -> Publish {
        match self.phase {
            PublishPhase::Claim => Publish {
                claim: reply->Value_0,
                phase: PublishPhase::Write,
                ..self
            },
            PublishPhase::Write => Publish {
                min_read: reply->Value_0,
                phase: PublishPhase::Subs,
                ..self
            },
            PublishPhase::Subs => {
                let p = Publish {
                    subs: seats_taken(reply->Value_0 as int) as u32,
                    next_sub: 0,
                    ..self
                };
                if p.subs == 0 {
                    p.decided()
                } else {
                    Publish { phase: PublishPhase::Reads, ..p }
                }
            },
            PublishPhase::Reads => {
                let p = Publish {
                    min_read: if reply->Value_0 < self.min_read {
                        reply->Value_0
                    } else {
                        self.min_read
                    },
                    next_sub: (self.next_sub + 1) as u32,
                    ..self
                };
                if p.next_sub >= p.subs {
                    p.decided()
                } else {
                    p
                }
            },
            PublishPhase::Stalled => Publish { phase: PublishPhase::Write, ..self },
            PublishPhase::Swap => Publish {
                phase: if reply->Swapped_0 {
                    PublishPhase::Fill
                } else {
                    PublishPhase::Done
                },
                ..self
            },
            PublishPhase::Fill => Publish { phase: PublishPhase::Len, ..self },
            PublishPhase::Len => Publish { phase: PublishPhase::Commit, ..self },
            PublishPhase::Commit => Publish {
                phase: PublishPhase::Tail,
                published: true,
                ..self
            },
            PublishPhase::Tail => Publish {
                tail: reply->Value_0,
                phase: PublishPhase::TailSlot,
                ..self
            },
            PublishPhase::TailSlot => Publish {
                phase: if reply->Value_0 == self.tail + 1 {
                    PublishPhase::TailSwap
                } else {
                    PublishPhase::Done
                },
                ..self
            },
            PublishPhase::TailSwap => Publish { phase: PublishPhase::Tail, ..self },
            PublishPhase::Done => self,
        }
    }

    /// The start of a publication of a message whose length the slot stores as `len`, on a ring
    /// of `capacity` slots.
    pub open spec fn begun(blocking: bool, capacity: u64, len: u32) -> Publish {
        Publish {
            blocking,
            capacity,
            len,
            phase: PublishPhase::Claim,
            claim: 0,
            subs: 0,
            next_sub: 0,
            min_read: 0,
            tail: 0,
            published: false,
        }
    }

    pub fn new(blocking: bool, capacity: u64, len: u32) -> (p: Publish)
        requires
            power2::is_pow2(capacity as int),
        ensures
            p == Publish::begun(blocking, capacity, len),
            p.valid(),
    {
        proof {
            reveal(power2::is_pow2);
        }
        Publish {
            blocking,
            capacity,
            len,
            phase: PublishPhase::Claim,
            claim: 0,
            subs: 0,
            next_sub: 0,
            min_read: 0,
            tail: 0,
            published: false,
        }
    }

    /// The access that comes next.
    pub fn next(&self) -> (a: Access)
        requires
            self.valid(),
        ensures
            a == self.access(),
    {
        match self.phase {
            PublishPhase::Claim => if self.blocking {
                Access::AddClaim
            } else {
                Access::LoadClaim
            },
            PublishPhase::Write => Access::LoadWrite,
            PublishPhase::Subs => Access::LoadSubs,
            PublishPhase::Reads => Access::LoadRead { sub: self.next_sub },
            PublishPhase::Stalled => Access::Yield,
            PublishPhase::Swap => Access::SwapClaim { expected: self.claim },
            PublishPhase::Fill => Access::Fill {
                slot: pow2::slot_index(self.claim, self.capacity),
            },
            PublishPhase::Len => Access::StoreLen {
                slot: pow2::slot_index(self.claim, self.capacity),
                len: self.len,
            },
            PublishPhase::Commit => Access::StoreSeq {
                slot: pow2::slot_index(self.claim, self.capacity),
                seq: self.claim + 1,
            },
            PublishPhase::Tail => Access::LoadWrite,
            PublishPhase::TailSlot => Access::LoadSeq {
                slot: pow2::slot_index(self.tail, self.capacity),
            },
            PublishPhase::TailSwap => Access::SwapWrite { expected: self.tail },
            PublishPhase::Done => Access::Finish,
        }
    }

    fn decide(&mut self)
        ensures
            *final(self) == old(self).decided(),
    {
        let room = self.claim < self.capacity || self.claim - self.capacity < self.min_read;
        self.phase = match (room, self.blocking) {
            (true, true) => PublishPhase::Fill,
            (true, false) => PublishPhase::Swap,
            (false, true) => PublishPhase::Stalled,
            (false, false) => PublishPhase::Done,
        };
    }

    /// Takes the reply to the access.
    pub fn advance(&mut self, reply: Reply)
        requires
            old(self).valid(),
            old(self).expects(reply),
        ensures
            *final(self) == old(self).step(reply),
            final(self).valid(),
    {
        let value: u64 = match reply {
            Reply::Value(x) => x,
            _ => 0,
        };
        let swapped = match reply {
            Reply::Swapped(b) => b,
            _ => false,
        };
        match self.phase {
            PublishPhase::Claim => {
                self.claim = value;
                self.phase = PublishPhase::Write;
            },
            PublishPhase::Write => {
                self.min_read = value;
                self.phase = PublishPhase::Subs;
            },
            PublishPhase::Subs => {
                self.subs = if value < MAX_SUBSCRIBERS as u64 {
                    value as u32
                } else {
                    MAX_SUBSCRIBERS as u32
                };
                self.next_sub = 0;
                if self.subs == 0 {
                    self.decide();
                } else {
                    self.phase = PublishPhase::Reads;
                }
            },
            PublishPhase::Reads => {
                if value < self.min_read {
                    self.min_read = value;
                }
                self.next_sub = self.next_sub + 1;
                if self.next_sub >= self.subs {
                    self.decide();
                }
            },
            PublishPhase::Stalled => {
                self.phase = PublishPhase::Write;
            },
            PublishPhase::Swap => {
                self.phase = if swapped {
                    PublishPhase::Fill
                } else {
                    PublishPhase::Done
                };
            },
            PublishPhase::Fill => {
                self.phase = PublishPhase::Len;
            },
            PublishPhase::Len => {
                self.phase = PublishPhase::Commit;
            },
            PublishPhase::Commit => {
                self.phase = PublishPhase::Tail;
                self.published = true;
            },
            PublishPhase::Tail => {
                self.tail = value;
                self.phase = PublishPhase::TailSlot;
            },
            PublishPhase::TailSlot => {
                self.phase = if value > 0 && value - 1 == self.tail {
                    PublishPhase::TailSwap
                } else {
                    PublishPhase::Done
                };
            },
            PublishPhase::TailSwap => {
                self.phase = PublishPhase::Tail;
            },
            PublishPhase::Done => {},
        }
    }
}

/// Where the receipt of a message stands.
#[derive(Clone, Copy, Debug, PartialEq, Eq)]
pub enum ReceivePhase {
    /// The read sequence is to be loaded.
    Position,
    /// The slot that it falls on is to be looked at.
    Probe,
    /// The length of the message is to be loaded.
    Length,
    /// The message is to be copied.
    Copy,
    /// The read sequence is to be moved on.
    Pass,
    Done,
}

/// What came of an attempt to receive.
#[derive(Clone, Copy, Debug, PartialEq, Eq)]
pub enum Receipt {
    /// No message is committed yet.
    Nothing,
    /// The message is longer than the buffer; it stays.
    TooLarge,
    /// A message of this length was copied.
    Message(u32),
}

impl Receipt {
    /// What an operation of the bus reports of it.
    pub fn result(self) -> (r: Result<Option<usize>, BusError>)
        ensures
            r == match self {
                Receipt::Nothing => Ok::<Option<usize>, BusError>(None),
                Receipt::TooLarge => Err::<Option<usize>, BusError>(BusError::MsgTooLarge),
                Receipt::Message(len) => Ok::<Option<usize>, BusError>(Some(len as usize)),
            },
    {
        match self {
            Receipt::Nothing => Ok(None),
            Receipt::TooLarge => Err(BusError::MsgTooLarge),
            Receipt::Message(len) => Ok(Some(len as usize)),
        }
    }
}

/// One attempt of a subscriber to receive a message into a buffer of `room` bytes.
#[derive(Clone, Copy, Debug, PartialEq, Eq)]
pub struct Receive {
    pub sub: u32,
    pub capacity: u64,
    pub room: usize,
    pub phase: ReceivePhase,
    pub seq: u64,
    pub len: u32,
    pub receipt: Receipt,
}

impl Receive {
    pub open spec fn valid(self) -> bool {
        &&& power2::is_pow2(self.capacity as int)
        &&& self.capacity > 0
        &&& self.sub < MAX_SUBSCRIBERS
        &&& self.phase !is Done ==> self.receipt is Nothing
        &&& self.phase is Length || self.phase is Copy || self.phase is Pass ==> self.seq < u64::MAX
        &&& self.phase is Copy || self.phase is Pass ==> self.len <= self.room
    }

    pub open spec fn slot(self) -> u64 {
        self.seq % self.capacity
    }

    pub open spec fn access(self) -> Access {
        match self.phase {
            ReceivePhase::Position => Access::LoadRead { sub: self.sub },
            ReceivePhase::Probe => Access::LoadSeq { slot: self.slot() },
            ReceivePhase::Length => Access::LoadLen { slot: self.slot() },
            ReceivePhase::Copy => Access::Copy { slot: self.slot(), len: self.len },
            ReceivePhase::Pass => Access::StoreRead { sub: self.sub, seq: (self.seq + 1) as u64 },
            ReceivePhase::Done => Access::Finish,
        }
    }

    pub open spec fn expects(self, reply: Reply) -> bool {
        match self.phase {
            ReceivePhase::Position => reply is Value,
            ReceivePhase::Probe => reply is Value,
            ReceivePhase::Length => reply is Value && reply->Value_0 <= u32::MAX,
            ReceivePhase::Done => false,
            _ => reply is Made,
        }
    }

    pub open spec fn step(self, reply: Reply) -> Receive {
        match self.phase {
            ReceivePhase::Position => Receive {
                seq: reply->Value_0,
                phase: ReceivePhase::Probe,
                ..self
            },
            ReceivePhase::Probe => Receive {
                phase: if reply->Value_0 == self.seq + 1 {
                    ReceivePhase::Length
                } else {
                    ReceivePhase::Done
                },
                ..self
            },
            ReceivePhase::Length => if reply->Value_0 > self.room {
                Receive {
                    len: reply->Value_0 as u32,
                    receipt: Receipt::TooLarge,
                    phase: ReceivePhase::Done,
                    ..self
                }
            } else {
                Receive { len: reply->Value_0 as u32, phase: ReceivePhase::Copy, ..self }
            },
            ReceivePhase::Copy => Receive { phase: ReceivePhase::Pass, ..self },
            ReceivePhase::Pass => Receive {
                receipt: Receipt::Message(self.len),
                phase: ReceivePhase::Done,
                ..self
            },
            ReceivePhase::Done => self,
        }
    }

    /// The start of an attempt of the subscriber `sub`, on a ring of `capacity` slots.
    pub open spec fn begun(sub: u32, capacity: u64, room: usize) -> Receive {
        Receive {
            sub,
            capacity,
            room,
            phase: ReceivePhase::Position,
            seq: 0,
            len: 0,
            receipt: Receipt::Nothing,
        }
    }

    pub fn new(sub: u32, capacity: u64, room: usize) -> (r: Receive)
        requires
            power2::is_pow2(capacity as int),
            sub < MAX_SUBSCRIBERS,
        ensures
            r == Receive::begun(sub, capacity, room),
            r.valid(),
    {
        proof {
            reveal(power2::is_pow2);
        }
        Receive {
            sub,
            capacity,
            room,
            phase: ReceivePhase::Position,
            seq: 0,
            len: 0,
            receipt: Receipt::Nothing,
        }
    }

    /// The access that comes next.
    pub fn next(&self) -> (a: Access)
        requires
            self.valid(),
        ensures
            a == self.access(),
    {
        match self.phase {
            ReceivePhase::Position => Access::LoadRead { sub: self.sub },
            ReceivePhase::Probe => Access::LoadSeq {
                slot: pow2::slot_index(self.seq, self.capacity),
            },
            ReceivePhase::Length => Access::LoadLen {
                slot: pow2::slot_index(self.seq, self.capacity),
            },
            ReceivePhase::Copy => Access::Copy {
                slot: pow2::slot_index(self.seq, self.capacity),
                len: self.len,
            },
            ReceivePhase::Pass => Access::StoreRead { sub: self.sub, seq: self.seq + 1 },
            ReceivePhase::Done => Access::Finish,
        }
    }

    /// Takes the reply to the access.
    pub fn advance(&mut self, reply: Reply)
        requires
            old(self).valid(),
            old(self).expects(reply),
        ensures
            *final(self) == old(self).step(reply),
            final(self).valid(),
    {
        let value: u64 = match reply {
            Reply::Value(x) => x,
            _ => 0,
        };
        match self.phase {
            ReceivePhase::Position => {
                self.seq = value;
                self.phase = ReceivePhase::Probe;
            },
            ReceivePhase::Probe => {
                self.phase = if value > 0 && value - 1 == self.seq {
                    ReceivePhase::Length
                } else {
                    ReceivePhase::Done
                };
            },
            ReceivePhase::Length => {
                self.len = value as u32;
                if value > self.room as u64 {
                    self.receipt = Receipt::TooLarge;
                    self.phase = ReceivePhase::Done;
                } else {
                    self.phase = ReceivePhase::Copy;
                }
            },
            ReceivePhase::Copy => {
                self.phase = ReceivePhase::Pass;
            },
            ReceivePhase::Pass => {
                self.receipt = Receipt::Message(self.len);
                self.phase = ReceivePhase::Done;
            },
            ReceivePhase::Done => {},
        }
    }
}

/// Where a subscription stands.
#[derive(Clone, Copy, Debug, PartialEq, Eq)]
pub enum SubscribePhase {
    /// A place is to be taken.
    Join,
    /// The write sequence is to be loaded.
    Start,
    /// It is to be stored as the read sequence of the place.
    Announce,
    Done,
}

/// One subscription to a bus.
#[derive(Clone, Copy, Debug, PartialEq, Eq)]
pub struct Subscribe {
    pub phase: SubscribePhase,
    pub start: u64,
    /// The place that was taken.
    pub place: u32,
    /// Whether the place is one of the bus.
    pub joined: bool,
}

impl Subscribe {
    pub open spec fn valid(self) -> bool {
        &&& self.joined ==> self.phase is Done
        &&& self.joined || self.phase is Start || self.phase is Announce ==> self.place
            < MAX_SUBSCRIBERS
    }

    pub open spec fn access(self) -> Access {
        match self.phase {
            SubscribePhase::Join => Access::AddSubs,
            SubscribePhase::Start => Access::LoadWrite,
            SubscribePhase::Announce => Access::StoreRead { sub: self.place, seq: self.start },
            SubscribePhase::Done => Access::Finish,
        }
    }

    pub open spec fn expects(self, reply: Reply) -> bool {
        match self.phase {
            SubscribePhase::Join => reply is Value && reply->Value_0 <= u32::MAX,
            SubscribePhase::Start => reply is Value,
            SubscribePhase::Announce => reply is Made,
            SubscribePhase::Done => false,
        }
    }

    pub open spec fn step(self, reply: Reply) -> Subscribe {
        match self.phase {
            SubscribePhase::Join => Subscribe {
                place: reply->Value_0 as u32,
                phase: if reply->Value_0 >= MAX_SUBSCRIBERS {
                    SubscribePhase::Done
                } else {
                    SubscribePhase::Start
                },
                ..self
            },
            SubscribePhase::Start => Subscribe {
                start: reply->Value_0,
                phase: SubscribePhase::Announce,
                ..self
            },
            SubscribePhase::Announce => Subscribe {
                joined: true,
                phase: SubscribePhase::Done,
                ..self
            },
            SubscribePhase::Done => self,
        }
    }

    /// The place of the subscriber, once the subscription is finished.
    pub fn result(self) -> (r: Result<u32, BusError>)
        ensures
            r == if self.joined {
                Ok::<u32, BusError>(self.place)
            } else {
                Err::<u32, BusError>(BusError::NoSubscriberSlots)
            },
    {
        if self.joined {
            Ok(self.place)
        } else {
            Err(BusError::NoSubscriberSlots)
        }
    }

    /// The start of a subscription.
    pub open spec fn begun() -> Subscribe {
        Subscribe { phase: SubscribePhase::Join, start: 0, place: 0, joined: false }
    }

    pub fn new() -> (s: Subscribe)
        ensures
            s == Subscribe::begun(),
            s.valid(),
    {
        Subscribe { phase: SubscribePhase::Join, start: 0, place: 0, joined: false }
    }

    /// The access that comes next.
    pub fn next(&self) -> (a: Access)
        ensures
            a == self.access(),
    {
        match self.phase {
            SubscribePhase::Join => Access::AddSubs,
            SubscribePhase::Start => Access::LoadWrite,
            SubscribePhase::Announce => Access::StoreRead { sub: self.place, seq: self.start },
            SubscribePhase::Done => Access::Finish,
        }
    }

    /// Takes the reply to the access.
    pub fn advance(&mut self, reply: Reply)
        requires
            old(self).valid(),
            old(self).expects(reply),
        ensures
            *final(self) == old(self).step(reply),
            final(self).valid(),
    {
        let value: u64 = match reply {
            Reply::Value(x) => x,
            _ => 0,
        };
        match self.phase {
            SubscribePhase::Join => {
                self.place = value as u32;
                self.phase = if value >= MAX_SUBSCRIBERS as u64 {
                    SubscribePhase::Done
                } else {
                    SubscribePhase::Start
                };
            },
            SubscribePhase::Start => {
                self.start = value;
                self.phase = SubscribePhase::Announce;
            },
            SubscribePhase::Announce => {
                self.joined = true;
                self.phase = SubscribePhase::Done;
            },
            SubscribePhase::Done => {},
        }
    }
}

// ---- laws ----

/// How a publication finds out whether there is room: it takes or looks up the next sequence number,
/// loads the write sequence, counts the subscribers and loads the read sequence of each of the
/// first 64, and keeps the least. There is room if that is less than a ring behind. If there is, the
/// number that was only looked up is taken now; if not, a blocking publication looks again, without
/// giving up its number, and the other gives up.
pub proof fn law_publication_looks_for_room(p: &Publish, a: Access, q: &mut Publish, reply: Reply)
    requires
        call_ensures(Publish::next, (p,), a),
        *q == *p,
        p.valid(),
        p.expects(reply),
        call_ensures(Publish::advance, (q, reply), ()),
    ensures
        ({
            let now = *final(q);
            let x = reply->Value_0;
            let last = p.phase is Subs && x == 0 || p.phase is Reads && p.next_sub + 1 == p.subs;
            &&& now.blocking == p.blocking
            &&& now.capacity == p.capacity
            &&& now.len == p.len
            &&& now.claim != p.claim ==> p.phase is Claim
            &&& now.min_read != p.min_read ==> p.phase is Write || p.phase is Reads
            &&& p.phase is Claim && p.blocking ==> a == Access::AddClaim
            &&& p.phase is Claim && !p.blocking ==> a == Access::LoadClaim
            &&& p.phase is Claim ==> now.claim == x && now.phase is Write
            &&& p.phase is Write ==> a == Access::LoadWrite && now.min_read == x && now.phase is Subs
            &&& p.phase is Subs ==> a == Access::LoadSubs
            &&& p.phase is Subs && x > 0 ==> now.phase is Reads && now.next_sub == 0 && now.subs
                == if x < 64 {
                x as int
            } else {
                64
            }
            &&& p.phase is Reads ==> a == (Access::LoadRead { sub: p.next_sub }) && now.subs
                == p.subs && now.next_sub == p.next_sub + 1 && now.min_read == if x < p.min_read {
                x
            } else {
                p.min_read
            }
            &&& p.phase is Reads && p.next_sub + 1 < p.subs ==> now.phase is Reads
            &&& last && p.claim < now.min_read + p.capacity && p.blocking ==> now.phase is Fill
            &&& last && p.claim < now.min_read + p.capacity && !p.blocking ==> now.phase is Swap
            &&& last && p.claim >= now.min_read + p.capacity && p.blocking ==> now.phase is Stalled
            &&& last && p.claim >= now.min_read + p.capacity && !p.blocking ==> now.phase is Done
                && now.published == p.published
            &&& p.phase is Stalled ==> a == Access::Yield && now.phase is Write
            &&& p.phase is Swap ==> a == (Access::SwapClaim { expected: p.claim })
            &&& p.phase is Swap && reply->Swapped_0 ==> now.phase is Fill
            &&& p.phase is Swap && !reply->Swapped_0 ==> now.phase is Done && now.published
                == p.published
        }),
{
}

/// How a publication that has room goes on: it copies the message, stores its length, and only then
/// commits it, in the slot of its number. From there it moves the write sequence on, one by one,
/// past every message that is committed.
pub proof fn law_publication_commits_last(p: &Publish, a: Access, q: &mut Publish, reply: Reply)
    requires
        call_ensures(Publish::next, (p,), a),
        *q == *p,
        p.valid(),
        p.expects(reply),
        call_ensures(Publish::advance, (q, reply), ()),
    ensures
        ({
            let now = *final(q);
            let slot = (p.claim % p.capacity) as u64;
            &&& p.phase is Fill ==> a == (Access::Fill { slot }) && now.phase is Len
            &&& p.phase is Len ==> a == (Access::StoreLen { slot, len: p.len })
                && now.phase is Commit
            &&& p.phase is Commit ==> a == (Access::StoreSeq { slot, seq: (p.claim + 1) as u64 })
                && now.phase is Tail
            &&& now.published <==> p.published || p.phase is Commit
            &&& p.phase is Tail ==> a == Access::LoadWrite && now.tail == reply->Value_0
                && now.phase is TailSlot
            &&& p.phase is TailSlot ==> a == (Access::LoadSeq {
                slot: (p.tail % p.capacity) as u64,
            })
            &&& p.phase is TailSlot && reply->Value_0 == p.tail + 1 ==> now.phase is TailSwap
            &&& p.phase is TailSlot && reply->Value_0 != p.tail + 1 ==> now.phase is Done
            &&& p.phase is TailSwap ==> a == (Access::SwapWrite { expected: p.tail })
                && now.phase is Tail
            &&& now.tail != p.tail ==> p.phase is Tail
        }),
{
}

/// A publication begins with its sequence number, with nothing published, and a finished one has
/// nothing more to do.
pub proof fn law_publication_begins(blocking: bool, capacity: u64, len: u32, p: Publish, a: Access)
    requires
        call_ensures(Publish::new, (blocking, capacity, len), p),
        call_ensures(Publish::next, (&p,), a),
    ensures
        p.blocking == blocking,
        p.capacity == capacity,
        p.len == len,
        !p.published,
        a == if blocking {
            Access::AddClaim
        } else {
            Access::LoadClaim
        },
{
}

/// How a receipt goes: it loads its read sequence and looks at the slot of it. If that is committed
/// for it, and the length stated there is no more than the buffer holds, it copies that many bytes,
/// and only then moves its read sequence on by one.
pub proof fn law_receipt_passes_last(r: &Receive, a: Access, q: &mut Receive, reply: Reply)
    requires
        call_ensures(Receive::next, (r,), a),
        *q == *r,
        r.valid(),
        r.expects(reply),
        call_ensures(Receive::advance, (q, reply), ()),
    ensures
        ({
            let now = *final(q);
            let x = reply->Value_0;
            let slot = (r.seq % r.capacity) as u64;
            &&& now.sub == r.sub
            &&& now.capacity == r.capacity
            &&& now.room == r.room
            &&& now.seq != r.seq ==> r.phase is Position
            &&& now.len != r.len ==> r.phase is Length
            &&& r.phase is Position ==> a == (Access::LoadRead { sub: r.sub }) && now.seq == x
                && now.phase is Probe
            &&& r.phase is Probe ==> a == (Access::LoadSeq { slot })
            &&& r.phase is Probe && x == r.seq + 1 ==> now.phase is Length
            &&& r.phase is Probe && x != r.seq + 1 ==> now.phase is Done && now.receipt is Nothing
            &&& r.phase is Length ==> a == (Access::LoadLen { slot })
            &&& r.phase is Length && x > r.room ==> now.phase is Done && now.receipt is TooLarge
            &&& r.phase is Length && x <= r.room ==> now.phase is Copy && now.len == x
            &&& r.phase is Copy ==> a == (Access::Copy { slot, len: r.len }) && now.phase is Pass
            &&& r.phase is Pass ==> a == (Access::StoreRead {
                sub: r.sub,
                seq: (r.seq + 1) as u64,
            }) && now.phase is Done && now.receipt == Receipt::Message(r.len)
        }),
{
}

/// A receipt begins with the read sequence of its subscriber.
pub proof fn law_receipt_begins(sub: u32, capacity: u64, room: usize, r: Receive, a: Access)
    requires
        call_ensures(Receive::new, (sub, capacity, room), r),
        call_ensures(Receive::next, (&r,), a),
    ensures
        r.sub == sub,
        r.capacity == capacity,
        r.room == room,
        r.receipt is Nothing,
        a == (Access::LoadRead { sub }),
{
}

/// What a receipt reports: nothing, that the message is too large, or its length.
pub proof fn law_receipt_is_reported(
    receipt: Receipt,
    r: Result<Option<usize>, BusError>,
)
    requires
        call_ensures(Receipt::result, (receipt,), r),
    ensures
        receipt is Nothing ==> r is Ok && r->Ok_0 is None,
        receipt is TooLarge ==> r is Err && r->Err_0 is MsgTooLarge,
        receipt is Message ==> r is Ok && r->Ok_0 is Some && r->Ok_0->0 == receipt->Message_0,
{
}

/// How a subscription goes: it takes the next place, and gives up if that is not one of the 64. Else
/// it loads the write sequence, and stores it as the read sequence of its place.
pub proof fn law_subscription_announces_last(
    s: &Subscribe,
    a: Access,
    q: &mut Subscribe,
    reply: Reply,
)
    requires
        call_ensures(Subscribe::next, (s,), a),
        *q == *s,
        s.valid(),
        s.expects(reply),
        call_ensures(Subscribe::advance, (q, reply), ()),
    ensures
        ({
            let now = *final(q);
            let x = reply->Value_0;
            &&& s.phase is Join ==> a == Access::AddSubs && now.place == x
            &&& s.phase is Join && x < 64 ==> now.phase is Start
            &&& s.phase is Join && x >= 64 ==> now.phase is Done && !now.joined
            &&& s.phase is Start ==> a == Access::LoadWrite && now.start == x && now.place
                == s.place && now.phase is Announce
            &&& s.phase is Announce ==> a == (Access::StoreRead { sub: s.place, seq: s.start })
                && now.phase is Done && now.joined && now.place == s.place
        }),
{
}

/// A subscription begins by taking a place. Once it is finished, it reports the place, or that there
/// is none.
pub proof fn law_subscription_is_reported(
    first: Subscribe,
    a: Access,
    s: Subscribe,
    r: Result<u32, BusError>,
)
    requires
        call_ensures(Subscribe::new, (), first),
        call_ensures(Subscribe::next, (&first,), a),
        call_ensures(Subscribe::result, (s,), r),
    ensures
        a == Access::AddSubs,
        !first.joined,
        s.joined ==> r is Ok && r->Ok_0 == s.place,
        !s.joined ==> r is Err && r->Err_0 is NoSubscriberSlots,
{
}

/// A finished operation has nothing more to do, and only a finished one.
pub proof fn law_finished_operations_end(
    p: &Publish,
    a: Access,
    r: &Receive,
    b: Access,
    s: &Subscribe,
    c: Access,
)
    requires
        call_ensures(Publish::next, (p,), a),
        call_ensures(Receive::next, (r,), b),
        call_ensures(Subscribe::next, (s,), c),
    ensures
        a is Finish <==> p.phase is Done,
        b is Finish <==> r.phase is Done,
        c is Finish <==> s.phase is Done,
{
}

} // verus!
