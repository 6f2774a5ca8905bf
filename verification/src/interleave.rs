//! What holds while many producers and subscribers work on one bus at the same time.
//!
//! A [`System`] is a bus together with everyone who works on it. In each step one of them makes
//! one access of [`crate::protocol`]; which one is left open, so the steps can interleave in any
//! way. An access takes effect at once, for all alike. The laws hold in every state that such
//! steps can lead to.
//!
//! The limits are those of the numbers: a sequence number that has no successor is not claimed,
//! nobody subscribes when the number of subscriptions has none, and no message is longer than a
//! slot can state.

use crate::bus;
use crate::fanout;
use crate::layout::{BusView, SlotView, MAX_SUBSCRIBERS};
use crate::protocol;
use crate::protocol::{
    Publish, PublishPhase, Receipt, Receive, Reply, Subscribe, SubscribePhase,
};
use vstd::prelude::*;

verus! {

/// A producer, with the message of its publication.
#[verifier::ext_equal]
pub struct Writer {
    pub op: Publish,
    pub data: Seq<u8>,
}

/// A subscriber, with its subscription, its attempt to receive and the buffer for it.
#[verifier::ext_equal]
pub struct Reader {
    pub join: Subscribe,
    pub op: Receive,
    pub buf: Seq<u8>,
}

/// A bus and everyone who works on it.
#[verifier::ext_equal]
pub struct System {
    pub bus: BusView,
    pub writers: Seq<Writer>,
    pub readers: Seq<Reader>,
    /// The message of each sequence number that was claimed so far.
    pub log: Map<int, Seq<u8>>,
}

/// A step of one of those who work on a bus.
pub enum Action {
    /// A producer sets out to publish a message.
    Begin { p: int, data: Seq<u8>, blocking: bool },
    /// A producer makes its next access.
    Write { p: int },
    /// An exchange of the claim sequence fails though it need not.
    SwapFails { p: int },
    /// A subscriber makes the next access of its subscription.
    Join { a: int },
    /// A subscriber sets out to receive, into the buffer `buf`.
    Attempt { a: int, buf: Seq<u8> },
    /// A subscriber makes the next access of its attempt.
    Read { a: int },
}

/// Whether a sequence number is claimed for the publication and not yet committed.
pub open spec fn holds(op: Publish) -> bool {
    match op.phase {
        PublishPhase::Subs => op.blocking,
        PublishPhase::Write => op.blocking,
        PublishPhase::Reads => op.blocking,
        PublishPhase::Stalled => op.blocking,
        PublishPhase::Fill => true,
        PublishPhase::Len => true,
        PublishPhase::Commit => true,
        _ => false,
    }
}

/// Whether the publication has its slot for itself.
pub open spec fn owns(op: Publish) -> bool {
    op.phase is Fill || op.phase is Len || op.phase is Commit
}

/// Whether the publication has found room.
pub open spec fn cleared(op: Publish) -> bool {
    op.phase is Swap || owns(op)
}

/// The commit sequence of the slot that `n` falls on.
pub open spec fn seq_in(slots: Seq<SlotView>, n: int) -> int {
    slots[n % slots.len() as int].seq as int
}

impl Reader {
    /// Whether the subscriber has a place and knows where it begins.
    pub open spec fn started(self) -> bool {
        self.join.phase is Announce || self.join.joined
    }

    /// Whether the subscriber has a place.
    pub open spec fn placed(self) -> bool {
        self.join.phase is Start || self.started()
    }

    /// The message that the subscriber is to receive next.
    pub open spec fn position(self, read_seq: Seq<u64>) -> int {
        if self.join.joined {
            read_seq[self.join.place as int] as int
        } else {
            self.join.start as int
        }
    }

    /// Whether the subscriber has found a message and is about to use its slot.
    pub open spec fn reading(self) -> bool {
        self.op.phase is Length || self.op.phase is Copy || self.op.phase is Pass
    }
}

/// A bus that nobody works on yet.
pub open spec fn initial(s: System) -> bool {
    &&& s.bus.shaped()
    &&& s.bus.intact()
    &&& s.bus.write_seq == 0
    &&& s.bus.claim_seq == 0
    &&& s.bus.n_subs == 0
    &&& forall|i: int| 0 <= i < MAX_SUBSCRIBERS ==> s.bus.read_seq[i] == 0
    &&& forall|i: int| 0 <= i < s.bus.slots.len() ==> (#[trigger] s.bus.slots[i]).seq == 0
    &&& forall|p: int| 0 <= p < s.writers.len() ==> (#[trigger] s.writers[p]).op.phase is Done
    &&& forall|a: int|
        0 <= a < s.readers.len() ==> (#[trigger] s.readers[a]).join == Subscribe::begun()
            && s.readers[a].op.phase is Done
    &&& s.log == Map::<int, Seq<u8>>::empty()
}

/// Whether `act` can be taken in `s`.
pub open spec fn allowed(s: System, act: Action) -> bool {
    match act {
        Action::Begin { p, data, blocking } => {
            &&& 0 <= p < s.writers.len()
            &&& s.writers[p].op.phase is Done
            &&& s.bus.takes(data.len() as int)
            &&& data.len() <= u32::MAX
        },
        Action::Write { p } => {
            &&& 0 <= p < s.writers.len()
            &&& s.writers[p].op.phase !is Done
            &&& s.writers[p].op.expects(protocol::reply_to(s.bus, s.writers[p].op.access()))
        },
        Action::SwapFails { p } => 0 <= p < s.writers.len() && s.writers[p].op.phase is Swap,
        Action::Join { a } => {
            &&& 0 <= a < s.readers.len()
            &&& match s.readers[a].join.phase {
                SubscribePhase::Join => s.bus.n_subs < u32::MAX,
                SubscribePhase::Start => true,
                SubscribePhase::Announce => true,
                SubscribePhase::Done => false,
            }
        },
        Action::Attempt { a, buf } => {
            &&& 0 <= a < s.readers.len()
            &&& s.readers[a].join.joined
            &&& s.readers[a].op.phase is Done
            &&& buf.len() <= usize::MAX
        },
        Action::Read { a } => 0 <= a < s.readers.len() && s.readers[a].op.phase !is Done,
    }
}

/// The system after `act`.
pub open spec fn next(s: System, act: Action) -> System {
    match act {
        Action::Begin { p, data, blocking } => System {
            writers: s.writers.update(
                p,
                Writer {
                    op: Publish::begun(blocking, s.bus.capacity, data.len() as u32),
                    data,
                },
            ),
            ..s
        },
        Action::Write { p } => {
            let writer = s.writers[p];
            let a = writer.op.access();
            let then = writer.op.step(protocol::reply_to(s.bus, a));
            System {
                bus: protocol::after(s.bus, a, writer.data),
                writers: s.writers.update(p, Writer { op: then, ..writer }),
                log: if holds(then) && !holds(writer.op) {
                    s.log.insert(then.claim as int, writer.data)
                } else {
                    s.log
                },
                ..s
            }
        },
        Action::SwapFails { p } => System {
            writers: s.writers.update(
                p,
                Writer { op: s.writers[p].op.step(Reply::Swapped(false)), ..s.writers[p] },
            ),
            ..s
        },
        Action::Join { a } => {
            let reader = s.readers[a];
            let access = reader.join.access();
            System {
                bus: protocol::after(s.bus, access, seq![]),
                readers: s.readers.update(
                    a,
                    Reader {
                        join: reader.join.step(protocol::reply_to(s.bus, access)),
                        ..reader
                    },
                ),
                ..s
            }
        },
        Action::Attempt { a, buf } => System {
            readers: s.readers.update(
                a,
                Reader {
                    op: Receive::begun(
                        s.readers[a].join.place,
                        s.bus.capacity,
                        buf.len() as usize,
                    ),
                    buf,
                    ..s.readers[a]
                },
            ),
            ..s
        },
        Action::Read { a } => {
            let reader = s.readers[a];
            let access = reader.op.access();
            System {
                bus: protocol::after(s.bus, access, seq![]),
                readers: s.readers.update(
                    a,
                    Reader {
                        op: reader.op.step(protocol::reply_to(s.bus, access)),
                        buf: protocol::buffer_after(s.bus, access, reader.buf),
                        ..reader
                    },
                ),
                ..s
            }
        },
    }
}

/// Executions begin with a bus that was just made.
pub proof fn law_fresh_is_initial(
    was: BusView,
    capacity: u64,
    slot_bytes: u64,
    writers: Seq<Writer>,
    readers: Seq<Reader>,
)
    requires
        bus::fresh(was, capacity, slot_bytes).shaped(),
        forall|p: int| 0 <= p < writers.len() ==> (#[trigger] writers[p]).op.phase is Done,
        forall|a: int|
            0 <= a < readers.len() ==> (#[trigger] readers[a]).join == Subscribe::begun()
                && readers[a].op.phase is Done,
    ensures
        initial(
            System {
                bus: bus::fresh(was, capacity, slot_bytes),
                writers,
                readers,
                log: Map::empty(),
            },
        ),
{
}

// ---- what holds in every state ----

/// The sequence numbers of the bus and of its slots fit together.
#[verifier::opaque]
pub open spec fn ring_inv(s: System) -> bool {
    let bus = s.bus;
    &&& bus.shaped()
    &&& bus.intact()
    &&& bus.write_seq <= bus.claim_seq
    &&& forall|j: int|
        0 <= j < bus.capacity && (#[trigger] bus.slots[j]).seq != 0 ==> bus.slot_of(
            bus.slots[j].seq - 1,
        ) == j && bus.slots[j].seq - 1 < bus.claim_seq
    &&& forall|j: int|
        0 <= j < bus.capacity ==> (#[trigger] bus.slots[j]).seq <= bus.write_seq + bus.capacity
    &&& forall|n: int| 0 <= n < bus.write_seq ==> #[trigger] seq_in(bus.slots, n) >= n + 1
}

/// Every claimed sequence number is committed or held by one producer.
#[verifier::opaque]
pub open spec fn claim_inv(s: System) -> bool {
    let bus = s.bus;
    &&& forall|p: int|
        0 <= p < s.writers.len() && (#[trigger] s.writers[p]).op.phase !is Done ==> {
            let w = s.writers[p];
            &&& w.op.valid()
            &&& w.op.capacity == bus.capacity
            &&& w.op.len == w.data.len()
            &&& bus.takes(w.data.len() as int)
        }
    &&& forall|p: int|
        0 <= p < s.writers.len() && holds((#[trigger] s.writers[p]).op) ==> {
            let w = s.writers[p];
            &&& w.op.claim < bus.claim_seq
            &&& seq_in(bus.slots, w.op.claim as int) <= w.op.claim
            &&& s.log[w.op.claim as int] == w.data
        }
    &&& forall|p: int, q: int|
        0 <= p < s.writers.len() && 0 <= q < s.writers.len() && p != q && holds(
            (#[trigger] s.writers[p]).op,
        ) && holds((#[trigger] s.writers[q]).op) ==> s.writers[p].op.claim
            != s.writers[q].op.claim
    &&& forall|n: int|
        0 <= n < bus.claim_seq ==> #[trigger] seq_in(bus.slots, n) >= n + 1 || exists|p: int|
            0 <= p < s.writers.len() && holds((#[trigger] s.writers[p]).op)
                && s.writers[p].op.claim == n
    &&& forall|n: int| #[trigger] s.log.contains_key(n) <==> 0 <= n < bus.claim_seq
    &&& forall|n: int| 0 <= n < bus.claim_seq ==> 0 < (#[trigger] s.log[n]).len()
}

/// Whether a subscriber has the place `i`.
pub open spec fn taken(readers: Seq<Reader>, i: int) -> bool {
    exists|a: int|
        0 <= a < readers.len() && (#[trigger] readers[a]).placed() && readers[a].join.place == i
}

/// Subscribers have places of their own, and nothing that they are still to receive is gone.
#[verifier::opaque]
pub open spec fn place_inv(s: System) -> bool {
    let bus = s.bus;
    &&& forall|a: int|
        0 <= a < s.readers.len() ==> {
            let r = #[trigger] s.readers[a];
            &&& r.join.valid()
            &&& r.placed() ==> r.join.place < bus.active()
            &&& r.placed() && !r.join.joined ==> bus.read_seq[r.join.place as int] == 0
            &&& r.join.phase is Join ==> r.op.phase is Done
            &&& r.op.phase !is Done ==> r.join.joined
        }
    &&& forall|a: int, b: int|
        0 <= a < s.readers.len() && 0 <= b < s.readers.len() && a != b && (
        #[trigger] s.readers[a]).placed() && (#[trigger] s.readers[b]).placed()
            ==> s.readers[a].join.place != s.readers[b].join.place
    &&& forall|i: int| 0 <= i < bus.active() ==> #[trigger] taken(s.readers, i)
    &&& forall|i: int| bus.active() <= i < MAX_SUBSCRIBERS ==> bus.read_seq[i] == 0
    &&& forall|a: int|
        0 <= a < s.readers.len() && (#[trigger] s.readers[a]).started()
            ==> s.readers[a].position(bus.read_seq) <= bus.claim_seq
    &&& forall|a: int, j: int|
        0 <= a < s.readers.len() && 0 <= j < bus.capacity && (#[trigger] s.readers[a]).started()
            ==> (#[trigger] bus.slots[j]).seq <= s.readers[a].position(bus.read_seq) + bus.capacity
}

/// A producer knows no more room than there is.
#[verifier::opaque]
pub open spec fn room_inv(s: System) -> bool {
    let bus = s.bus;
    &&& forall|p: int|
        0 <= p < s.writers.len() ==> {
            let op = (#[trigger] s.writers[p]).op;
            &&& op.phase is Subs || op.phase is Reads || cleared(op) ==> op.min_read <= bus.write_seq
            &&& cleared(op) ==> op.claim < op.min_read + bus.capacity
        }
    &&& forall|p: int, a: int|
        0 <= p < s.writers.len() && 0 <= a < s.readers.len() && (
        #[trigger] s.readers[a]).started() ==> {
            let op = (#[trigger] s.writers[p]).op;
            let r = s.readers[a];
            &&& op.phase is Reads && (r.join.place < op.next_sub || op.subs <= r.join.place)
                ==> op.min_read <= r.position(bus.read_seq)
            &&& cleared(op) ==> op.min_read <= r.position(bus.read_seq)
        }
}

/// Whether a producer is at work on the slot `j`.
pub open spec fn busy(writers: Seq<Writer>, capacity: u64, j: int) -> bool {
    exists|p: int|
        0 <= p < writers.len() && owns((#[trigger] writers[p]).op) && writers[p].op.claim
            % capacity == j
}

/// A committed slot that no producer is at work on holds the message of its sequence number.
#[verifier::opaque]
pub open spec fn content_inv(s: System) -> bool {
    let bus = s.bus;
    &&& forall|j: int|
        0 <= j < bus.capacity && (#[trigger] bus.slots[j]).seq != 0 && !busy(s.writers, s.bus.capacity, j)
            ==> bus.slots[j].len == s.log[bus.slots[j].seq - 1].len() && bus.slots[j].payload.take(
            bus.slots[j].len as int,
        ) == s.log[bus.slots[j].seq - 1]
    &&& forall|p: int|
        0 <= p < s.writers.len() ==> {
            let w = #[trigger] s.writers[p];
            let slot = bus.slots[bus.slot_of(w.op.claim as int)];
            &&& w.op.phase is Len || w.op.phase is Commit ==> slot.payload.take(
                w.data.len() as int,
            ) == w.data
            &&& w.op.phase is Commit ==> slot.len == w.data.len()
        }
}

/// A subscriber that has found a message still has it before it.
#[verifier::opaque]
pub open spec fn read_inv(s: System) -> bool {
    let bus = s.bus;
    forall|a: int|
        0 <= a < s.readers.len() && (#[trigger] s.readers[a]).op.phase !is Done ==> {
            let r = s.readers[a];
            let seq = r.op.seq as int;
            &&& r.op.valid()
            &&& r.op.capacity == bus.capacity
            &&& r.op.sub == r.join.place
            &&& r.op.room == r.buf.len()
            &&& r.op.phase !is Position ==> seq == r.position(bus.read_seq)
            &&& r.reading() ==> seq_in(bus.slots, seq) == seq + 1
            &&& r.op.phase is Copy || r.op.phase is Pass ==> r.op.len == s.log[seq].len()
            &&& r.op.phase is Pass ==> r.buf.take(r.op.len as int) == s.log[seq]
        }
}

/// Someone is about to move the write sequence on whenever it can be moved on.
#[verifier::opaque]
pub open spec fn tail_inv(s: System) -> bool {
    let bus = s.bus;
    let w = bus.write_seq as int;
    &&& bus.committed(w) ==> exists|p: int|
        0 <= p < s.writers.len() && ({
            let op = (#[trigger] s.writers[p]).op;
            op.phase is Tail || ((op.phase is TailSlot || op.phase is TailSwap) && op.tail == w)
        })
    &&& forall|p: int|
        0 <= p < s.writers.len() && (#[trigger] s.writers[p]).op.phase is TailSwap
            ==> s.writers[p].op.tail <= w && seq_in(bus.slots, s.writers[p].op.tail as int)
            >= s.writers[p].op.tail + 1
    &&& forall|p: int|
        0 <= p < s.writers.len() && (#[trigger] s.writers[p]).op.phase is TailSlot
            ==> s.writers[p].op.tail <= w
}

/// What holds in every state that a bus and those who work on it can reach.
pub open spec fn inv(s: System) -> bool {
    &&& ring_inv(s)
    &&& claim_inv(s)
    &&& place_inv(s)
    &&& room_inv(s)
    &&& content_inv(s)
    &&& read_inv(s)
    &&& tail_inv(s)
}

/// The first state is one in which it holds.
pub proof fn law_initial(s: System)
    requires
        initial(s),
    ensures
        inv(s),
{
    reveal(ring_inv);
    reveal(claim_inv);
    reveal(place_inv);
    reveal(room_inv);
    reveal(content_inv);
    reveal(read_inv);
    reveal(tail_inv);
    assert(!s.bus.committed(0));
}

/// Of two different sequence numbers on one slot, the later is at least a ring ahead.
proof fn lemma_same_slot(bus: BusView, m: int, n: int)
    requires
        bus.capacity > 0,
        bus.slot_of(m) == bus.slot_of(n),
        m < n,
    ensures
        m + bus.capacity <= n,
{
    if n < m + bus.capacity {
        fanout::lemma_slots_differ(m, n, bus.capacity as int);
    }
}

/// A slot that a producer owns is owned by no other producer.
proof fn lemma_one_owner(s: System, p: int, q: int)
    requires
        ring_inv(s),
        claim_inv(s),
        room_inv(s),
        0 <= p < s.writers.len(),
        0 <= q < s.writers.len(),
        p != q,
        owns(s.writers[p].op),
        holds(s.writers[q].op),
        s.bus.slot_of(s.writers[p].op.claim as int) == s.bus.slot_of(s.writers[q].op.claim as int),
    ensures
        !owns(s.writers[q].op),
        s.writers[p].op.claim < s.writers[q].op.claim,
{
    reveal(ring_inv);
    reveal(claim_inv);
    reveal(room_inv);
    let k = s.writers[p].op.claim as int;
    let l = s.writers[q].op.claim as int;
    assert(k != l);
    if l < k {
        lemma_same_slot(s.bus, l, k);
        assert(seq_in(s.bus.slots, l) >= l + 1);
    } else if owns(s.writers[q].op) {
        lemma_same_slot(s.bus, k, l);
        assert(seq_in(s.bus.slots, k) >= k + 1);
    }
}

/// A slot that a subscriber reads is owned by no producer.
proof fn lemma_reader_undisturbed(s: System, p: int, a: int)
    requires
        ring_inv(s),
        claim_inv(s),
        place_inv(s),
        room_inv(s),
        read_inv(s),
        0 <= p < s.writers.len(),
        0 <= a < s.readers.len(),
        owns(s.writers[p].op),
        s.readers[a].reading(),
    ensures
        s.bus.slot_of(s.writers[p].op.claim as int) != s.bus.slot_of(s.readers[a].op.seq as int),
{
    reveal(ring_inv);
    reveal(claim_inv);
    reveal(place_inv);
    reveal(room_inv);
    reveal(read_inv);
    let k = s.writers[p].op.claim as int;
    let n = s.readers[a].op.seq as int;
    if s.bus.slot_of(k) == s.bus.slot_of(n) {
        assert(seq_in(s.bus.slots, n) == n + 1);
        assert(seq_in(s.bus.slots, k) <= k);
        assert(s.readers[a].started());
        assert(s.writers[p].op.min_read <= s.readers[a].position(s.bus.read_seq));
        lemma_same_slot(s.bus, n, k);
    }
}

/// Whether the producer is about to look whether the write sequence can be moved on.
spec fn minds_tail(op: Publish, bus: BusView) -> bool {
    op.phase is Tail || ((op.phase is TailSlot || op.phase is TailSwap) && op.tail
        == bus.write_seq)
}

/// What a producer `w` knows is so.
spec fn writer_inv(s: System, w: Writer) -> bool {
    let bus = s.bus;
    let op = w.op;
    &&& op.phase !is Done ==> op.valid() && op.capacity == bus.capacity && op.len == w.data.len()
        && bus.takes(w.data.len() as int)
    &&& op.phase is Subs || op.phase is Reads || cleared(op) ==> op.min_read <= bus.write_seq
    &&& cleared(op) ==> op.claim < op.min_read + bus.capacity
    &&& forall|a: int|
        0 <= a < s.readers.len() && (#[trigger] s.readers[a]).started() ==> {
            let r = s.readers[a];
            &&& op.phase is Reads && (r.join.place < op.next_sub || op.subs <= r.join.place)
                ==> op.min_read <= r.position(bus.read_seq)
            &&& cleared(op) ==> op.min_read <= r.position(bus.read_seq)
        }
    &&& op.phase is TailSwap ==> op.tail <= bus.write_seq && seq_in(bus.slots, op.tail as int) >= op.tail
        + 1
    &&& op.phase is TailSlot ==> op.tail <= bus.write_seq
}

/// A step that changes only what one producer knows keeps what holds.
proof fn lemma_local(s: System, p: int, w: Writer)
    requires
        inv(s),
        0 <= p < s.writers.len(),
        !owns(s.writers[p].op),
        holds(w.op) <==> holds(s.writers[p].op),
        holds(w.op) ==> w.op.claim == s.writers[p].op.claim && w.data == s.writers[p].data,
        w.op.phase !is Len,
        w.op.phase !is Commit,
        writer_inv(s, w),
        s.bus.committed(s.bus.write_seq as int) && minds_tail(s.writers[p].op, s.bus)
            ==> minds_tail(w.op, s.bus),
    ensures
        inv(System { writers: s.writers.update(p, w), ..s }),
{
    let t = System { writers: s.writers.update(p, w), ..s };
    assert(ring_inv(t)) by {
        reveal(ring_inv);
    }
    assert(claim_inv(t)) by {
        reveal(claim_inv);
        assert forall|n: int| 0 <= n < t.bus.claim_seq implies #[trigger] seq_in(t.bus.slots, n)
            >= n + 1 || exists|q: int|
            0 <= q < t.writers.len() && holds((#[trigger] t.writers[q]).op)
                && t.writers[q].op.claim == n by {
            if seq_in(s.bus.slots, n) < n + 1 {
                let q = choose|q: int|
                    0 <= q < s.writers.len() && holds((#[trigger] s.writers[q]).op)
                        && s.writers[q].op.claim == n;
                assert(holds(t.writers[q].op) && t.writers[q].op.claim == n);
            }
        }
    }
    assert(place_inv(t)) by {
        reveal(place_inv);
    }
    assert(room_inv(t)) by {
        reveal(room_inv);
    }
    assert(content_inv(t)) by {
        reveal(content_inv);
        assert forall|j: int|
            busy(s.writers, s.bus.capacity, j) implies busy(t.writers, t.bus.capacity, j) by {
            let q = choose|q: int|
                0 <= q < s.writers.len() && owns((#[trigger] s.writers[q]).op)
                    && s.writers[q].op.claim % s.bus.capacity == j;
            assert(owns(t.writers[q].op));
        }
    }
    assert(read_inv(t)) by {
        reveal(read_inv);
    }
    assert(tail_inv(t)) by {
        reveal(tail_inv);
        if s.bus.committed(s.bus.write_seq as int) {
            let q = choose|q: int|
                0 <= q < s.writers.len() && minds_tail((#[trigger] s.writers[q]).op, s.bus);
            assert(minds_tail(t.writers[q].op, t.bus));
        }
    }
}

/// What every producer knows is so.
proof fn lemma_writer(s: System, p: int)
    requires
        inv(s),
        0 <= p < s.writers.len(),
    ensures
        writer_inv(s, s.writers[p]),
{
    reveal(claim_inv);
    reveal(room_inv);
    reveal(tail_inv);
}

proof fn lemma_begin(s: System, p: int, data: Seq<u8>, blocking: bool)
    requires
        inv(s),
        allowed(s, Action::Begin { p, data, blocking }),
    ensures
        inv(next(s, Action::Begin { p, data, blocking })),
{
    reveal(ring_inv);
    let op = Publish::begun(blocking, s.bus.capacity, data.len() as u32);
    let w = Writer { op, data };
    lemma_local(s, p, w);
    assert(next(s, Action::Begin { p, data, blocking }) == System {
        writers: s.writers.update(p, w),
        ..s
    });
}

/// Steps of a producer that only load.
proof fn lemma_write_loads(s: System, p: int)
    requires
        inv(s),
        allowed(s, Action::Write { p }),
        !protocol::writes(s.bus, s.writers[p].op.access()),
    ensures
        inv(next(s, Action::Write { p })),
{
    let w = s.writers[p];
    let a = w.op.access();
    let reply = protocol::reply_to(s.bus, a);
    let op = w.op.step(reply);
    let then = Writer { op, ..w };
    assert(protocol::after(s.bus, a, w.data) == s.bus);
    lemma_writer(s, p);
    assert(s.bus.shaped()) by {
        reveal(ring_inv);
    }
    if w.op.phase is Subs {
        reveal(place_inv);
    }
    if w.op.phase is Reads {
        reveal(place_inv);
        assert forall|b: int|
            0 <= b < s.readers.len() && (#[trigger] s.readers[b]).started() && (
            s.readers[b].join.place < op.next_sub || op.subs
                <= s.readers[b].join.place) implies op.min_read <= s.readers[b].position(s.bus.read_seq) by {}
    }
    lemma_local(s, p, then);
    assert(next(s, Action::Write { p }) =~= System { writers: s.writers.update(p, then), ..s });
}

proof fn lemma_swap_fails(s: System, p: int)
    requires
        inv(s),
        allowed(s, Action::SwapFails { p }),
    ensures
        inv(next(s, Action::SwapFails { p })),
{
    let w = s.writers[p];
    let then = Writer { op: w.op.step(Reply::Swapped(false)), ..w };
    lemma_writer(s, p);
    lemma_local(s, p, then);
    assert(next(s, Action::SwapFails { p }) == System { writers: s.writers.update(p, then), ..s });
}

/// Whether `t` is `s` after the producer `p` has claimed a sequence number.
spec fn claims(s: System, t: System, p: int) -> bool {
    let c = s.bus.claim_seq;
    &&& 0 <= p < s.writers.len()
    &&& c < u64::MAX
    &&& t.bus == s.bus.claimed()
    &&& t.readers == s.readers
    &&& t.log == s.log.insert(c as int, s.writers[p].data)
    &&& t.writers == s.writers.update(p, t.writers[p])
    &&& t.writers[p].data == s.writers[p].data
    &&& t.writers[p].op.claim == c
    &&& t.writers[p].op.phase is Write || t.writers[p].op.phase is Fill
    &&& holds(t.writers[p].op)
    &&& !holds(s.writers[p].op)
    &&& s.writers[p].op.phase is Claim || s.writers[p].op.phase is Swap
}

proof fn lemma_claims_claim_inv(s: System, t: System, p: int)
    requires
        inv(s),
        claims(s, t, p),
        writer_inv(t, t.writers[p]),
    ensures
        claim_inv(t),
{
    reveal(claim_inv);
    let c = s.bus.claim_seq as int;
    assert(seq_in(s.bus.slots, c) <= c) by {
        reveal(ring_inv);
        let j = s.bus.slot_of(c);
        assert(s.bus.slots[j].seq != 0 ==> s.bus.slots[j].seq - 1 < c);
    }
    assert forall|n: int| 0 <= n < t.bus.claim_seq implies #[trigger] seq_in(t.bus.slots, n) >= n
        + 1 || exists|q: int|
        0 <= q < t.writers.len() && holds((#[trigger] t.writers[q]).op) && t.writers[q].op.claim
            == n by {
        if n == c {
            assert(holds(t.writers[p].op) && t.writers[p].op.claim == n);
        } else if seq_in(s.bus.slots, n) < n + 1 {
            let q = choose|q: int|
                0 <= q < s.writers.len() && holds((#[trigger] s.writers[q]).op)
                    && s.writers[q].op.claim == n;
            assert(holds(t.writers[q].op) && t.writers[q].op.claim == n);
        }
    }
}

/// A producer claims a sequence number.
proof fn lemma_claim(s: System, p: int)
    requires
        inv(s),
        allowed(s, Action::Write { p }),
        s.writers[p].op.phase is Claim || s.writers[p].op.phase is Swap,
        protocol::writes(s.bus, s.writers[p].op.access()),
    ensures
        inv(next(s, Action::Write { p })),
{
    let t = next(s, Action::Write { p });
    let c = s.bus.claim_seq as int;
    lemma_writer(s, p);
    assert(s.bus.shaped()) by {
        reveal(ring_inv);
    }
    assert(claims(s, t, p));
    assert(writer_inv(t, t.writers[p]));
    assert(ring_inv(t)) by {
        reveal(ring_inv);
    }
    lemma_claims_claim_inv(s, t, p);
    assert(place_inv(t)) by {
        reveal(place_inv);
    }
    assert(room_inv(t)) by {
        reveal(room_inv);
    }
    assert(content_inv(t)) by {
        reveal(content_inv);
        reveal(ring_inv);
        assert forall|j: int|
            busy(s.writers, s.bus.capacity, j) implies busy(t.writers, t.bus.capacity, j) by {
            let q = choose|q: int|
                0 <= q < s.writers.len() && owns((#[trigger] s.writers[q]).op)
                    && s.writers[q].op.claim % s.bus.capacity == j;
            assert(owns(t.writers[q].op));
        }
    }
    assert(read_inv(t)) by {
        reveal(read_inv);
        reveal(ring_inv);
        assert forall|a: int|
            0 <= a < s.readers.len() && (
            #[trigger] s.readers[a]).reading() implies s.readers[a].op.seq < c by {
            let seq = s.readers[a].op.seq as int;
            assert(seq_in(s.bus.slots, seq) == seq + 1);
            assert(s.bus.slots[s.bus.slot_of(seq)].seq - 1 < c);
        }
    }
    assert(tail_inv(t)) by {
        reveal(tail_inv);
        if s.bus.committed(s.bus.write_seq as int) {
            let q = choose|q: int|
                0 <= q < s.writers.len() && minds_tail((#[trigger] s.writers[q]).op, s.bus);
            assert(minds_tail(t.writers[q].op, t.bus));
        }
    }
}

/// A producer writes to the slot that it owns.
proof fn lemma_fill(s: System, p: int)
    requires
        inv(s),
        allowed(s, Action::Write { p }),
        s.writers[p].op.phase is Fill || s.writers[p].op.phase is Len,
    ensures
        inv(next(s, Action::Write { p })),
{
    let t = next(s, Action::Write { p });
    let w = s.writers[p];
    let k = w.op.claim as int;
    let slot = s.bus.slot_of(k);
    lemma_writer(s, p);
    assert(s.bus.shaped() && s.bus.intact()) by {
        reveal(ring_inv);
    }
    assert(0 <= slot < s.bus.capacity);
    assert(w.op.slot() == slot);
    assert(forall|j: int|
        0 <= j < s.bus.capacity ==> (#[trigger] t.bus.slots[j]).seq == s.bus.slots[j].seq);
    assert(forall|j: int|
        0 <= j < s.bus.capacity && j != slot ==> #[trigger] t.bus.slots[j] == s.bus.slots[j]);
    assert forall|n: int| #[trigger]
        seq_in(t.bus.slots, n) == seq_in(s.bus.slots, n) by {}
    assert(t.bus.slots[slot].payload.len() == s.bus.slot_bytes);
    assert(ring_inv(t)) by {
        reveal(ring_inv);
    }
    assert(claim_inv(t)) by {
        reveal(claim_inv);
        assert forall|n: int| 0 <= n < t.bus.claim_seq implies #[trigger] seq_in(t.bus.slots, n)
            >= n + 1 || exists|q: int|
            0 <= q < t.writers.len() && holds((#[trigger] t.writers[q]).op)
                && t.writers[q].op.claim == n by {
            if seq_in(s.bus.slots, n) < n + 1 {
                let q = choose|q: int|
                    0 <= q < s.writers.len() && holds((#[trigger] s.writers[q]).op)
                        && s.writers[q].op.claim == n;
                assert(holds(t.writers[q].op) && t.writers[q].op.claim == n);
            }
        }
    }
    assert(place_inv(t)) by {
        reveal(place_inv);
    }
    assert(room_inv(t)) by {
        reveal(room_inv);
    }
    assert(content_inv(t)) by {
        assert forall|q: int| 0 <= q < s.writers.len() && q != p && owns(
            (#[trigger] s.writers[q]).op,
        ) implies s.bus.slot_of(s.writers[q].op.claim as int) != slot by {
            if s.bus.slot_of(s.writers[q].op.claim as int) == slot {
                lemma_one_owner(s, p, q);
            }
        }
        reveal(content_inv);
        assert(busy(t.writers, t.bus.capacity, slot)) by {
            assert(owns(t.writers[p].op));
        }
        assert forall|j: int|
            busy(s.writers, s.bus.capacity, j) implies busy(t.writers, t.bus.capacity, j) by {
            let q = choose|q: int|
                0 <= q < s.writers.len() && owns((#[trigger] s.writers[q]).op)
                    && s.writers[q].op.claim % s.bus.capacity == j;
            assert(owns(t.writers[q].op));
        }
        assert(t.bus.slots[slot].payload.take(w.data.len() as int) =~= w.data);
    }
    assert(read_inv(t)) by {
        reveal(read_inv);
    }
    assert(tail_inv(t)) by {
        reveal(tail_inv);
        assert(t.bus.committed(t.bus.write_seq as int) == s.bus.committed(s.bus.write_seq as int));
        if s.bus.committed(s.bus.write_seq as int) {
            let q = choose|q: int|
                0 <= q < s.writers.len() && minds_tail((#[trigger] s.writers[q]).op, s.bus);
            assert(minds_tail(t.writers[q].op, t.bus));
        }
    }
}

/// A producer commits its message.
proof fn lemma_commit(s: System, p: int)
    requires
        inv(s),
        allowed(s, Action::Write { p }),
        s.writers[p].op.phase is Commit,
    ensures
        inv(next(s, Action::Write { p })),
{
    let t = next(s, Action::Write { p });
    let w = s.writers[p];
    let k = w.op.claim as int;
    let slot = s.bus.slot_of(k);
    lemma_writer(s, p);
    assert(s.bus.shaped() && s.bus.intact()) by {
        reveal(ring_inv);
    }
    assert(0 <= slot < s.bus.capacity);
    assert(w.op.slot() == slot);
    assert(k < s.bus.claim_seq && seq_in(s.bus.slots, k) <= k && s.log[k] == w.data) by {
        reveal(claim_inv);
    }
    assert(t.bus.slots[slot].seq == k + 1);
    assert(forall|j: int|
        0 <= j < s.bus.capacity && j != slot ==> #[trigger] t.bus.slots[j] == s.bus.slots[j]);
    assert forall|n: int| s.bus.slot_of(n) != slot implies #[trigger] seq_in(t.bus.slots, n)
        == seq_in(s.bus.slots, n) by {}
    assert forall|n: int| #[trigger]
        seq_in(t.bus.slots, n) >= seq_in(s.bus.slots, n) by {}
    assert(ring_inv(t)) by {
        reveal(ring_inv);
    }
    assert(claim_inv(t)) by {
        assert forall|q: int| 0 <= q < s.writers.len() && q != p && holds(
            (#[trigger] s.writers[q]).op,
        ) && s.bus.slot_of(s.writers[q].op.claim as int) == slot implies s.writers[q].op.claim
            > k by {
            lemma_one_owner(s, p, q);
        }
        reveal(claim_inv);
        assert forall|n: int| 0 <= n < t.bus.claim_seq implies #[trigger] seq_in(t.bus.slots, n)
            >= n + 1 || exists|q: int|
            0 <= q < t.writers.len() && holds((#[trigger] t.writers[q]).op)
                && t.writers[q].op.claim == n by {
            if seq_in(s.bus.slots, n) < n + 1 {
                let q = choose|q: int|
                    0 <= q < s.writers.len() && holds((#[trigger] s.writers[q]).op)
                        && s.writers[q].op.claim == n;
                if q == p {
                    assert(seq_in(t.bus.slots, k) == k + 1);
                } else {
                    assert(holds(t.writers[q].op) && t.writers[q].op.claim == n);
                }
            }
        }
    }
    assert(place_inv(t)) by {
        reveal(place_inv);
    }
    assert(room_inv(t)) by {
        reveal(room_inv);
    }
    assert(content_inv(t)) by {
        assert forall|q: int| 0 <= q < s.writers.len() && q != p && owns(
            (#[trigger] s.writers[q]).op,
        ) implies s.bus.slot_of(s.writers[q].op.claim as int) != slot by {
            if s.bus.slot_of(s.writers[q].op.claim as int) == slot {
                lemma_one_owner(s, p, q);
            }
        }
        reveal(content_inv);
        assert forall|j: int|
            j != slot && busy(s.writers, s.bus.capacity, j) implies busy(
            t.writers,
            t.bus.capacity,
            j,
        ) by {
            let q = choose|q: int|
                0 <= q < s.writers.len() && owns((#[trigger] s.writers[q]).op)
                    && s.writers[q].op.claim % s.bus.capacity == j;
            assert(q != p);
            assert(owns(t.writers[q].op));
        }
    }
    assert(read_inv(t)) by {
        assert forall|a: int| 0 <= a < s.readers.len() && (
        #[trigger] s.readers[a]).reading() implies s.bus.slot_of(s.readers[a].op.seq as int)
            != slot by {
            lemma_reader_undisturbed(s, p, a);
        }
        reveal(read_inv);
    }
    assert(tail_inv(t)) by {
        reveal(tail_inv);
        assert(minds_tail(t.writers[p].op, t.bus));
    }
}

/// A producer moves the write sequence on.
proof fn lemma_tail_swap(s: System, p: int)
    requires
        inv(s),
        allowed(s, Action::Write { p }),
        s.writers[p].op.phase is TailSwap,
        protocol::writes(s.bus, s.writers[p].op.access()),
    ensures
        inv(next(s, Action::Write { p })),
{
    let t = next(s, Action::Write { p });
    let n = s.bus.write_seq as int;
    lemma_writer(s, p);
    assert(s.bus.shaped()) by {
        reveal(ring_inv);
    }
    assert(seq_in(s.bus.slots, n) == n + 1 && n < s.bus.claim_seq) by {
        reveal(ring_inv);
        let j = s.bus.slot_of(n);
        let m = s.bus.slots[j].seq - 1;
        assert(s.bus.slot_of(m) == j);
        if m > n {
            lemma_same_slot(s.bus, n, m);
        }
    }
    assert(t.bus == BusView { write_seq: (n + 1) as u64, ..s.bus });
    assert(ring_inv(t)) by {
        reveal(ring_inv);
    }
    assert(claim_inv(t)) by {
        reveal(claim_inv);
        assert forall|m: int| 0 <= m < t.bus.claim_seq implies #[trigger] seq_in(t.bus.slots, m)
            >= m + 1 || exists|q: int|
            0 <= q < t.writers.len() && holds((#[trigger] t.writers[q]).op)
                && t.writers[q].op.claim == m by {
            if seq_in(s.bus.slots, m) < m + 1 {
                let q = choose|q: int|
                    0 <= q < s.writers.len() && holds((#[trigger] s.writers[q]).op)
                        && s.writers[q].op.claim == m;
                assert(holds(t.writers[q].op) && t.writers[q].op.claim == m);
            }
        }
    }
    assert(place_inv(t)) by {
        reveal(place_inv);
    }
    assert(room_inv(t)) by {
        reveal(room_inv);
    }
    assert(content_inv(t)) by {
        reveal(content_inv);
        assert forall|j: int|
            busy(s.writers, s.bus.capacity, j) implies busy(t.writers, t.bus.capacity, j) by {
            let q = choose|q: int|
                0 <= q < s.writers.len() && owns((#[trigger] s.writers[q]).op)
                    && s.writers[q].op.claim % s.bus.capacity == j;
            assert(owns(t.writers[q].op));
        }
    }
    assert(read_inv(t)) by {
        reveal(read_inv);
    }
    assert(tail_inv(t)) by {
        reveal(tail_inv);
        assert(minds_tail(t.writers[p].op, t.bus));
    }
}

/// A step of a subscriber that leaves ring and positions alone keeps what holds of the producers.
proof fn lemma_reader_local(s: System, t: System, a: int)
    requires
        inv(s),
        0 <= a < s.readers.len(),
        t.writers == s.writers,
        t.log == s.log,
        t.readers == s.readers.update(a, t.readers[a]),
        t.bus == (BusView { n_subs: t.bus.n_subs, read_seq: t.bus.read_seq, ..s.bus }),
        t.bus.read_seq.len() == MAX_SUBSCRIBERS,
    ensures
        ring_inv(t),
        claim_inv(t),
        content_inv(t),
        tail_inv(t),
{
    assert(ring_inv(t)) by {
        reveal(ring_inv);
    }
    assert(claim_inv(t)) by {
        reveal(claim_inv);
    }
    assert(content_inv(t)) by {
        reveal(content_inv);
    }
    assert(tail_inv(t)) by {
        reveal(tail_inv);
    }
}

proof fn lemma_join(s: System, a: int)
    requires
        inv(s),
        allowed(s, Action::Join { a }),
    ensures
        inv(next(s, Action::Join { a })),
{
    let t = next(s, Action::Join { a });
    let r = s.readers[a];
    let then = t.readers[a];
    assert(s.bus.shaped()) by {
        reveal(ring_inv);
    }
    assert(r.join.valid()) by {
        reveal(place_inv);
    }
    lemma_reader_local(s, t, a);
    assert forall|b: int| 0 <= b < s.readers.len() && b != a implies #[trigger] t.readers[b]
        == s.readers[b] by {}
    assert forall|b: int| 0 <= b < s.readers.len() && b != a && (
    #[trigger] s.readers[b]).started() implies s.readers[b].position(t.bus.read_seq)
        == s.readers[b].position(s.bus.read_seq) by {
        reveal(place_inv);
    }
    assert(place_inv(t)) by {
        reveal(place_inv);
        reveal(ring_inv);
        assert forall|i: int| 0 <= i < t.bus.active() implies #[trigger] taken(t.readers, i) by {
            if i < s.bus.active() {
                assert(taken(s.readers, i));
                let b = choose|b: int|
                    0 <= b < s.readers.len() && (#[trigger] s.readers[b]).placed()
                        && s.readers[b].join.place == i;
                assert(t.readers[b].placed() && t.readers[b].join.place == i);
            } else {
                assert(then.placed() && then.join.place == i);
            }
        }
    }
    assert(room_inv(t)) by {
        reveal(room_inv);
        reveal(place_inv);
    }
    assert(read_inv(t)) by {
        reveal(read_inv);
        reveal(place_inv);
    }
}

proof fn lemma_attempt(s: System, a: int, buf: Seq<u8>)
    requires
        inv(s),
        allowed(s, Action::Attempt { a, buf }),
    ensures
        inv(next(s, Action::Attempt { a, buf })),
{
    let t = next(s, Action::Attempt { a, buf });
    assert(s.bus.shaped()) by {
        reveal(ring_inv);
    }
    lemma_reader_local(s, t, a);
    assert(place_inv(t)) by {
        reveal(place_inv);
        assert forall|i: int| 0 <= i < t.bus.active() implies #[trigger] taken(t.readers, i) by {
            assert(taken(s.readers, i));
            let b = choose|b: int|
                0 <= b < s.readers.len() && (#[trigger] s.readers[b]).placed()
                    && s.readers[b].join.place == i;
            assert(t.readers[b].placed() && t.readers[b].join.place == i);
        }
    }
    assert(room_inv(t)) by {
        reveal(room_inv);
    }
    assert(read_inv(t)) by {
        reveal(read_inv);
        reveal(place_inv);
    }
}

/// A subscriber that has found a message finds it unchanged in its slot.
proof fn lemma_message_in_slot(s: System, a: int)
    requires
        inv(s),
        0 <= a < s.readers.len(),
        s.readers[a].reading(),
    ensures
        ({
            let seq = s.readers[a].op.seq as int;
            &&& s.bus.slots[s.bus.slot_of(seq)].len == s.log[seq].len()
            &&& s.bus.message(seq) == s.log[seq]
            &&& 0 <= seq < s.bus.claim_seq
        }),
{
    let seq = s.readers[a].op.seq as int;
    let j = s.bus.slot_of(seq);
    assert(s.bus.shaped() && s.bus.intact()) by {
        reveal(ring_inv);
    }
    assert(seq_in(s.bus.slots, seq) == seq + 1) by {
        reveal(read_inv);
    }
    assert(!busy(s.writers, s.bus.capacity, j)) by {
        if busy(s.writers, s.bus.capacity, j) {
            let q = choose|q: int|
                0 <= q < s.writers.len() && owns((#[trigger] s.writers[q]).op)
                    && s.writers[q].op.claim % s.bus.capacity == j;
            lemma_reader_undisturbed(s, q, a);
        }
    }
    assert(s.bus.slots[j].seq == seq + 1);
    reveal(content_inv);
    reveal(ring_inv);
}

proof fn lemma_read(s: System, a: int)
    requires
        inv(s),
        allowed(s, Action::Read { a }),
    ensures
        inv(next(s, Action::Read { a })),
{
    let t = next(s, Action::Read { a });
    let r = s.readers[a];
    let then = t.readers[a];
    let place = r.join.place as int;
    assert(s.bus.shaped() && s.bus.intact()) by {
        reveal(ring_inv);
    }
    assert(r.join.joined && r.join.valid() && place < s.bus.active()) by {
        reveal(place_inv);
    }
    assert(r.op.valid() && r.op.capacity == s.bus.capacity && r.op.sub == place && r.op.room
        == r.buf.len()) by {
        reveal(read_inv);
    }
    if r.reading() {
        lemma_message_in_slot(s, a);
        assert(r.op.seq == r.position(s.bus.read_seq)) by {
            reveal(read_inv);
        }
    }
    lemma_reader_local(s, t, a);
    assert forall|b: int| 0 <= b < s.readers.len() && b != a implies #[trigger] t.readers[b]
        == s.readers[b] by {}
    assert forall|b: int| 0 <= b < s.readers.len() && (
    #[trigger] s.readers[b]).started() implies s.readers[b].position(t.bus.read_seq)
        >= s.readers[b].position(s.bus.read_seq) && (b != a ==> s.readers[b].position(
        t.bus.read_seq,
    ) == s.readers[b].position(s.bus.read_seq)) by {
        reveal(place_inv);
    }
    assert(place_inv(t)) by {
        reveal(place_inv);
        assert forall|i: int| 0 <= i < t.bus.active() implies #[trigger] taken(t.readers, i) by {
            assert(taken(s.readers, i));
            let b = choose|b: int|
                0 <= b < s.readers.len() && (#[trigger] s.readers[b]).placed()
                    && s.readers[b].join.place == i;
            assert(t.readers[b].placed() && t.readers[b].join.place == i);
        }
    }
    assert(room_inv(t)) by {
        reveal(room_inv);
    }
    assert(read_inv(t)) by {
        reveal(read_inv);
        reveal(place_inv);
        if r.op.phase is Copy {
            assert(then.buf.take(r.op.len as int) =~= s.log[r.op.seq as int]);
        }
    }
}

/// Whatever step is taken, what holds goes on holding.
pub proof fn law_steps_keep_inv(s: System, act: Action)
    requires
        inv(s),
        allowed(s, act),
    ensures
        inv(next(s, act)),
{
    match act {
        Action::Begin { p, data, blocking } => lemma_begin(s, p, data, blocking),
        Action::Write { p } => {
            let op = s.writers[p].op;
            if !protocol::writes(s.bus, op.access()) {
                lemma_write_loads(s, p);
            } else if op.phase is Claim || op.phase is Swap {
                lemma_claim(s, p);
            } else if op.phase is Fill || op.phase is Len {
                lemma_fill(s, p);
            } else if op.phase is Commit {
                lemma_commit(s, p);
            } else {
                lemma_tail_swap(s, p);
            }
        },
        Action::SwapFails { p } => lemma_swap_fails(s, p),
        Action::Join { a } => lemma_join(s, a),
        Action::Attempt { a, buf } => lemma_attempt(s, a, buf),
        Action::Read { a } => lemma_read(s, a),
    }
}

/// Whether `states` begins with a bus that nobody works on yet and goes on by the steps `acts`.
pub open spec fn execution(states: Seq<System>, acts: Seq<Action>) -> bool {
    &&& states.len() == acts.len() + 1
    &&& initial(states[0])
    &&& forall|k: int|
        0 <= k < acts.len() ==> allowed(#[trigger] states[k], acts[k]) && states[k + 1] == next(
            states[k],
            acts[k],
        )
}

/// What holds, holds in every state of every execution.
pub proof fn law_executions_keep_inv(states: Seq<System>, acts: Seq<Action>, k: int)
    requires
        execution(states, acts),
        0 <= k < states.len(),
    ensures
        inv(states[k]),
    decreases k,
{
    if k == 0 {
        law_initial(states[0]);
    } else {
        law_executions_keep_inv(states, acts, k - 1);
        assert(allowed(states[k - 1], acts[k - 1]));
        law_steps_keep_inv(states[k - 1], acts[k - 1]);
    }
}

/// The message of a sequence number is settled when it is claimed, and never changes.
pub proof fn law_log_only_grows(s: System, act: Action, n: int)
    requires
        inv(s),
        allowed(s, act),
        0 <= n < s.bus.claim_seq,
    ensures
        s.log.contains_key(n),
        next(s, act).log.contains_key(n),
        next(s, act).log[n] == s.log[n],
{
    reveal(claim_inv);
    if let Action::Write { p } = act {
        let op = s.writers[p].op;
        assert(op.valid());
        if holds(op.step(protocol::reply_to(s.bus, op.access()))) && !holds(op) {
            assert(op.phase is Claim || op.phase is Swap);
        }
    }
}

/// No two producers ever write to one slot at a time, and none writes to a slot that a subscriber
/// is reading.
pub proof fn law_slots_are_not_shared(s: System)
    requires
        inv(s),
    ensures
        forall|p: int, q: int|
            0 <= p < s.writers.len() && 0 <= q < s.writers.len() && p != q && owns(
                (#[trigger] s.writers[p]).op,
            ) && owns((#[trigger] s.writers[q]).op) ==> s.bus.slot_of(s.writers[p].op.claim as int)
                != s.bus.slot_of(s.writers[q].op.claim as int),
        forall|p: int, a: int|
            0 <= p < s.writers.len() && 0 <= a < s.readers.len() && owns(
                (#[trigger] s.writers[p]).op,
            ) && (#[trigger] s.readers[a]).reading() ==> s.bus.slot_of(
                s.writers[p].op.claim as int,
            ) != s.bus.slot_of(s.readers[a].op.seq as int),
{
    assert forall|p: int, q: int|
        0 <= p < s.writers.len() && 0 <= q < s.writers.len() && p != q && owns(
            (#[trigger] s.writers[p]).op,
        ) && owns((#[trigger] s.writers[q]).op) implies s.bus.slot_of(
        s.writers[p].op.claim as int,
    ) != s.bus.slot_of(s.writers[q].op.claim as int) by {
        if s.bus.slot_of(s.writers[p].op.claim as int) == s.bus.slot_of(
            s.writers[q].op.claim as int,
        ) {
            lemma_one_owner(s, p, q);
        }
    }
    assert forall|p: int, a: int|
        0 <= p < s.writers.len() && 0 <= a < s.readers.len() && owns(
            (#[trigger] s.writers[p]).op,
        ) && (#[trigger] s.readers[a]).reading() implies s.bus.slot_of(
        s.writers[p].op.claim as int,
    ) != s.bus.slot_of(s.readers[a].op.seq as int) by {
        lemma_reader_undisturbed(s, p, a);
    }
}

/// No subscriber is ever overrun: every message that it is still to receive stays in its slot,
/// unchanged.
pub proof fn law_no_subscriber_is_overrun(s: System, a: int, n: int)
    requires
        inv(s),
        0 <= a < s.readers.len(),
        s.readers[a].started(),
        s.readers[a].position(s.bus.read_seq) <= n < s.bus.write_seq,
    ensures
        s.bus.committed(n),
        s.bus.message(n) == s.log[n],
{
    let position = s.readers[a].position(s.bus.read_seq);
    let j = s.bus.slot_of(n);
    assert(s.bus.shaped() && seq_in(s.bus.slots, n) >= n + 1) by {
        reveal(ring_inv);
    }
    let m = s.bus.slots[j].seq - 1;
    assert(s.bus.slot_of(m) == j) by {
        reveal(ring_inv);
    }
    assert(m < position + s.bus.capacity) by {
        reveal(place_inv);
    }
    if m > n {
        lemma_same_slot(s.bus, n, m);
    }
    assert(!busy(s.writers, s.bus.capacity, j)) by {
        if busy(s.writers, s.bus.capacity, j) {
            let q = choose|q: int|
                0 <= q < s.writers.len() && owns((#[trigger] s.writers[q]).op)
                    && s.writers[q].op.claim % s.bus.capacity == j;
            let k = s.writers[q].op.claim as int;
            lemma_writer(s, q);
            reveal(claim_inv);
            assert(seq_in(s.bus.slots, k) <= k);
            lemma_same_slot(s.bus, n, k);
        }
    }
    reveal(content_inv);
}

/// While the queue of a subscriber is full for a publication, the publication waits: it has claimed
/// its sequence number, but does not touch its slot.
pub proof fn law_full_queue_is_waited_for(s: System, p: int, a: int)
    requires
        inv(s),
        0 <= p < s.writers.len(),
        holds(s.writers[p].op),
        0 <= a < s.readers.len(),
        s.readers[a].started(),
        s.readers[a].position(s.bus.read_seq) + s.bus.capacity <= s.writers[p].op.claim,
    ensures
        s.writers[p].op.blocking,
        s.writers[p].op.phase is Write || s.writers[p].op.phase is Subs || s.writers[p].op.phase is
            Reads || s.writers[p].op.phase is Stalled,
{
    lemma_writer(s, p);
}

/// What a subscriber receives is the message of its position, whole; it then goes on to the next.
pub proof fn law_receipt_is_the_message(s: System, a: int)
    requires
        inv(s),
        allowed(s, Action::Read { a }),
        s.readers[a].op.phase is Pass,
    ensures
        ({
            let n = s.readers[a].position(s.bus.read_seq);
            let t = next(s, Action::Read { a });
            let r = t.readers[a];
            &&& r.op.phase is Done
            &&& r.op.receipt == Receipt::Message(s.log[n].len() as u32)
            &&& s.log[n].len() <= u32::MAX
            &&& r.buf.take(s.log[n].len() as int) == s.log[n]
            &&& r.position(t.bus.read_seq) == n + 1
        }),
{
    reveal(read_inv);
    reveal(place_inv);
    reveal(ring_inv);
}

/// A message that its producer has not committed, because it is still at work on it or was cut
/// short, is passed over: whoever looks for it finds nothing, and the bus stays as it is.
pub proof fn law_uncommitted_is_ignored(s: System, a: int, p: int)
    requires
        inv(s),
        allowed(s, Action::Read { a }),
        s.readers[a].op.phase is Probe,
        0 <= p < s.writers.len(),
        holds(s.writers[p].op),
        s.writers[p].op.claim == s.readers[a].position(s.bus.read_seq),
    ensures
        next(s, Action::Read { a }).readers[a].op.phase is Done,
        next(s, Action::Read { a }).readers[a].op.receipt is Nothing,
        next(s, Action::Read { a }).readers[a].buf == s.readers[a].buf,
        next(s, Action::Read { a }).bus == s.bus,
{
    reveal(ring_inv);
    reveal(claim_inv);
    reveal(read_inv);
}

/// A subscriber moves on only by receiving: each message comes to it once, and in order.
pub proof fn law_positions_move_by_receipt(s: System, act: Action, a: int)
    requires
        inv(s),
        allowed(s, act),
        0 <= a < s.readers.len(),
        s.readers[a].started(),
    ensures
        ({
            let t = next(s, act);
            &&& t.readers[a].started()
            &&& t.readers[a].position(t.bus.read_seq) == if act == (Action::Read { a })
                && s.readers[a].op.phase is Pass {
                s.readers[a].position(s.bus.read_seq) + 1
            } else {
                s.readers[a].position(s.bus.read_seq)
            }
        }),
{
    reveal(read_inv);
    reveal(place_inv);
    reveal(ring_inv);
    if let Action::Write { p } = act {
        lemma_writer(s, p);
    }
}

/// A publication that gives up for want of room, or because another came first, leaves the bus as
/// it is and claims nothing.
pub proof fn law_giving_up_leaves_no_trace(s: System, p: int)
    requires
        inv(s),
        allowed(s, Action::Write { p }),
        !s.writers[p].op.blocking,
        !holds(s.writers[p].op),
        s.writers[p].op.phase is Subs || s.writers[p].op.phase is Reads || s.writers[p].op.phase is
            Swap,
        next(s, Action::Write { p }).writers[p].op.phase is Done,
    ensures
        next(s, Action::Write { p }).bus == s.bus,
        next(s, Action::Write { p }).log == s.log,
{
    lemma_writer(s, p);
}

/// Every access stays inside the part of the bus that it is meant for.
pub proof fn law_accesses_stay_in_bounds(s: System, act: Action)
    requires
        inv(s),
        allowed(s, act),
    ensures
        match act {
            Action::Write { p } => protocol::in_bounds(
                s.bus,
                s.writers[p].op.access(),
                s.writers[p].data,
                0,
            ),
            Action::Join { a } => protocol::in_bounds(
                s.bus,
                s.readers[a].join.access(),
                seq![],
                0,
            ) && s.readers[a].join.expects(protocol::reply_to(s.bus, s.readers[a].join.access())),
            Action::Read { a } => protocol::in_bounds(
                s.bus,
                s.readers[a].op.access(),
                seq![],
                s.readers[a].buf.len() as int,
            ) && s.readers[a].op.expects(protocol::reply_to(s.bus, s.readers[a].op.access())),
            _ => true,
        },
{
    assert(s.bus.shaped() && s.bus.intact()) by {
        reveal(ring_inv);
    }
    match act {
        Action::Write { p } => lemma_writer(s, p),
        Action::Join { a } => {
            reveal(place_inv);
        },
        Action::Read { a } => {
            reveal(read_inv);
            if s.readers[a].reading() {
                lemma_message_in_slot(s, a);
            }
        },
        _ => {},
    }
}

/// Once no publication and no subscription is under way, the bus is settled, and each
/// subscriber's queue holds the messages that were published since its position.
pub proof fn law_quiet_bus_is_settled(s: System)
    requires
        inv(s),
        forall|p: int| 0 <= p < s.writers.len() ==> (#[trigger] s.writers[p]).op.phase is Done,
        forall|a: int|
            0 <= a < s.readers.len() ==> (#[trigger] s.readers[a]).placed()
                ==> s.readers[a].join.joined,
    ensures
        fanout::settled(s.bus),
        forall|a: int, k: int|
            0 <= a < s.readers.len() && (#[trigger] s.readers[a]).join.joined && 0 <= k
                < s.bus.write_seq - s.bus.read_seq[s.readers[a].join.place as int] ==> (
            #[trigger] fanout::pending(s.bus, s.readers[a].join.place as int)[k])
                == s.log[s.bus.read_seq[s.readers[a].join.place as int] + k],
{
    let bus = s.bus;
    let w = bus.write_seq as int;
    assert(bus.shaped() && bus.intact() && w <= bus.claim_seq) by {
        reveal(ring_inv);
    }
    assert(!bus.committed(w)) by {
        reveal(tail_inv);
    }
    assert(w == bus.claim_seq) by {
        if w < bus.claim_seq {
            reveal(claim_inv);
            assert(seq_in(bus.slots, w) >= w + 1);
            reveal(ring_inv);
            let j = bus.slot_of(w);
            let m = bus.slots[j].seq - 1;
            assert(bus.slot_of(m) == j);
            if m > w {
                lemma_same_slot(bus, w, m);
            }
        }
    }
    assert forall|n: int| w - bus.capacity <= n < w implies (#[trigger] bus.slots[bus.slot_of(
        n,
    )]).seq == fanout::mark(n) && (n >= 0 ==> bus.slots[bus.slot_of(n)].len > 0) by {
        reveal(ring_inv);
        let j = bus.slot_of(n);
        let m = bus.slots[j].seq - 1;
        if n >= 0 {
            assert(seq_in(bus.slots, n) >= n + 1);
            if m > n {
                lemma_same_slot(bus, n, m);
            }
            reveal(content_inv);
            reveal(claim_inv);
            assert(!busy(s.writers, bus.capacity, j));
            assert(0 < s.log[n].len());
        } else if m >= 0 {
            assert(bus.slot_of(m) == j);
            lemma_same_slot(bus, n, m);
        }
    }
    assert forall|i: int| 0 <= i < bus.active() implies (#[trigger] bus.read_seq[i]) <= w
        <= bus.read_seq[i] + bus.capacity by {
        reveal(place_inv);
        assert(taken(s.readers, i));
        let a = choose|a: int|
            0 <= a < s.readers.len() && (#[trigger] s.readers[a]).placed()
                && s.readers[a].join.place == i;
        assert(s.readers[a].started());
        if w > 0 {
            reveal(ring_inv);
            assert(seq_in(bus.slots, w - 1) >= w);
            assert(bus.slots[bus.slot_of(w - 1)].seq <= s.readers[a].position(bus.read_seq)
                + bus.capacity);
        }
    }
    assert forall|a: int, k: int|
        0 <= a < s.readers.len() && (#[trigger] s.readers[a]).join.joined && 0 <= k < w
            - bus.read_seq[s.readers[a].join.place as int] implies (#[trigger] fanout::pending(
        bus,
        s.readers[a].join.place as int,
    )[k]) == s.log[bus.read_seq[s.readers[a].join.place as int] + k] by {
        law_no_subscriber_is_overrun(s, a, bus.read_seq[s.readers[a].join.place as int] + k);
    }
}

} // verus!
