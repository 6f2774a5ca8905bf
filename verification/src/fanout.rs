//! What a bus is for: each subscriber has a queue of the messages that it has still to receive.
//!
//! Publishing puts a message at the end of every queue, receiving takes the first message of one
//! queue, and no queue is longer than the ring. These laws are about a bus between operations,
//! when every claimed message is committed; [`crate::interleave`] is about what happens in
//! between.

use crate::bus;
use crate::bus::{BusError, BusHandle, Producer, RelayMemory, Subscriber};
use crate::layout::{BusView, MAX_SUBSCRIBERS};
use crate::protocol;
use crate::protocol::Publish;
use crate::publication;
use vstd::arithmetic::div_mod;
use vstd::prelude::*;

verus! {

/// The commit sequence of the slot of `seq`, when `seq` is the last message published on it; a
/// negative `seq` stands for none.
pub open spec fn mark(seq: int) -> int {
    if seq >= 0 {
        seq + 1
    } else {
        0
    }
}

/// Whether the bus is between operations: all that was claimed is committed, the ring holds the
/// latest messages, none of which is empty, and no subscriber is more than a ring behind.
pub open spec fn settled(v: BusView) -> bool {
    &&& v.shaped()
    &&& v.intact()
    &&& v.write_seq == v.claim_seq
    &&& forall|s: int|
        v.write_seq - v.capacity <= s < v.write_seq ==> (#[trigger] v.slots[v.slot_of(s)]).seq
            == mark(s) && (s >= 0 ==> v.slots[v.slot_of(s)].len > 0)
    &&& forall|i: int|
        0 <= i < v.active() ==> (#[trigger] v.read_seq[i]) <= v.write_seq <= v.read_seq[i]
            + v.capacity
}

/// The messages that subscriber `i` has still to receive.
pub open spec fn pending(v: BusView, i: int) -> Seq<Seq<u8>> {
    Seq::new(
        (v.write_seq - v.read_seq[i]) as nat,
        |k: int| v.message(v.read_seq[i] + k),
    )
}

/// Two sequence numbers less than a ring apart fall on different slots.
pub proof fn lemma_slots_differ(s: int, t: int, capacity: int)
    requires
        0 < capacity,
        s != t,
        -capacity < s - t < capacity,
    ensures
        s % capacity != t % capacity,
{
    if s % capacity == t % capacity {
        div_mod::lemma_fundamental_div_mod(s, capacity);
        div_mod::lemma_fundamental_div_mod(t, capacity);
        assert(capacity * (s / capacity - t / capacity) == s - t) by (nonlinear_arith)
            requires
                s == capacity * (s / capacity) + s % capacity,
                t == capacity * (t / capacity) + t % capacity,
                s % capacity == t % capacity,
        ;
        assert(false) by (nonlinear_arith)
            requires
                capacity * (s / capacity - t / capacity) == s - t,
                s != t,
                -capacity < s - t < capacity,
                0 < capacity,
        ;
    }
}

pub proof fn lemma_least(reads: Seq<u64>, n: int, bound: u64)
    ensures
        protocol::least(reads, n, bound) <= bound,
        forall|i: int| 0 <= i < n ==> protocol::least(reads, n, bound) <= #[trigger] reads[i],
        protocol::least(reads, n, bound) == bound || exists|i: int|
            0 <= i < n && protocol::least(reads, n, bound) == #[trigger] reads[i],
    decreases n,
{
    if n > 0 {
        lemma_least(reads, n - 1, bound);
    }
}

/// A bus that was just made is settled, and has no subscribers.
pub proof fn law_fresh_is_settled(was: BusView, capacity: u64, slot_bytes: u64)
    requires
        bus::fresh(was, capacity, slot_bytes).shaped(),
    ensures
        settled(bus::fresh(was, capacity, slot_bytes)),
        bus::fresh(was, capacity, slot_bytes).n_subs == 0,
{
}

/// The bus takes another message exactly when every queue is shorter than the ring.
pub proof fn law_backpressure(v: BusView)
    requires
        settled(v),
    ensures
        v.room() <==> (forall|i: int|
            0 <= i < v.active() ==> (#[trigger] pending(v, i)).len() < v.capacity),
        v.active() == 0 ==> v.room(),
{
    lemma_least(v.read_seq, v.active(), v.write_seq);
    if v.room() {
        assert forall|i: int| 0 <= i < v.active() implies (#[trigger] pending(v, i)).len()
            < v.capacity by {
            assert(v.min_read() <= v.read_seq[i]);
        }
    } else {
        let i = choose|i: int| 0 <= i < v.active() && v.min_read() == #[trigger] v.read_seq[i];
        assert(pending(v, i).len() >= v.capacity);
    }
}

/// No queue is ever longer than the ring.
pub proof fn law_queues_are_bounded(v: BusView, i: int)
    requires
        settled(v),
        0 <= i < v.active(),
    ensures
        pending(v, i).len() <= v.capacity,
{
    assert(v.read_seq[i] <= v.write_seq);
}

/// A published message goes to the end of the queue of every subscriber.
pub proof fn law_publish_reaches_everyone(v: BusView, data: Seq<u8>, next: BusView)
    requires
        settled(v),
        v.room(),
        v.takes(data.len() as int),
        data.len() <= u32::MAX,
        v.claim_seq < u64::MAX,
        v.published(data, next),
    ensures
        settled(next),
        next.active() == v.active(),
        next.capacity == v.capacity,
        next.slot_bytes == v.slot_bytes,
        next.claim_seq == v.claim_seq + 1,
        forall|i: int|
            0 <= i < v.active() ==> #[trigger] pending(next, i) == pending(v, i).push(data)
                && pending(next, i).len() <= v.capacity,
{
    let c = v.claim_seq as int;
    let capacity = v.capacity as int;
    let done = v.filled(data);
    let slot = v.slot_of(c);
    lemma_least(v.read_seq, v.active(), v.write_seq);
    assert forall|s: int| c - capacity < s < c implies v.slot_of(s) != slot by {
        lemma_slots_differ(s, c, capacity);
    }
    assert(done.committed(c));
    assert(!done.committed(c + 1)) by {
        if capacity == 1 {
            assert(v.slot_of(c + 1) == slot);
        } else {
            lemma_slots_differ(c + 1, c, capacity);
            let s = c + 1 - capacity;
            assert(v.slot_of(s) == v.slot_of(c + 1)) by {
                div_mod::lemma_mod_add_multiples_vanish(s, capacity);
            }
            assert(v.slots[v.slot_of(s)].seq == mark(s));
        }
    }
    assert(next.write_seq == c + 1);
    assert forall|s: int| next.write_seq - next.capacity <= s < next.write_seq implies (
    #[trigger] next.slots[next.slot_of(s)]).seq == mark(s) && (s >= 0 ==> next.slots[next.slot_of(
            s,
        )].len > 0) by {
        if s != c {
            assert(v.slot_of(s) != slot);
            assert(v.slots[v.slot_of(s)].seq == mark(s));
        }
    }
    assert forall|i: int| 0 <= i < next.active() implies (#[trigger] next.read_seq[i])
        <= next.write_seq <= next.read_seq[i] + next.capacity by {
        assert(v.read_seq[i] <= v.write_seq);
        assert(v.min_read() <= v.read_seq[i]);
    }
    assert forall|i: int| 0 <= i < v.active() implies #[trigger] pending(next, i) == pending(
        v,
        i,
    ).push(data) by {
        let r = v.read_seq[i] as int;
        assert(v.min_read() <= r);
        assert forall|k: int| 0 <= k < pending(next, i).len() implies pending(next, i)[k]
            == pending(v, i).push(data)[k] by {
            let s = r + k;
            if s < c {
                assert(v.slot_of(s) != slot);
            } else {
                assert(next.message(c) =~= data);
            }
        }
        assert(pending(next, i) =~= pending(v, i).push(data));
    }
}

/// While the queue of a subscriber is as long as the ring, a blocking publication does not end,
/// however long it goes on alone, and every message that is still to be received stays as it is.
pub proof fn law_publication_waits_for_the_slowest(v: BusView, data: Seq<u8>, i: int, k: nat)
    requires
        settled(v),
        v.takes(data.len() as int),
        v.claim_seq < u64::MAX,
        0 <= i < v.active(),
        pending(v, i).len() == v.capacity,
        k > 0,
    ensures
        ({
            let p = Publish::begun(true, v.capacity, data.len() as u32);
            let (q, now) = publication::alone(p, v, data, k);
            &&& publication::waiting(q)
            &&& forall|j: int|
                0 <= j < v.active() ==> #[trigger] pending(now, j) == pending(v, j)
        }),
{
    law_backpressure(v);
    assert(!(pending(v, i).len() < v.capacity));
    publication::law_waits_without_room(v, data, k);
    let p = Publish::begun(true, v.capacity, data.len() as u32);
    let (q, now) = publication::alone(p, v, data, k);
    assert forall|j: int| 0 <= j < v.active() implies #[trigger] pending(now, j) == pending(
        v,
        j,
    ) by {
        assert(pending(now, j) =~= pending(v, j));
    }
}

/// A publication that had to wait, while no other producer was at work, puts its message at the end
/// of every queue once no queue is full.
pub proof fn law_waiting_publication_reaches_everyone(p: Publish, v: BusView, data: Seq<u8>)
    requires
        settled(v),
        publication::suits(p, v, data),
        publication::waiting(p),
        p.claim == v.claim_seq,
        data.len() <= u32::MAX,
        forall|i: int| 0 <= i < v.active() ==> (#[trigger] pending(v, i)).len() < v.capacity,
    ensures
        exists|k: nat|
            {
                let (q, next) = #[trigger] publication::alone(p, v.claimed(), data, k);
                &&& q.phase is Done
                &&& q.published
                &&& settled(next)
                &&& forall|i: int|
                    0 <= i < v.active() ==> #[trigger] pending(next, i) == pending(v, i).push(data)
            },
{
    law_backpressure(v);
    publication::law_ends_with_room(p, v, data);
    let k = choose|k: nat|
        {
            let (q, now) = #[trigger] publication::alone(p, v.claimed(), data, k);
            q.phase is Done && q.published && v.published(data, now)
        };
    let (q, next) = publication::alone(p, v.claimed(), data, k);
    law_publish_reaches_everyone(v, data, next);
    assert(q.phase is Done && q.published && settled(next));
}

/// A subscriber finds a message exactly when its queue is not empty; it is the first of the queue.
/// Receiving it takes it from that queue and leaves the other queues alone.
pub proof fn law_receive_takes_the_first(v: BusView, i: int)
    requires
        settled(v),
        0 <= i < v.active(),
    ensures
        v.committed(v.read_seq[i] as int) <==> pending(v, i).len() > 0,
        pending(v, i).len() > 0 ==> {
            &&& v.message(v.read_seq[i] as int) == pending(v, i)[0]
            &&& settled(v.passed(i))
            &&& v.passed(i).active() == v.active()
            &&& pending(v.passed(i), i) == pending(v, i).drop_first()
            &&& forall|j: int|
                0 <= j < v.active() && j != i ==> #[trigger] pending(v.passed(i), j) == pending(v, j)
        },
{
    let r = v.read_seq[i] as int;
    let w = v.write_seq as int;
    let capacity = v.capacity as int;
    assert(r <= w <= r + capacity);
    if r < w {
        assert(v.slots[v.slot_of(r)].seq == mark(r));
        let next = v.passed(i);
        assert forall|s: int| next.write_seq - next.capacity <= s < next.write_seq implies (
        #[trigger] next.slots[next.slot_of(s)]).seq == mark(s) && (s >= 0 ==> next.slots[next.slot_of(
            s,
        )].len > 0) by {
            assert(v.slots[v.slot_of(s)].seq == mark(s));
        }
        assert forall|j: int| 0 <= j < next.active() implies (#[trigger] next.read_seq[j])
            <= next.write_seq <= next.read_seq[j] + next.capacity by {
            assert(v.read_seq[j] <= v.write_seq);
        }
        assert forall|k: int| 0 <= k < pending(next, i).len() implies pending(next, i)[k]
            == pending(v, i).drop_first()[k] by {
            assert(next.read_seq[i] + k == r + (k + 1));
        }
        assert(pending(next, i) =~= pending(v, i).drop_first());
        assert forall|j: int| 0 <= j < v.active() && j != i implies #[trigger] pending(next, j)
            == pending(v, j) by {
            assert(pending(next, j) =~= pending(v, j));
        }
    } else {
        let s = w - capacity;
        assert(v.slots[v.slot_of(s)].seq == mark(s));
        div_mod::lemma_mod_add_multiples_vanish(s, capacity);
    }
}

/// A new subscriber begins with an empty queue: it receives what is published from then on. The
/// queues of the others stay as they are.
pub proof fn law_subscriber_starts_empty(v: BusView)
    requires
        settled(v),
        v.n_subs < MAX_SUBSCRIBERS,
    ensures
        settled(v.subscribed()),
        v.subscribed().n_subs == v.n_subs + 1,
        pending(v.subscribed(), v.n_subs as int) == Seq::<Seq<u8>>::empty(),
        forall|i: int|
            0 <= i < v.active() ==> #[trigger] pending(v.subscribed(), i) == pending(v, i),
{
    let next = v.subscribed();
    assert forall|s: int| next.write_seq - next.capacity <= s < next.write_seq implies (
    #[trigger] next.slots[next.slot_of(s)]).seq == mark(s) && (s >= 0 ==> next.slots[next.slot_of(
            s,
        )].len > 0) by {
        assert(v.slots[v.slot_of(s)].seq == mark(s));
    }
    assert forall|i: int| 0 <= i < next.active() implies (#[trigger] next.read_seq[i])
        <= next.write_seq <= next.read_seq[i] + next.capacity by {
        if i < v.active() {
            assert(v.read_seq[i] <= v.write_seq);
        }
    }
    assert(pending(next, v.n_subs as int) =~= Seq::<Seq<u8>>::empty());
    assert forall|i: int| 0 <= i < v.active() implies #[trigger] pending(next, i) == pending(
        v,
        i,
    ) by {
        assert(pending(next, i) =~= pending(v, i));
    }
}

/// A subscription that is refused, because all places are taken, changes nothing for anyone: the
/// queues stay as they are, and the bus takes a message exactly if it did before.
pub proof fn law_refused_subscription_changes_nothing(v: BusView)
    requires
        settled(v),
        MAX_SUBSCRIBERS <= v.n_subs < u32::MAX,
    ensures
        settled(v.subscribed()),
        v.subscribed().active() == v.active() == MAX_SUBSCRIBERS,
        v.subscribed().n_subs > v.n_subs,
        v.subscribed().room() == v.room(),
        v.subscribed().room() <==> (forall|i: int|
            0 <= i < MAX_SUBSCRIBERS ==> (#[trigger] pending(v, i)).len() < v.capacity),
        forall|i: int|
            0 <= i < MAX_SUBSCRIBERS ==> #[trigger] pending(v.subscribed(), i) == pending(v, i),
{
    let next = v.subscribed();
    law_backpressure(v);
    assert forall|s: int| next.write_seq - next.capacity <= s < next.write_seq implies (
    #[trigger] next.slots[next.slot_of(s)]).seq == mark(s) && (s >= 0 ==> next.slots[next.slot_of(
            s,
        )].len > 0) by {
        assert(v.slots[v.slot_of(s)].seq == mark(s));
    }
    assert forall|i: int| 0 <= i < next.active() implies (#[trigger] next.read_seq[i])
        <= next.write_seq <= next.read_seq[i] + next.capacity by {
        assert(v.read_seq[i] <= v.write_seq);
    }
    assert forall|i: int| 0 <= i < MAX_SUBSCRIBERS implies #[trigger] pending(next, i) == pending(
        v,
        i,
    ) by {
        assert(pending(next, i) =~= pending(v, i));
    }
}

/// Whether `views` are what a bus holds before, between and after the publications of
/// `messages`, with no other operation in between.
pub open spec fn publications(views: Seq<BusView>, messages: Seq<Seq<u8>>) -> bool {
    &&& views.len() == messages.len() + 1
    &&& forall|k: int|
        0 <= k < messages.len() ==> {
            &&& (#[trigger] views[k]).room()
            &&& views[k].takes(messages[k].len() as int)
            &&& messages[k].len() <= u32::MAX
            &&& views[k].claim_seq < u64::MAX
            &&& views[k].published(messages[k], views[k + 1])
        }
}

/// Messages stand in every queue in the order in which they were published.
pub proof fn law_order_is_kept(views: Seq<BusView>, messages: Seq<Seq<u8>>, i: int)
    requires
        publications(views, messages),
        settled(views[0]),
        0 <= i < views[0].active(),
    ensures
        settled(views.last()),
        views.last().active() == views[0].active(),
        pending(views.last(), i) == pending(views[0], i) + messages,
    decreases messages.len(),
{
    if messages.len() == 0 {
        assert(pending(views[0], i) + messages =~= pending(views[0], i));
    } else {
        let k = messages.len() - 1;
        let sooner = views.drop_last();
        let less = messages.drop_last();
        assert forall|j: int| 0 <= j < less.len() implies {
            &&& (#[trigger] sooner[j]).room()
            &&& sooner[j].takes(less[j].len() as int)
            &&& less[j].len() <= u32::MAX
            &&& sooner[j].claim_seq < u64::MAX
            &&& sooner[j].published(less[j], sooner[j + 1])
        } by {
            assert(views[j].room());
        }
        law_order_is_kept(sooner, less, i);
        assert(views[k].room());
        law_publish_reaches_everyone(views[k], messages[k], views[k + 1]);
        assert((pending(views[0], i) + less).push(messages[k]) =~= pending(views[0], i) + messages);
    }
}

/// Whether `views` are what a bus holds before, between and after attempts to publish `messages`
/// without waiting, with no other operation in between.
pub open spec fn attempts(views: Seq<BusView>, messages: Seq<Seq<u8>>) -> bool {
    &&& views.len() == messages.len() + 1
    &&& forall|k: int|
        0 <= k < messages.len() ==> {
            &&& (#[trigger] views[k]).takes(messages[k].len() as int)
            &&& messages[k].len() <= u32::MAX
            &&& views[k].claim_seq < u64::MAX
            &&& if views[k].room() {
                views[k].published(messages[k], views[k + 1])
            } else {
                views[k + 1] == views[k]
            }
        }
}

/// What a bus holds when subscriber `i` has received `j` messages more.
pub open spec fn received(v: BusView, i: int, j: nat) -> BusView
    decreases j,
{
    if j == 0 {
        v
    } else {
        received(v, i, (j - 1) as nat).passed(i)
    }
}

/// A subscriber receives the messages of its queue one after the other, and nobody else's queue
/// changes.
pub proof fn law_receipts_take_the_oldest(v: BusView, i: int, j: nat)
    requires
        settled(v),
        0 <= i < v.active(),
        j <= pending(v, i).len(),
    ensures
        ({
            let w = received(v, i, j);
            &&& settled(w)
            &&& w.active() == v.active()
            &&& w == (BusView { read_seq: w.read_seq, ..v })
            &&& pending(w, i) == pending(v, i).skip(j as int)
            &&& forall|h: int|
                0 <= h < v.active() && h != i ==> #[trigger] pending(w, h) == pending(v, h)
            &&& j < pending(v, i).len() ==> w.committed(w.read_seq[i] as int) && w.message(
                w.read_seq[i] as int,
            ) == pending(v, i)[j as int]
        }),
    decreases j,
{
    if j == 0 {
        assert(pending(v, i).skip(0) =~= pending(v, i));
    } else {
        let u = received(v, i, (j - 1) as nat);
        law_receipts_take_the_oldest(v, i, (j - 1) as nat);
        law_receive_takes_the_first(u, i);
        assert(pending(v, i).skip(j - 1).drop_first() =~= pending(v, i).skip(j as int));
    }
    law_receive_takes_the_first(received(v, i, j), i);
}

/// Attempts that are refused change nothing, however many there are: no sequence number is
/// reserved for them, and no queue changes.
pub proof fn law_refused_attempts_change_nothing(
    views: Seq<BusView>,
    messages: Seq<Seq<u8>>,
    k: int,
)
    requires
        attempts(views, messages),
        !views[0].room(),
        0 <= k < views.len(),
    ensures
        views[k] == views[0],
    decreases k,
{
    if k > 0 {
        law_refused_attempts_change_nothing(views, messages, k - 1);
        assert(views[k - 1].takes(messages[k - 1].len() as int));
    }
}

/// A bus with one subscriber has room exactly when the queue of that one is shorter than the ring.
proof fn lemma_one_subscriber(v: BusView)
    requires
        settled(v),
        v.active() == 1,
    ensures
        v.room() <==> pending(v, 0).len() < v.capacity,
{
    law_backpressure(v);
}

/// Once the only subscriber, whose queue was as long as the ring, has received `j` messages, exactly
/// `j` attempts to publish succeed, and put their messages behind those that it has still to
/// receive.
pub proof fn law_receipts_make_room(
    v: BusView,
    j: nat,
    views: Seq<BusView>,
    messages: Seq<Seq<u8>>,
    k: int,
)
    requires
        settled(v),
        v.active() == 1,
        pending(v, 0).len() == v.capacity,
        j <= v.capacity,
        attempts(views, messages),
        views[0] == received(v, 0, j),
        0 <= k < views.len(),
    ensures
        views[k].room() <==> k < j,
        settled(views[k]),
        views[k].active() == 1,
        views[k].capacity == v.capacity,
        pending(views[k], 0) == pending(v, 0).skip(j as int) + messages.take(
            if k < j {
                k
            } else {
                j as int
            },
        ),
        views[k].claim_seq == v.claim_seq + if k < j {
            k
        } else {
            j as int
        },
    decreases k,
{
    if k == 0 {
        law_receipts_take_the_oldest(v, 0, j);
        assert(pending(v, 0).skip(j as int) + messages.take(0) =~= pending(v, 0).skip(j as int));
    } else {
        law_receipts_make_room(v, j, views, messages, k - 1);
        assert(views[k - 1].takes(messages[k - 1].len() as int));
        if k - 1 < j {
            law_publish_reaches_everyone(views[k - 1], messages[k - 1], views[k]);
            let before = pending(views[k - 1], 0);
            assert(messages.take(k - 1).push(messages[k - 1]) =~= messages.take(k));
            assert(before.push(messages[k - 1]) =~= pending(v, 0).skip(j as int) + messages.take(k));
            assert(pending(views[k], 0) == before.push(messages[k - 1]));
        }
    }
    lemma_one_subscriber(views[k]);
}

/// A relay with a buffer that is too short for the next message changes nothing, so that a further
/// one, with a buffer that is long enough, passes the message on.
pub proof fn law_short_scratch_keeps_the_message<'a>(
    src: &Subscriber<'a>,
    dst: &Producer<'a>,
    m: RelayMemory,
    r: Result<Option<usize>, BusError>,
    n: RelayMemory,
    longer: Seq<u8>,
    r2: Result<Option<usize>, BusError>,
    n2: RelayMemory,
)
    requires
        settled(src.bus().view(m.src)),
        0 <= src.place() < src.bus().view(m.src).active(),
        pending(src.bus().view(m.src), src.place()).len() > 0,
        bus::relays(src, dst, m, r, n),
        ({
            let first = pending(src.bus().view(m.src), src.place())[0];
            &&& m.scratch.len() < first.len() <= longer.len()
            &&& dst.bus().view(m.dst).takes(first.len() as int)
        }),
        bus::relays(src, dst, (RelayMemory { scratch: longer, ..n }), r2, n2),
    ensures
        r == Err::<Option<usize>, BusError>(BusError::MsgTooLarge),
        n == m,
        r2 == Ok::<Option<usize>, BusError>(
            Some(pending(src.bus().view(m.src), src.place())[0].len() as usize),
        ),
{
    law_receive_takes_the_first(src.bus().view(m.src), src.place());
}

/// A relay passes on the first message of the source's queue, which goes to the end of every queue
/// of the destination, or changes nothing if there is none. So messages keep their order.
pub proof fn law_relay_moves_the_first<'a>(
    src: &Subscriber<'a>,
    dst: &Producer<'a>,
    m: RelayMemory,
    r: Result<Option<usize>, BusError>,
    n: RelayMemory,
)
    requires
        settled(src.bus().view(m.src)),
        0 <= src.place() < src.bus().view(m.src).active(),
        settled(dst.bus().view(m.dst)),
        dst.bus().view(m.dst).room(),
        dst.bus().view(m.dst).claim_seq < u64::MAX,
        m.scratch.len() >= src.bus().view(m.src).slot_bytes,
        dst.bus().view(m.dst).slot_bytes >= src.bus().view(m.src).slot_bytes,
        bus::relays(src, dst, m, r, n),
    ensures
        ({
            let v = src.bus().view(m.src);
            let d = dst.bus().view(m.dst);
            let queue = pending(v, src.place());
            let v2 = src.bus().view(n.src);
            let d2 = dst.bus().view(n.dst);
            if queue.len() == 0 {
                r == Ok::<Option<usize>, BusError>(None) && n == m
            } else {
                &&& r == Ok::<Option<usize>, BusError>(Some(queue[0].len() as usize))
                &&& settled(v2)
                &&& settled(d2)
                &&& pending(v2, src.place()) == queue.drop_first()
                &&& forall|i: int|
                    0 <= i < v.active() && i != src.place() ==> #[trigger] pending(v2, i)
                        == pending(v, i)
                &&& forall|i: int|
                    0 <= i < d.active() ==> #[trigger] pending(d2, i) == pending(d, i).push(
                        queue[0],
                    )
            }
        }),
{
    let v = src.bus().view(m.src);
    let d = dst.bus().view(m.dst);
    let i = src.place();
    law_receive_takes_the_first(v, i);
    if pending(v, i).len() > 0 {
        let seq = v.read_seq[i] as int;
        assert(v.read_seq[i] <= v.write_seq <= v.read_seq[i] + v.capacity);
        assert(v.slots[v.slot_of(seq)].len > 0);
        law_publish_reaches_everyone(d, v.message(seq), dst.bus().view(n.dst));
    }
}

/// What a receipt gives, on a bus between operations, and what it leaves: nothing of an empty queue;
/// an error, with all left as it was, if the first message of the queue is longer than the buffer.
/// Else the first message: its length is returned, its bytes stand at the beginning of the buffer,
/// the rest of the buffer stays, and the queue is without it. The other queues stay as they are.
pub proof fn law_receipt_gives_the_first<'a>(
    s: &Subscriber<'a>,
    mem: &mut [u8],
    out: &mut [u8],
    r: Result<Option<usize>, BusError>,
)
    requires
        s.well_formed(),
        s.bus().maps(mem@),
        settled(s.bus().view(mem@)),
        0 <= s.place() < s.bus().view(mem@).active(),
        call_ensures(Subscriber::<'a>::try_recv, (s, mem, out), r),
    ensures
        ({
            let v = s.bus().view(old(mem)@);
            let w = s.bus().view(final(mem)@);
            let queue = pending(v, s.place());
            &&& s.bus().maps(final(mem)@)
            &&& settled(w)
            &&& w.active() == v.active()
            &&& forall|i: int|
                0 <= i < v.active() && i != s.place() ==> #[trigger] pending(w, i) == pending(v, i)
            &&& if queue.len() == 0 {
                &&& r == Ok::<Option<usize>, BusError>(None)
                &&& final(mem)@ == old(mem)@
                &&& final(out)@ == old(out)@
            } else if queue[0].len() > old(out)@.len() {
                &&& r == Err::<Option<usize>, BusError>(BusError::MsgTooLarge)
                &&& final(mem)@ == old(mem)@
                &&& final(out)@ == old(out)@
            } else {
                &&& r is Ok
                &&& r->Ok_0 is Some
                &&& r->Ok_0->0 == queue[0].len()
                &&& final(out)@.len() == old(out)@.len()
                &&& final(out)@.take(queue[0].len() as int) == queue[0]
                &&& final(out)@.skip(queue[0].len() as int) == old(out)@.skip(
                    queue[0].len() as int,
                )
                &&& pending(w, s.place()) == queue.drop_first()
            }
        }),
{
    let v = s.bus().view(mem@);
    let i = s.place();
    s.bus().lemma_shape(mem@);
    law_receive_takes_the_first(v, i);
    let seq = v.read_seq[i] as int;
    let slot = v.slots[v.slot_of(seq)];
    assert(0 <= v.slot_of(seq) < v.slots.len());
    assert(slot.len <= v.slot_bytes && slot.payload.len() == v.slot_bytes);
    assert(v.message(seq).len() == slot.len);
    assert(out.len() == out@.len());
    if pending(v, i).len() > 0 && slot.len <= out@.len() {
        let first = v.message(seq);
        assert(final(out)@.take(first.len() as int) =~= first);
        assert(final(out)@.skip(first.len() as int) =~= out@.skip(first.len() as int));
    }
}

/// The same of one turn of a blocking receipt; if the queue is empty, it is an error once the time
/// is up, and before that another turn is due.
pub proof fn law_blocking_receipt_gives_the_first<'a>(
    s: &Subscriber<'a>,
    mem: &mut [u8],
    out: &mut [u8],
    elapsed_ns: u128,
    timeout_ns: u128,
    r: Option<Result<usize, BusError>>,
)
    requires
        s.well_formed(),
        s.bus().maps(mem@),
        settled(s.bus().view(mem@)),
        0 <= s.place() < s.bus().view(mem@).active(),
        call_ensures(
            Subscriber::<'a>::recv_blocking,
            (s, mem, out, elapsed_ns, timeout_ns),
            r,
        ),
    ensures
        ({
            let v = s.bus().view(old(mem)@);
            let w = s.bus().view(final(mem)@);
            let queue = pending(v, s.place());
            &&& s.bus().maps(final(mem)@)
            &&& settled(w)
            &&& w.active() == v.active()
            &&& forall|i: int|
                0 <= i < v.active() && i != s.place() ==> #[trigger] pending(w, i) == pending(v, i)
            &&& if queue.len() == 0 {
                &&& elapsed_ns < timeout_ns ==> r is None
                &&& elapsed_ns >= timeout_ns ==> r == Some(
                    Err::<usize, BusError>(BusError::NotReady),
                )
                &&& final(mem)@ == old(mem)@
                &&& final(out)@ == old(out)@
            } else if queue[0].len() > old(out)@.len() {
                &&& r == Some(Err::<usize, BusError>(BusError::MsgTooLarge))
                &&& final(mem)@ == old(mem)@
                &&& final(out)@ == old(out)@
            } else {
                &&& r is Some
                &&& r->0 is Ok
                &&& r->0->Ok_0 == queue[0].len()
                &&& final(out)@.len() == old(out)@.len()
                &&& final(out)@.take(queue[0].len() as int) == queue[0]
                &&& final(out)@.skip(queue[0].len() as int) == old(out)@.skip(
                    queue[0].len() as int,
                )
                &&& pending(w, s.place()) == queue.drop_first()
            }
        }),
{
    let v = s.bus().view(mem@);
    let i = s.place();
    s.bus().lemma_shape(mem@);
    law_receive_takes_the_first(v, i);
    let seq = v.read_seq[i] as int;
    let slot = v.slots[v.slot_of(seq)];
    assert(0 <= v.slot_of(seq) < v.slots.len());
    assert(slot.len <= v.slot_bytes && slot.payload.len() == v.slot_bytes);
    assert(v.message(seq).len() == slot.len);
    assert(out.len() == out@.len());
    if pending(v, i).len() > 0 && slot.len <= out@.len() {
        let first = v.message(seq);
        assert(final(out)@.take(first.len() as int) =~= first);
        assert(final(out)@.skip(first.len() as int) =~= out@.skip(first.len() as int));
    }
}

/// What an attempt to publish comes to, on a bus between operations: an empty message, or one that
/// is longer than a slot, is refused with an error; while a queue is as long as the ring, none is
/// taken; either way nothing changes. Else the message goes to the end of every queue.
pub proof fn law_attempt_fills_every_queue<'a>(
    p: &Producer<'a>,
    mem: &mut [u8],
    payload: &[u8],
    r: Result<bool, BusError>,
)
    requires
        p.bus().maps(mem@),
        settled(p.bus().view(mem@)),
        p.bus().view(mem@).claim_seq < u64::MAX,
        payload@.len() <= u32::MAX,
        call_ensures(Producer::<'a>::try_publish, (p, mem, payload), r),
    ensures
        ({
            let v = p.bus().view(old(mem)@);
            let w = p.bus().view(final(mem)@);
            let full = exists|i: int|
                0 <= i < v.active() && (#[trigger] pending(v, i)).len() == v.capacity;
            &&& p.bus().maps(final(mem)@)
            &&& settled(w)
            &&& w.active() == v.active()
            &&& if payload@.len() == 0 || payload@.len() > p.bus().slot_size() {
                r is Err && r->Err_0 is MsgTooLarge && final(mem)@ == old(mem)@
            } else if full {
                r == Ok::<bool, BusError>(false) && final(mem)@ == old(mem)@
            } else {
                &&& r == Ok::<bool, BusError>(true)
                &&& forall|i: int|
                    0 <= i < v.active() ==> #[trigger] pending(w, i) == pending(v, i).push(
                        payload@,
                    )
            }
        }),
{
    let v = p.bus().view(mem@);
    p.bus().lemma_shape(mem@);
    law_backpressure(v);
    assert forall|i: int| 0 <= i < v.active() implies (#[trigger] pending(v, i)).len()
        <= v.capacity by {
        law_queues_are_bounded(v, i);
    }
    if r == Ok::<bool, BusError>(true) {
        law_publish_reaches_everyone(v, payload@, p.bus().view(final(mem)@));
    }
}

/// A blocking publication, on a bus between operations that has room: an empty message, or one that
/// is longer than a slot, is refused, and nothing changes. Any other goes to the end of every queue.
pub proof fn law_publication_fills_every_queue<'a>(
    p: &Producer<'a>,
    mem: &mut [u8],
    payload: &[u8],
    r: Result<(), BusError>,
)
    requires
        p.bus().maps(mem@),
        settled(p.bus().view(mem@)),
        p.bus().view(mem@).claim_seq < u64::MAX,
        payload@.len() <= u32::MAX,
        forall|i: int|
            0 <= i < p.bus().view(mem@).active() ==> (#[trigger] pending(
                p.bus().view(mem@),
                i,
            )).len() < p.bus().view(mem@).capacity,
        call_ensures(Producer::<'a>::publish, (p, mem, payload), r),
    ensures
        ({
            let v = p.bus().view(old(mem)@);
            let w = p.bus().view(final(mem)@);
            &&& p.bus().maps(final(mem)@)
            &&& settled(w)
            &&& w.active() == v.active()
            &&& if payload@.len() == 0 || payload@.len() > p.bus().slot_size() {
                r is Err && r->Err_0 is MsgTooLarge && final(mem)@ == old(mem)@
            } else {
                &&& r is Ok
                &&& forall|i: int|
                    0 <= i < v.active() ==> #[trigger] pending(w, i) == pending(v, i).push(
                        payload@,
                    )
            }
        }),
{
    let v = p.bus().view(mem@);
    p.bus().lemma_shape(mem@);
    law_backpressure(v);
    if r is Ok {
        law_publish_reaches_everyone(v, payload@, p.bus().view(final(mem)@));
    }
}

/// A new subscriber has an empty queue, and nobody else's changes. If all places are taken, the
/// subscription is refused, and no queue changes.
pub proof fn law_subscription_begins_an_empty_queue<'a>(
    bus: &'a BusHandle,
    mem: &mut [u8],
    r: Result<Subscriber<'a>, BusError>,
)
    requires
        bus.maps(mem@),
        settled(bus.view(mem@)),
        bus.view(mem@).n_subs < u32::MAX,
        call_ensures(BusHandle::subscribe, (bus, mem), r),
    ensures
        ({
            let v = bus.view(old(mem)@);
            let w = bus.view(final(mem)@);
            &&& bus.maps(final(mem)@)
            &&& settled(w)
            &&& forall|i: int| 0 <= i < v.active() ==> #[trigger] pending(w, i) == pending(v, i)
            &&& if v.active() < 64 {
                &&& r is Ok
                &&& r->Ok_0.well_formed()
                &&& r->Ok_0.bus() == *bus
                &&& r->Ok_0.place() == v.active()
                &&& w.active() == v.active() + 1
                &&& pending(w, v.active()).len() == 0
            } else {
                &&& r is Err
                &&& r->Err_0 is NoSubscriberSlots
                &&& w.active() == v.active()
            }
        }),
{
    let v = bus.view(mem@);
    if v.n_subs < MAX_SUBSCRIBERS {
        law_subscriber_starts_empty(v);
    } else {
        law_refused_subscription_changes_nothing(v);
    }
}

/// A bus that was just made is between operations, and nobody has subscribed to it.
pub proof fn law_made_bus_is_settled(
    mem: &mut [u8],
    desc_capacity: usize,
    slab_bytes: usize,
    r: Result<BusHandle, BusError>,
    buf: &mut [u8],
    q: Result<BusHandle, BusError>,
)
    requires
        call_ensures(BusHandle::create, (mem, desc_capacity, slab_bytes), r),
        call_ensures(BusHandle::from_slice, (buf, desc_capacity), q),
    ensures
        r is Ok ==> settled(r->Ok_0.view(final(mem)@)) && r->Ok_0.view(final(mem)@).active() == 0,
        q is Ok ==> settled(q->Ok_0.view(final(buf)@)) && q->Ok_0.view(final(buf)@).active() == 0,
{
    if r is Ok {
        r->Ok_0.lemma_shape(final(mem)@);
    }
    if q is Ok {
        q->Ok_0.lemma_shape(final(buf)@);
    }
}

/// What is published is received: a subscriber that has received all that was there before gets the
/// message itself, byte for byte, with its length, and has received all again.
pub proof fn law_published_message_is_received<'a>(
    p: &Producer<'a>,
    mem: &mut [u8],
    payload: &[u8],
    r: Result<bool, BusError>,
    s: &Subscriber<'a>,
    mem2: &mut [u8],
    out: &mut [u8],
    r2: Result<Option<usize>, BusError>,
)
    requires
        p.bus().maps(mem@),
        settled(p.bus().view(mem@)),
        p.bus().view(mem@).claim_seq < u64::MAX,
        payload@.len() <= u32::MAX,
        call_ensures(Producer::<'a>::try_publish, (p, mem, payload), r),
        r == Ok::<bool, BusError>(true),
        s.well_formed(),
        s.bus() == p.bus(),
        0 <= s.place() < p.bus().view(mem@).active(),
        pending(p.bus().view(mem@), s.place()).len() == 0,
        mem2@ == final(mem)@,
        call_ensures(Subscriber::<'a>::try_recv, (s, mem2, out), r2),
    ensures
        0 < payload@.len(),
        payload@.len() <= old(out)@.len() ==> {
            &&& r2 is Ok
            &&& r2->Ok_0 is Some
            &&& r2->Ok_0->0 == payload@.len()
            &&& final(out)@.take(payload@.len() as int) == payload@
            &&& pending(s.bus().view(final(mem2)@), s.place()).len() == 0
        },
        payload@.len() > old(out)@.len() ==> r2 == Err::<Option<usize>, BusError>(
            BusError::MsgTooLarge,
        ) && final(mem2)@ == old(mem2)@,
{
    law_attempt_fills_every_queue(p, mem, payload, r);
    let v = p.bus().view(old(mem)@);
    let w = p.bus().view(final(mem)@);
    assert(pending(w, s.place()) == pending(v, s.place()).push(payload@));
    law_receipt_gives_the_first(s, mem2, out, r2);
}

/// What a relay does, between two buses of any sizes: nothing, if the queue of the source is empty;
/// nothing but an error, if its first message is longer than the buffer. Else the first message is
/// taken from that queue. If it is longer than a slot of the destination, that is an error, and the
/// destination stays as it is; else the whole of it goes to the end of every queue of the
/// destination.
pub proof fn law_relay_passes_on_the_first<'a>(
    src: &Subscriber<'a>,
    src_mem: &mut [u8],
    dst: &Producer<'a>,
    dst_mem: &mut [u8],
    scratch: &mut [u8],
    r: Result<Option<usize>, BusError>,
)
    requires
        src.well_formed(),
        src.bus().maps(src_mem@),
        settled(src.bus().view(src_mem@)),
        0 <= src.place() < src.bus().view(src_mem@).active(),
        dst.bus().maps(dst_mem@),
        settled(dst.bus().view(dst_mem@)),
        dst.bus().view(dst_mem@).claim_seq < u64::MAX,
        forall|i: int|
            0 <= i < dst.bus().view(dst_mem@).active() ==> (#[trigger] pending(
                dst.bus().view(dst_mem@),
                i,
            )).len() < dst.bus().view(dst_mem@).capacity,
        call_ensures(bus::relay_once, (src, src_mem, dst, dst_mem, scratch), r),
    ensures
        ({
            let v = src.bus().view(old(src_mem)@);
            let v2 = src.bus().view(final(src_mem)@);
            let d = dst.bus().view(old(dst_mem)@);
            let d2 = dst.bus().view(final(dst_mem)@);
            let queue = pending(v, src.place());
            let first = queue[0];
            &&& src.bus().maps(final(src_mem)@)
            &&& settled(v2)
            &&& v2.active() == v.active()
            &&& dst.bus().maps(final(dst_mem)@)
            &&& settled(d2)
            &&& d2.active() == d.active()
            &&& forall|i: int|
                0 <= i < v.active() && i != src.place() ==> #[trigger] pending(v2, i) == pending(
                    v,
                    i,
                )
            &&& if queue.len() == 0 {
                &&& r == Ok::<Option<usize>, BusError>(None)
                &&& final(src_mem)@ == old(src_mem)@
                &&& final(dst_mem)@ == old(dst_mem)@
                &&& final(scratch)@ == old(scratch)@
            } else if first.len() > old(scratch)@.len() {
                &&& r == Err::<Option<usize>, BusError>(BusError::MsgTooLarge)
                &&& final(src_mem)@ == old(src_mem)@
                &&& final(dst_mem)@ == old(dst_mem)@
                &&& final(scratch)@ == old(scratch)@
            } else {
                &&& final(scratch)@.len() == old(scratch)@.len()
                &&& final(scratch)@.take(first.len() as int) == first
                &&& pending(v2, src.place()) == queue.drop_first()
                &&& if first.len() > dst.bus().slot_size() {
                    &&& r == Err::<Option<usize>, BusError>(BusError::MsgTooLarge)
                    &&& final(dst_mem)@ == old(dst_mem)@
                    &&& forall|i: int|
                        0 <= i < d.active() ==> #[trigger] pending(d2, i) == pending(d, i)
                } else {
                    &&& r is Ok
                    &&& r->Ok_0 is Some
                    &&& r->Ok_0->0 == first.len()
                    &&& forall|i: int|
                        0 <= i < d.active() ==> #[trigger] pending(d2, i) == pending(d, i).push(
                            first,
                        )
                }
            }
        }),
{
    let v = src.bus().view(src_mem@);
    let d = dst.bus().view(dst_mem@);
    let i = src.place();
    src.bus().lemma_shape(src_mem@);
    dst.bus().lemma_shape(dst_mem@);
    law_receive_takes_the_first(v, i);
    law_backpressure(d);
    let seq = v.read_seq[i] as int;
    let slot = v.slots[v.slot_of(seq)];
    assert(0 <= v.slot_of(seq) < v.slots.len());
    assert(slot.len <= v.slot_bytes && slot.payload.len() == v.slot_bytes);
    let first = v.message(seq);
    assert(first.len() == slot.len);
    assert(scratch.len() == scratch@.len());
    if pending(v, i).len() > 0 {
        assert(v.read_seq[i] <= v.write_seq <= v.read_seq[i] + v.capacity);
        assert(slot.len > 0);
        if first.len() <= scratch@.len() {
            assert(final(scratch)@.take(first.len() as int) =~= first);
            if first.len() <= dst.bus().slot_size() {
                law_publish_reaches_everyone(d, first, dst.bus().view(final(dst_mem)@));
            }
        }
    }
}

/// Whatever a relay adds to a queue of the destination is a whole message: the first of the queue of
/// the source.
pub proof fn law_relay_adds_whole_messages<'a>(
    src: &Subscriber<'a>,
    src_mem: &mut [u8],
    dst: &Producer<'a>,
    dst_mem: &mut [u8],
    scratch: &mut [u8],
    r: Result<Option<usize>, BusError>,
    i: int,
)
    requires
        src.well_formed(),
        src.bus().maps(src_mem@),
        settled(src.bus().view(src_mem@)),
        0 <= src.place() < src.bus().view(src_mem@).active(),
        dst.bus().maps(dst_mem@),
        settled(dst.bus().view(dst_mem@)),
        dst.bus().view(dst_mem@).claim_seq < u64::MAX,
        forall|i: int|
            0 <= i < dst.bus().view(dst_mem@).active() ==> (#[trigger] pending(
                dst.bus().view(dst_mem@),
                i,
            )).len() < dst.bus().view(dst_mem@).capacity,
        call_ensures(bus::relay_once, (src, src_mem, dst, dst_mem, scratch), r),
        0 <= i < dst.bus().view(dst_mem@).active(),
    ensures
        ({
            let queue = pending(src.bus().view(old(src_mem)@), src.place());
            let before = pending(dst.bus().view(old(dst_mem)@), i);
            let after = pending(dst.bus().view(final(dst_mem)@), i);
            ||| after == before
            ||| queue.len() > 0 && after == before.push(queue[0])
        }),
{
    law_relay_passes_on_the_first(src, src_mem, dst, dst_mem, scratch, r);
}

} // verus!
