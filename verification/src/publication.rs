//! How a publication ends that is alone on the bus, and how long it waits.

use crate::layout::{BusView, SlotView};
use crate::protocol;
use crate::protocol::{Publish, PublishPhase};
use vstd::prelude::*;

verus! {

/// Where a publication by `p` of `data` stands, on a bus that held `was` before it and holds
/// `now`.
pub open spec fn publishing(p: Publish, was: BusView, now: BusView, data: Seq<u8>) -> bool {
    let ahead = if p.blocking {
        was.claimed()
    } else {
        was
    };
    let slot = was.slot_of(was.claim_seq as int);
    let done = was.filled(data);
    &&& p.phase !is Claim ==> p.claim == was.claim_seq
    &&& p.phase !is Done ==> (p.published <==> p.phase is Tail || p.phase is TailSlot || p.phase is
        TailSwap)
    &&& match p.phase {
        PublishPhase::Claim => now == was,
        PublishPhase::Write => now == ahead,
        PublishPhase::Subs => now == ahead && p.min_read == was.write_seq,
        PublishPhase::Reads => {
            &&& now == ahead
            &&& p.subs == was.active()
            &&& p.min_read == protocol::least(was.read_seq, p.next_sub as int, was.write_seq)
        },
        PublishPhase::Stalled => false,
        PublishPhase::Swap => now == was && was.room(),
        PublishPhase::Fill => now == was.claimed() && was.room(),
        PublishPhase::Len => now == was.claimed().with_slot(
            slot,
            SlotView { payload: done.slots[slot].payload, ..was.slots[slot] },
        ) && was.room(),
        PublishPhase::Commit => now == was.claimed().with_slot(
            slot,
            SlotView { seq: was.slots[slot].seq, ..done.slots[slot] },
        ) && was.room(),
        PublishPhase::Tail | PublishPhase::TailSlot | PublishPhase::TailSwap => {
            &&& was.room()
            &&& now == (BusView { write_seq: now.write_seq, ..done })
            &&& was.write_seq <= now.write_seq <= was.write_seq + was.capacity
            &&& forall|s: int|
                was.write_seq <= s < now.write_seq ==> #[trigger] done.committed(s)
            &&& p.phase !is Tail ==> p.tail == now.write_seq
            &&& p.phase is TailSwap ==> done.committed(now.write_seq as int)
        },
        PublishPhase::Done => if p.published {
            was.room() && was.published(data, now)
        } else {
            !p.blocking && !was.room() && now == was
        },
    }
}

/// How far a publication is from its end.
pub open spec fn to_go(p: Publish, was: BusView, now: BusView) -> (int, int) {
    let left = was.write_seq + was.capacity - now.write_seq;
    match p.phase {
        PublishPhase::Claim => (12, 0),
        PublishPhase::Write => (11, 0),
        PublishPhase::Subs => (10, 0),
        PublishPhase::Reads => (9, p.subs - p.next_sub),
        PublishPhase::Stalled => (8, 0),
        PublishPhase::Swap => (7, 0),
        PublishPhase::Fill => (6, 0),
        PublishPhase::Len => (5, 0),
        PublishPhase::Commit => (4, 0),
        PublishPhase::Tail => (3, 3 * left + 2),
        PublishPhase::TailSlot => (3, 3 * left + 1),
        PublishPhase::TailSwap => (3, 3 * left),
        PublishPhase::Done => (0, 0),
    }
}

/// The write sequence moves by no more than the ring has slots.
proof fn lemma_tail_bounded(was: BusView, now: BusView, data: Seq<u8>)
    requires
        was.shaped(),
        was.write_seq <= now.write_seq,
        forall|s: int|
            was.write_seq <= s < now.write_seq ==> #[trigger] was.filled(data).committed(s),
        was.filled(data).committed(now.write_seq as int),
    ensures
        now.write_seq < was.write_seq + was.capacity,
{
    let c = was.capacity as int;
    if now.write_seq >= was.write_seq + c {
        let s = now.write_seq - c;
        assert(was.filled(data).committed(s));
        vstd::arithmetic::div_mod::lemma_mod_add_multiples_vanish(s, c);
    }
}

/// Whether `p` can publish `data` on a bus that held `was` before.
pub open spec fn suits(p: Publish, was: BusView, data: Seq<u8>) -> bool {
    &&& was.shaped()
    &&& was.takes(data.len() as int)
    &&& was.claim_seq < u64::MAX
    &&& p.valid()
    &&& p.capacity == was.capacity
    &&& p.len == data.len() as u32
}

/// Each access brings the publication on.
pub proof fn lemma_step(p: Publish, was: BusView, now: BusView, data: Seq<u8>)
    requires
        suits(p, was, data),
        p.blocking ==> was.room(),
        p.phase !is Done,
        publishing(p, was, now, data),
    ensures
        ({
            let a = p.access();
            let reply = protocol::reply_to(now, a);
            let next = p.step(reply);
            let then = protocol::after(now, a, data);
            &&& protocol::in_bounds(now, a, data, 0)
            &&& p.expects(reply)
            &&& publishing(next, was, then, data)
            &&& to_go(next, was, then).0 < to_go(p, was, now).0 || (to_go(next, was, then).0
                == to_go(p, was, now).0 && 0 <= to_go(next, was, then).1 < to_go(p, was, now).1)
        }),
{
    let a = p.access();
    let reply = protocol::reply_to(now, a);
    let next = p.step(reply);
    let then = protocol::after(now, a, data);
    let slot = was.slot_of(was.claim_seq as int);
    let done = was.filled(data);
    match p.phase {
        PublishPhase::Reads => {
            assert(next.min_read == protocol::least(
                was.read_seq,
                p.next_sub + 1,
                was.write_seq,
            ));
        },
        PublishPhase::Fill => {
            assert(then =~= was.claimed().with_slot(
                slot,
                SlotView { payload: done.slots[slot].payload, ..was.slots[slot] },
            ));
        },
        PublishPhase::Len => {
            assert(then =~= was.claimed().with_slot(
                slot,
                SlotView { seq: was.slots[slot].seq, ..done.slots[slot] },
            ));
        },
        PublishPhase::Commit => {
            assert(then =~= BusView { write_seq: then.write_seq, ..done });
        },
        PublishPhase::TailSlot => {
            assert(now.committed(p.tail as int) == done.committed(p.tail as int));
        },
        PublishPhase::TailSwap => {
            lemma_tail_bounded(was, now, data);
        },
        _ => {},
    }
}

/// What comes of `k` accesses of the publication, or fewer if it is finished before, and what the
/// bus then holds.
pub open spec fn alone(p: Publish, now: BusView, data: Seq<u8>, k: nat) -> (Publish, BusView)
    decreases k,
{
    if k == 0 || p.phase is Done {
        (p, now)
    } else {
        alone(
            p.step(protocol::reply_to(now, p.access())),
            protocol::after(now, p.access(), data),
            data,
            (k - 1) as nat,
        )
    }
}

/// Whether the publication has claimed its sequence number and waits for room.
pub open spec fn waiting(p: Publish) -> bool {
    &&& p.blocking
    &&& !p.published
    &&& p.phase is Write || p.phase is Subs || p.phase is Reads || p.phase is Stalled
}

/// Whether a publication of `was`'s next message waits, and knows nothing wrong.
spec fn stuck(p: Publish, was: BusView, now: BusView) -> bool {
    &&& p.valid()
    &&& p.capacity == was.capacity
    &&& waiting(p)
    &&& p.claim == was.claim_seq
    &&& now == was.claimed()
    &&& p.phase is Subs ==> p.min_read == was.write_seq
    &&& p.phase is Reads ==> p.subs == was.active() && p.min_read == protocol::least(
        was.read_seq,
        p.next_sub as int,
        was.write_seq,
    )
}

proof fn lemma_stays_stuck(p: Publish, was: BusView, now: BusView, data: Seq<u8>, k: nat)
    requires
        was.shaped(),
        was.claim_seq < u64::MAX,
        !was.room(),
        stuck(p, was, now),
    ensures
        stuck(alone(p, now, data, k).0, was, alone(p, now, data, k).1),
    decreases k,
{
    if k > 0 {
        let reply = protocol::reply_to(now, p.access());
        let next = p.step(reply);
        if p.phase is Reads {
            assert(next.min_read == protocol::least(
                was.read_seq,
                p.next_sub + 1,
                was.write_seq,
            ));
        }
        assert(stuck(next, was, protocol::after(now, p.access(), data)));
        lemma_stays_stuck(next, was, protocol::after(now, p.access(), data), data, (k - 1) as nat);
    }
}

/// A blocking publication on a bus without room claims its sequence number and then waits, however
/// long: it does not end, and of the slots and of the subscribers' positions it changes nothing.
pub proof fn law_waits_without_room(v: BusView, data: Seq<u8>, k: nat)
    requires
        v.shaped(),
        v.takes(data.len() as int),
        v.claim_seq < u64::MAX,
        !v.room(),
        k > 0,
    ensures
        ({
            let (p, now) = alone(Publish::begun(true, v.capacity, data.len() as u32), v, data, k);
            &&& waiting(p)
            &&& now == v.claimed()
        }),
{
    let p = Publish::begun(true, v.capacity, data.len() as u32);
    let reply = protocol::reply_to(v, p.access());
    let next = p.step(reply);
    let now = protocol::after(v, p.access(), data);
    assert(stuck(next, v, now));
    lemma_stays_stuck(next, v, now, data, (k - 1) as nat);
}

proof fn lemma_ends(p: Publish, was: BusView, now: BusView, data: Seq<u8>) -> (k: nat)
    requires
        suits(p, was, data),
        p.blocking,
        was.room(),
        publishing(p, was, now, data),
    ensures
        alone(p, now, data, k).0.phase is Done,
        alone(p, now, data, k).0.published,
        was.published(data, alone(p, now, data, k).1),
    decreases to_go(p, was, now).0, to_go(p, was, now).1,
{
    if p.phase is Done {
        0
    } else {
        lemma_step(p, was, now, data);
        let next = p.step(protocol::reply_to(now, p.access()));
        let then = protocol::after(now, p.access(), data);
        let k = lemma_ends(next, was, then, data);
        assert(alone(p, now, data, k + 1) == alone(next, then, data, k));
        k + 1
    }
}

proof fn lemma_waiting_ends(p: Publish, was: BusView, data: Seq<u8>) -> (k: nat)
    requires
        suits(p, was, data),
        waiting(p),
        p.claim == was.claim_seq,
        was.room(),
    ensures
        alone(p, was.claimed(), data, k).0.phase is Done,
        alone(p, was.claimed(), data, k).0.published,
        was.published(data, alone(p, was.claimed(), data, k).1),
    decreases
            match p.phase {
                PublishPhase::Subs => 3int,
                PublishPhase::Reads => 2,
                PublishPhase::Stalled => 1,
                _ => 0,
            },
            p.subs - p.next_sub,
{
    let now = was.claimed();
    if p.phase is Write {
        lemma_ends(p, was, now, data)
    } else {
        let next = p.step(protocol::reply_to(now, p.access()));
        assert(protocol::after(now, p.access(), data) == now);
        let k = if next.phase is Fill {
            lemma_ends(next, was, now, data)
        } else {
            lemma_waiting_ends(next, was, data)
        };
        assert(alone(p, now, data, k + 1) == alone(next, now, data, k));
        k + 1
    }
}

/// A publication that waits ends once there is room, wherever its waiting stands and whatever it
/// has loaded before: the message is then published. Here `v` is what the bus would hold without
/// the claim of the publication.
pub proof fn law_ends_with_room(p: Publish, v: BusView, data: Seq<u8>)
    requires
        suits(p, v, data),
        waiting(p),
        p.claim == v.claim_seq,
        v.room(),
    ensures
        exists|k: nat|
            {
                let (q, now) = #[trigger] alone(p, v.claimed(), data, k);
                q.phase is Done && q.published && v.published(data, now)
            },
{
    let k = lemma_waiting_ends(p, v, data);
    let (q, now) = alone(p, v.claimed(), data, k);
    assert(q.phase is Done && q.published && v.published(data, now));
}

} // verus!
