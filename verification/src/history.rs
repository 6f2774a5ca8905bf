//! What many producers publish and many subscribers receive over a whole execution.
//!
//! The calls of all producers together make one sequence, the log, in which the calls of each
//! producer keep their order. What a subscriber receives is the part of the log that begins where
//! it has subscribed.

use crate::fanout;
use crate::interleave;
use crate::interleave::{Action, System};
use crate::protocol::Receipt;
use vstd::prelude::*;

verus! {

/// The messages that subscriber `a` has received in the first `k` steps.
pub open spec fn receipts(states: Seq<System>, acts: Seq<Action>, a: int, k: int) -> Seq<Seq<u8>>
    decreases k,
{
    if k <= 0 {
        seq![]
    } else {
        let before = receipts(states, acts, a, k - 1);
        let r = states[k].readers[a];
        match r.op.receipt {
            Receipt::Message(len) => if acts[k - 1] == (Action::Read { a }) {
                before.push(r.buf.take(len as int))
            } else {
                before
            },
            _ => before,
        }
    }
}

/// The messages that were handed to the calls of producer `p` in the first `k` steps, call by call.
pub open spec fn given(acts: Seq<Action>, p: int, k: int) -> Seq<Seq<u8>>
    decreases k,
{
    if k <= 0 {
        seq![]
    } else {
        let before = given(acts, p, k - 1);
        match acts[k - 1] {
            Action::Begin { p: q, data, .. } => if q == p {
                before.push(data)
            } else {
                before
            },
            _ => before,
        }
    }
}

/// A call to publish: the producer, and which of its calls it is.
pub struct Call {
    pub p: int,
    pub round: int,
}

/// Whether the step `k` is one in which a producer claims a sequence number.
pub open spec fn claims(states: Seq<System>, acts: Seq<Action>, k: int) -> bool {
    match acts[k] {
        Action::Write { p } => interleave::holds(states[k + 1].writers[p].op) && !interleave::holds(
            states[k].writers[p].op,
        ),
        _ => false,
    }
}

/// The calls that have got a sequence number in the first `k` steps, in the order of the numbers.
pub open spec fn calls(states: Seq<System>, acts: Seq<Action>, k: int) -> Seq<Call>
    decreases k,
{
    if k <= 0 {
        seq![]
    } else {
        let before = calls(states, acts, k - 1);
        if claims(states, acts, k - 1) {
            let p = acts[k - 1]->Write_p;
            before.push(Call { p, round: given(acts, p, k).len() - 1 })
        } else {
            before
        }
    }
}

/// The message of a call.
pub open spec fn message(acts: Seq<Action>, k: int, call: Call) -> Seq<u8> {
    given(acts, call.p, k)[call.round]
}

proof fn lemma_readers_stay(states: Seq<System>, acts: Seq<Action>, k: int)
    requires
        interleave::execution(states, acts),
        0 <= k < states.len(),
    ensures
        states[k].readers.len() == states[0].readers.len(),
        states[k].writers.len() == states[0].writers.len(),
    decreases k,
{
    if k > 0 {
        lemma_readers_stay(states, acts, k - 1);
        assert(interleave::allowed(states[k - 1], acts[k - 1]));
    }
}

/// What a subscriber has received, at any time, is the part of the log from where it has begun to
/// where it stands: every message once, whole, and in the order of the log.
pub proof fn law_receipts_are_the_log(states: Seq<System>, acts: Seq<Action>, a: int, k: int)
    requires
        interleave::execution(states, acts),
        0 <= k < states.len(),
        0 <= a < states[0].readers.len(),
    ensures
        ({
            let s = states[k];
            let r = s.readers[a];
            let got = receipts(states, acts, a, k);
            &&& !r.started() ==> got.len() == 0
            &&& r.started() ==> {
                &&& r.join.start + got.len() == r.position(s.bus.read_seq)
                &&& r.position(s.bus.read_seq) <= s.bus.claim_seq
                &&& forall|i: int| 0 <= i < got.len() ==> #[trigger] got[i] == s.log[r.join.start + i]
            }
        }),
    decreases k,
{
    interleave::law_executions_keep_inv(states, acts, k);
    lemma_readers_stay(states, acts, k);
    let t = states[k];
    assert(t.readers[a].started() ==> t.readers[a].position(t.bus.read_seq) <= t.bus.claim_seq) by {
        reveal(interleave::place_inv);
    }
    if k > 0 {
        let s = states[k - 1];
        let act = acts[k - 1];
        lemma_readers_stay(states, acts, k - 1);
        law_receipts_are_the_log(states, acts, a, k - 1);
        interleave::law_executions_keep_inv(states, acts, k - 1);
        assert(interleave::allowed(s, act) && t == interleave::next(s, act));
        let r = s.readers[a];
        let before = receipts(states, acts, a, k - 1);
        assert(r.join.valid() && (r.op.phase !is Done ==> r.join.joined && r.op.valid())) by {
            reveal(interleave::place_inv);
            reveal(interleave::read_inv);
        }
        if r.started() {
            interleave::law_positions_move_by_receipt(s, act, a);
            assert(t.readers[a].join.start == r.join.start);
            assert(r.position(s.bus.read_seq) <= s.bus.claim_seq) by {
                reveal(interleave::place_inv);
            }
            assert forall|i: int| 0 <= i < before.len() implies #[trigger] before[i]
                == t.log[r.join.start + i] by {
                interleave::law_log_only_grows(s, act, r.join.start + i);
            }
            if act == (Action::Read { a }) && r.op.phase is Pass {
                interleave::law_receipt_is_the_message(s, a);
                assert(t.log == s.log);
            }
        }
    }
}

/// Two subscribers receive the messages in one order: those that both receive are, number by
/// number, the same.
pub proof fn law_subscribers_agree(
    states: Seq<System>,
    acts: Seq<Action>,
    a: int,
    b: int,
    i: int,
    j: int,
    k: int,
)
    requires
        interleave::execution(states, acts),
        0 <= k < states.len(),
        0 <= a < states[0].readers.len(),
        0 <= b < states[0].readers.len(),
        0 <= i < receipts(states, acts, a, k).len(),
        0 <= j < receipts(states, acts, b, k).len(),
        states[k].readers[a].join.start + i == states[k].readers[b].join.start + j,
    ensures
        receipts(states, acts, a, k)[i] == receipts(states, acts, b, k)[j],
{
    law_receipts_are_the_log(states, acts, a, k);
    law_receipts_are_the_log(states, acts, b, k);
}

/// Whether the call has got a sequence number.
pub open spec fn has_number(all: Seq<Call>, call: Call) -> bool {
    exists|m: int| 0 <= m < all.len() && #[trigger] all[m] == call
}

proof fn lemma_one_more_number(all: Seq<Call>, one: Call, call: Call)
    ensures
        has_number(all.push(one), call) <==> has_number(all, call) || one == call,
{
    if has_number(all, call) {
        let m = choose|m: int| 0 <= m < all.len() && #[trigger] all[m] == call;
        assert(all.push(one)[m] == call);
    }
    assert(all.push(one)[all.len() as int] == one);
}

/// What is known of the latest call of a producer.
#[verifier::opaque]
spec fn latest(states: Seq<System>, acts: Seq<Action>, p: int, k: int) -> bool {
    let op = states[k].writers[p].op;
    let n = given(acts, p, k).len();
    let ending = op.phase is Tail || op.phase is TailSlot || op.phase is TailSwap;
    &&& n == 0 ==> op.phase is Done
    &&& n > 0 ==> {
        &&& states[k].writers[p].data == given(acts, p, k).last()
        &&& op.published ==> ending || op.phase is Done
        &&& ending ==> op.published
        &&& (interleave::holds(op) || op.published) <==> has_number(
            calls(states, acts, k),
            Call { p, round: n - 1 },
        )
    }
}

/// What is known of the calls that have got a sequence number.
#[verifier::opaque]
spec fn numbered(states: Seq<System>, acts: Seq<Action>, k: int) -> bool {
    let all = calls(states, acts, k);
    let s = states[k];
    &&& all.len() == s.bus.claim_seq
    &&& forall|n: int|
        0 <= n < all.len() ==> {
            let c = #[trigger] all[n];
            &&& 0 <= c.p < s.writers.len()
            &&& 0 <= c.round < given(acts, c.p, k).len()
            &&& s.log[n] == message(acts, k, c)
        }
    &&& forall|m: int, n: int|
        0 <= m < n < all.len() && (#[trigger] all[m]).p == (#[trigger] all[n]).p ==> all[m].round
            < all[n].round
}

proof fn lemma_given_grows(acts: Seq<Action>, p: int, k: int, round: int)
    requires
        k > 0,
        0 <= round < given(acts, p, k - 1).len(),
    ensures
        round < given(acts, p, k).len(),
        given(acts, p, k)[round] == given(acts, p, k - 1)[round],
{
}

/// A step claims the next sequence number, or none.
proof fn lemma_claim_step(s: System, act: Action)
    requires
        interleave::inv(s),
        interleave::allowed(s, act),
    ensures
        ({
            let t = interleave::next(s, act);
            match act {
                Action::Write { p } => if interleave::holds(t.writers[p].op) && !interleave::holds(
                    s.writers[p].op,
                ) {
                    &&& t.bus.claim_seq == s.bus.claim_seq + 1
                    &&& t.log == s.log.insert(s.bus.claim_seq as int, s.writers[p].data)
                } else {
                    t.bus.claim_seq == s.bus.claim_seq && t.log == s.log
                },
                _ => t.bus.claim_seq == s.bus.claim_seq && t.log == s.log,
            }
        }),
{
    reveal(interleave::claim_inv);
    if let Action::Write { p } = act {
        let op = s.writers[p].op;
        assert(op.valid());
    }
}

proof fn lemma_latest_step(states: Seq<System>, acts: Seq<Action>, p: int, k: int)
    requires
        interleave::execution(states, acts),
        0 < k < states.len(),
        0 <= p < states[k].writers.len(),
        numbered(states, acts, k - 1),
        latest(states, acts, p, k - 1),
    ensures
        latest(states, acts, p, k),
{
    reveal(latest);
    let s = states[k - 1];
    let t = states[k];
    let act = acts[k - 1];
    interleave::law_executions_keep_inv(states, acts, k - 1);
    assert(interleave::allowed(s, act) && t == interleave::next(s, act));
    let before = calls(states, acts, k - 1);
    let n = given(acts, p, k).len();
    let call = Call { p, round: n - 1 };
    if claims(states, acts, k - 1) {
        let q = acts[k - 1]->Write_p;
        lemma_one_more_number(before, Call { p: q, round: given(acts, q, k).len() - 1 }, call);
    }
    if let Action::Begin { p: q, data, blocking } = act {
        if q == p {
            assert(!has_number(before, call)) by {
                reveal(numbered);
            }
        }
    }
}

proof fn lemma_numbered_step(states: Seq<System>, acts: Seq<Action>, k: int)
    requires
        interleave::execution(states, acts),
        0 < k < states.len(),
        numbered(states, acts, k - 1),
        forall|p: int| 0 <= p < states[k].writers.len() ==> #[trigger] latest(states, acts, p, k - 1),
    ensures
        numbered(states, acts, k),
{
    reveal(numbered);
    let s = states[k - 1];
    let t = states[k];
    let act = acts[k - 1];
    interleave::law_executions_keep_inv(states, acts, k - 1);
    assert(interleave::allowed(s, act) && t == interleave::next(s, act));
    lemma_claim_step(s, act);
    let before = calls(states, acts, k - 1);
    let all = calls(states, acts, k);
    assert forall|n: int| 0 <= n < before.len() implies {
        let c = #[trigger] before[n];
        &&& c.round < given(acts, c.p, k).len()
        &&& message(acts, k, c) == message(acts, k - 1, c)
    } by {
        lemma_given_grows(acts, before[n].p, k, before[n].round);
    }
    if claims(states, acts, k - 1) {
        let p = acts[k - 1]->Write_p;
        let call = Call { p, round: given(acts, p, k).len() - 1 };
        assert(latest(states, acts, p, k - 1));
        assert(given(acts, p, k).len() > 0 && !has_number(before, call)
            && s.writers[p].data == given(acts, p, k).last()) by {
            reveal(latest);
        }
        assert forall|m: int| 0 <= m < before.len() && (#[trigger] before[m]).p
            == p implies before[m].round < call.round by {
            assert(before[m] != call);
        }
    }
}

proof fn lemma_calls(states: Seq<System>, acts: Seq<Action>, k: int)
    requires
        interleave::execution(states, acts),
        0 <= k < states.len(),
    ensures
        numbered(states, acts, k),
        forall|p: int| 0 <= p < states[k].writers.len() ==> #[trigger] latest(states, acts, p, k),
    decreases k,
{
    if k == 0 {
        reveal(numbered);
        reveal(latest);
    } else {
        lemma_calls(states, acts, k - 1);
        lemma_readers_stay(states, acts, k - 1);
        lemma_readers_stay(states, acts, k);
        lemma_numbered_step(states, acts, k);
        assert forall|p: int| 0 <= p < states[k].writers.len() implies #[trigger] latest(
            states,
            acts,
            p,
            k,
        ) by {
            assert(latest(states, acts, p, k - 1));
            lemma_latest_step(states, acts, p, k);
        }
    }
}

/// The log is made of the calls that have got a sequence number: number by number, it holds the
/// message that was handed to the call. The calls of one producer have their numbers in the order
/// in which they were made, so no call has two.
pub proof fn law_log_is_made_of_calls(states: Seq<System>, acts: Seq<Action>, k: int)
    requires
        interleave::execution(states, acts),
        0 <= k < states.len(),
    ensures
        ({
            let all = calls(states, acts, k);
            &&& all.len() == states[k].bus.claim_seq
            &&& forall|n: int|
                0 <= n < all.len() ==> {
                    let c = #[trigger] all[n];
                    &&& 0 <= c.p < states[k].writers.len()
                    &&& 0 <= c.round < given(acts, c.p, k).len()
                    &&& states[k].log[n] == message(acts, k, c)
                }
            &&& forall|m: int, n: int|
                0 <= m < n < all.len() && (#[trigger] all[m]).p == (#[trigger] all[n]).p
                    ==> all[m].round < all[n].round
        }),
{
    lemma_calls(states, acts, k);
    reveal(numbered);
}

/// The calls that have got a number keep it: later ones come behind them.
pub proof fn law_numbers_are_kept(states: Seq<System>, acts: Seq<Action>, j: int, k: int)
    requires
        0 <= j <= k,
    ensures
        calls(states, acts, j).len() <= calls(states, acts, k).len(),
        calls(states, acts, j) == calls(states, acts, k).take(
            calls(states, acts, j).len() as int,
        ),
    decreases k,
{
    let sooner = calls(states, acts, j);
    if j == k {
        assert(sooner.take(sooner.len() as int) =~= sooner);
    } else {
        law_numbers_are_kept(states, acts, j, k - 1);
        assert(calls(states, acts, k).take(sooner.len() as int) =~= calls(
            states,
            acts,
            k - 1,
        ).take(sooner.len() as int));
    }
}

/// Whether the call has returned at step `j`, before the producer makes another.
pub open spec fn returned(states: Seq<System>, acts: Seq<Action>, call: Call, j: int) -> bool {
    &&& 0 <= call.p < states[j].writers.len()
    &&& 0 <= call.round
    &&& given(acts, call.p, j).len() == call.round + 1
    &&& states[j].writers[call.p].op.phase is Done
}

/// After a call has returned, it gets no number any more.
proof fn lemma_over(states: Seq<System>, acts: Seq<Action>, call: Call, j: int, k: int)
    requires
        interleave::execution(states, acts),
        0 <= j <= k < states.len(),
        returned(states, acts, call, j),
    ensures
        has_number(calls(states, acts, k), call) == has_number(calls(states, acts, j), call),
        given(acts, call.p, k).len() >= call.round + 1,
        given(acts, call.p, k).len() == call.round + 1 ==> states[k].writers[call.p].op.phase is
            Done,
    decreases k,
{
    if j < k {
        let s = states[k - 1];
        let act = acts[k - 1];
        lemma_over(states, acts, call, j, k - 1);
        lemma_readers_stay(states, acts, k - 1);
        lemma_readers_stay(states, acts, j);
        assert(interleave::allowed(s, act) && states[k] == interleave::next(s, act));
        if claims(states, acts, k - 1) {
            let p = acts[k - 1]->Write_p;
            lemma_one_more_number(
                calls(states, acts, k - 1),
                Call { p, round: given(acts, p, k).len() - 1 },
                call,
            );
        }
    }
}

/// Every call that has returned has got a sequence number, at that time and ever after, exactly if
/// it has published its message; one that was refused has none, and leaves nothing in the log. A
/// blocking call that has returned has published.
pub proof fn law_returned_call_has_a_number(
    states: Seq<System>,
    acts: Seq<Action>,
    call: Call,
    j: int,
    k: int,
)
    requires
        interleave::execution(states, acts),
        0 <= j <= k < states.len(),
        returned(states, acts, call, j),
    ensures
        states[j].writers[call.p].op.published <==> has_number(calls(states, acts, k), call),
        states[j].writers[call.p].op.blocking ==> states[j].writers[call.p].op.published,
{
    lemma_calls(states, acts, j);
    assert(latest(states, acts, call.p, j));
    reveal(latest);
    lemma_blocking_publishes(states, acts, call.p, j);
    lemma_over(states, acts, call, j, k);
}

proof fn lemma_blocking_publishes(states: Seq<System>, acts: Seq<Action>, p: int, k: int)
    requires
        interleave::execution(states, acts),
        0 <= k < states.len(),
        0 <= p < states[k].writers.len(),
        given(acts, p, k).len() > 0,
    ensures
        ({
            let op = states[k].writers[p].op;
            op.blocking ==> op.phase !is Swap && (op.phase is Done ==> op.published)
        }),
    decreases k,
{
    if k > 0 {
        let s = states[k - 1];
        let act = acts[k - 1];
        lemma_readers_stay(states, acts, k - 1);
        lemma_readers_stay(states, acts, k);
        lemma_calls(states, acts, k - 1);
        assert(interleave::allowed(s, act) && states[k] == interleave::next(s, act));
        assert(latest(states, acts, p, k - 1));
        reveal(latest);
        if given(acts, p, k - 1).len() > 0 {
            lemma_blocking_publishes(states, acts, p, k - 1);
        }
    }
}

/// Once all calls have returned and a subscriber finds no more, it has received exactly what was
/// published since it has begun: the message of every call that got a number from there on, each
/// once, whole, and in the order of the numbers.
pub proof fn law_everything_is_received(states: Seq<System>, acts: Seq<Action>, a: int, k: int)
    requires
        interleave::execution(states, acts),
        0 <= k < states.len(),
        0 <= a < states[0].readers.len(),
        forall|p: int|
            0 <= p < states[k].writers.len() ==> (#[trigger] states[k].writers[p]).op.phase is Done,
        forall|b: int|
            0 <= b < states[k].readers.len() ==> (#[trigger] states[k].readers[b]).placed()
                ==> states[k].readers[b].join.joined,
        states[k].readers[a].join.joined,
        !states[k].bus.committed(states[k].readers[a].position(states[k].bus.read_seq)),
    ensures
        ({
            let start = states[k].readers[a].join.start as int;
            receipts(states, acts, a, k) == calls(states, acts, k).skip(start).map_values(
                |c: Call| message(acts, k, c),
            )
        }),
{
    let s = states[k];
    let r = s.readers[a];
    let place = r.join.place as int;
    let start = r.join.start as int;
    lemma_readers_stay(states, acts, k);
    interleave::law_executions_keep_inv(states, acts, k);
    law_receipts_are_the_log(states, acts, a, k);
    law_log_is_made_of_calls(states, acts, k);
    interleave::law_quiet_bus_is_settled(s);
    assert(place < s.bus.active()) by {
        reveal(interleave::place_inv);
    }
    fanout::law_receive_takes_the_first(s.bus, place);
    let all = calls(states, acts, k);
    let got = receipts(states, acts, a, k);
    assert(got =~= all.skip(start).map_values(|c: Call| message(acts, k, c))) by {
        assert forall|i: int| 0 <= i < got.len() implies got[i] == message(
            acts,
            k,
            all[start + i],
        ) by {}
    }
}

/// Whether the call has returned by step `k`, and has published.
pub open spec fn answered(states: Seq<System>, acts: Seq<Action>, call: Call, k: int) -> bool {
    exists|j: int|
        0 <= j <= k && #[trigger] returned(states, acts, call, j)
            && states[j].writers[call.p].op.published
}

/// If every call has published, a subscriber that had begun before the first of them, and finds no
/// more, has received the message of each call exactly once and nothing else: its receipts stand,
/// one for one, for the calls, and those of one producer come in the order of its calls.
pub proof fn law_receipts_are_the_calls(states: Seq<System>, acts: Seq<Action>, a: int, k: int)
    requires
        interleave::execution(states, acts),
        0 <= k < states.len(),
        0 <= a < states[0].readers.len(),
        forall|p: int|
            0 <= p < states[k].writers.len() ==> (#[trigger] states[k].writers[p]).op.phase is Done,
        forall|b: int|
            0 <= b < states[k].readers.len() ==> (#[trigger] states[k].readers[b]).placed()
                ==> states[k].readers[b].join.joined,
        states[k].readers[a].join.joined,
        states[k].readers[a].join.start == 0,
        !states[k].bus.committed(states[k].readers[a].position(states[k].bus.read_seq)),
        forall|call: Call|
            0 <= call.p < states[k].writers.len() && 0 <= call.round < given(
                acts,
                call.p,
                k,
            ).len() ==> #[trigger] answered(states, acts, call, k),
    ensures
        ({
            let got = receipts(states, acts, a, k);
            let all = calls(states, acts, k);
            &&& got.len() == all.len()
            &&& forall|i: int|
                0 <= i < got.len() ==> {
                    let c = #[trigger] all[i];
                    &&& 0 <= c.p < states[k].writers.len()
                    &&& 0 <= c.round < given(acts, c.p, k).len()
                    &&& got[i] == message(acts, k, c)
                }
            &&& forall|call: Call|
                0 <= call.p < states[k].writers.len() && 0 <= call.round < given(
                    acts,
                    call.p,
                    k,
                ).len() ==> #[trigger] has_number(all, call)
            &&& forall|i: int, j: int|
                0 <= i < j < all.len() && (#[trigger] all[i]).p == (#[trigger] all[j]).p
                    ==> all[i].round < all[j].round
        }),
{
    law_everything_is_received(states, acts, a, k);
    law_log_is_made_of_calls(states, acts, k);
    let all = calls(states, acts, k);
    assert(all.skip(0) =~= all);
    assert forall|call: Call|
        0 <= call.p < states[k].writers.len() && 0 <= call.round < given(
            acts,
            call.p,
            k,
        ).len() implies #[trigger] has_number(all, call) by {
        assert(answered(states, acts, call, k));
        let j = choose|j: int|
            0 <= j <= k && #[trigger] returned(states, acts, call, j)
                && states[j].writers[call.p].op.published;
        law_returned_call_has_a_number(states, acts, call, j, k);
    }
}

} // verus!
