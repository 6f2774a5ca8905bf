//! Powers of two, and the masks that stand for division by them.

use vstd::arithmetic::power2;
use vstd::prelude::*;

verus! {

proof fn lemma_mask_bits_step(x: u64, a: u64)
    requires
        a > 0,
        a % 2 == 0,
    ensures
        x & ((a - 1) as u64) == 2 * ((x / 2) & ((a / 2 - 1) as u64)) + x % 2,
{
    assert(x & ((a - 1) as u64) == 2 * ((x / 2) & ((a / 2 - 1) as u64)) + x % 2) by (bit_vector)
        requires
            a > 0,
            a % 2 == 0,
    ;
}

/// Masking with `a - 1` is the remainder of the division by `a`, when `a` is a power of two.
pub proof fn lemma_mask_is_mod(x: u64, a: u64)
    requires
        power2::is_pow2(a as int),
    ensures
        a > 0,
        x & ((a - 1) as u64) == x % a,
    decreases a,
{
    reveal(power2::is_pow2);
    if a == 1 {
        assert(x & 0 == 0) by (bit_vector);
    } else {
        lemma_mask_is_mod(x / 2, a / 2);
        lemma_mask_bits_step(x, a);
        let h = (a / 2) as int;
        let q = (x / 2) as int / h;
        let r = (x / 2) as int % h;
        vstd::arithmetic::div_mod::lemma_fundamental_div_mod((x / 2) as int, h);
        assert(0 <= r < h);
        assert(x as int == q * a as int + (2 * r + x % 2)) by (nonlinear_arith)
            requires
                (x / 2) as int == h * q + r,
                a as int == 2 * h,
                x as int == 2 * ((x / 2) as int) + x % 2,
        ;
        vstd::arithmetic::div_mod::lemma_fundamental_div_mod_converse(
            x as int,
            a as int,
            q,
            2 * r + x % 2,
        );
    }
}

/// `x` is a power of two exactly when clearing its lowest set bit leaves nothing.
pub proof fn lemma_pow2_bits(x: u64)
    ensures
        power2::is_pow2(x as int) <==> x != 0 && x & ((x - 1) as u64) == 0,
    decreases x,
{
    reveal(power2::is_pow2);
    if x > 1 {
        if x % 2 == 0 {
            lemma_pow2_bits(x / 2);
            lemma_mask_bits_step(x, x);
        } else {
            assert(x & ((x - 1) as u64) == x - 1) by (bit_vector)
                requires
                    x % 2 == 1,
            ;
        }
    } else if x == 1 {
        assert(1u64 & 0u64 == 0) by (bit_vector);
    }
}

/// Whether `x` is a power of two.
pub fn is_pow2(x: usize) -> (b: bool)
    ensures
        b == power2::is_pow2(x as int),
{
    proof {
        lemma_pow2_bits(x as u64);
        reveal(power2::is_pow2);
        if x != 0 {
            assert((x & ((x - 1) as usize)) as u64 == (x as u64) & ((x as u64 - 1) as u64));
        }
    }
    x != 0 && (x & (x - 1)) == 0
}

/// The least multiple of `a` that is no less than `x`.
pub(crate) fn align_up(x: usize, a: usize) -> (y: usize)
    requires
        power2::is_pow2(a as int),
        x + (a - 1) <= usize::MAX,
    ensures
        y % a == 0,
        x <= y < x + a,
{
    proof {
        reveal(power2::is_pow2);
    }
    let top: usize = x + (a - 1);
    proof {
        lemma_mask_is_mod(top as u64, a as u64);
        let m = (a - 1) as usize;
        assert(top & !m == top - (top & m)) by (bit_vector);
        assert((top & m) as u64 == (top as u64) & (m as u64));
        vstd::arithmetic::div_mod::lemma_fundamental_div_mod(top as int, a as int);
        vstd::arithmetic::div_mod::lemma_mod_multiples_basic(top as int / a as int, a as int);
        assert(top as int - top as int % a as int == (top as int / a as int) * a as int)
            by (nonlinear_arith)
            requires
                top as int == (a as int) * (top as int / a as int) + top as int % a as int,
        ;
    }
    top & !(a - 1)
}

/// The ring slot that sequence number `seq` falls on.
pub fn slot_index(seq: u64, capacity: u64) -> (idx: u64)
    requires
        power2::is_pow2(capacity as int),
    ensures
        capacity > 0,
        idx == seq % capacity,
        idx < capacity,
{
    proof {
        reveal(power2::is_pow2);
        lemma_mask_is_mod(seq, capacity);
    }
    seq & (capacity - 1)
}

// ---- laws ----

/// One is a power of two, nothing is not, and otherwise a number is one exactly if it is even and
/// its half is.
pub proof fn law_powers_of_two_halve(x: usize, b: bool, half: bool)
    requires
        call_ensures(is_pow2, (x,), b),
        call_ensures(is_pow2, ((x / 2) as usize,), half),
    ensures
        x == 0 ==> !b,
        x == 1 ==> b,
        x > 1 ==> (b <==> x % 2 == 0 && half),
{
    reveal_with_fuel(power2::is_pow2, 3);
}

/// Sequence numbers go round the ring: they fall on slots of the ring, one after the other.
pub proof fn law_slots_go_round(seq: u64, capacity: u64, idx: u64, next: u64)
    requires
        capacity > 0,
        seq < u64::MAX,
        call_ensures(slot_index, (seq, capacity), idx),
        call_ensures(slot_index, ((seq + 1) as u64, capacity), next),
    ensures
        idx < capacity,
        seq < capacity ==> idx == seq,
        next == if idx + 1 == capacity {
            0
        } else {
            idx + 1
        },
{
    let c = capacity as int;
    vstd::arithmetic::div_mod::lemma_mod_bound(seq as int, c);
    vstd::arithmetic::div_mod::lemma_fundamental_div_mod(seq as int, c);
    let q = seq as int / c;
    if idx + 1 == capacity {
        assert((q + 1) * c == c * q + c) by (nonlinear_arith);
        vstd::arithmetic::div_mod::lemma_fundamental_div_mod_converse(seq + 1, c, q + 1, 0);
    } else {
        assert(q * c == c * q) by (nonlinear_arith);
        vstd::arithmetic::div_mod::lemma_fundamental_div_mod_converse(seq + 1, c, q, idx + 1);
    }
    if seq < capacity {
        vstd::arithmetic::div_mod::lemma_small_mod(seq as nat, capacity as nat);
    }
}

/// Aligning gives the least multiple that is not below.
pub(crate) proof fn law_alignment_is_least(x: usize, a: usize, y: usize, z: int)
    requires
        a > 0,
        call_ensures(align_up, (x, a), y),
        z >= x,
        z % a as int == 0,
    ensures
        y >= x,
        y % a == 0,
        y <= z,
{
    if z < y {
        let k = y as int / a as int;
        let l = z / a as int;
        vstd::arithmetic::div_mod::lemma_fundamental_div_mod(y as int, a as int);
        vstd::arithmetic::div_mod::lemma_fundamental_div_mod(z, a as int);
        assert(false) by (nonlinear_arith)
            requires
                y as int == a as int * k,
                z == a as int * l,
                z < y,
                y < x + a,
                z >= x,
                a > 0,
        ;
    }
}

} // verus!
