//! The checksum of frames: CRC-16 with the CCITT polynomial x^16 + x^12 + x^5 + 1, most
//! significant bit first.

use vstd::prelude::*;

verus! {

/// The register after one more bit was shifted out of it.
pub open spec fn shifted(crc: u16) -> u16 {
    if crc & 0x8000 != 0 {
        (crc << 1) ^ 0x1021
    } else {
        crc << 1
    }
}

/// The register after `n` more bits were shifted out of it.
pub open spec fn shifted_by(crc: u16, n: nat) -> u16
    decreases n,
{
    if n == 0 {
        crc
    } else {
        shifted(shifted_by(crc, (n - 1) as nat))
    }
}

/// The register after the byte `b`.
pub open spec fn crc_byte(crc: u16, b: u8) -> u16 {
    shifted_by(crc ^ ((b as u16) << 8), 8)
}

/// The checksum of `data`, beginning from `crc`.
pub open spec fn crc16(crc: u16, data: Seq<u8>) -> u16
    decreases data.len(),
{
    if data.len() == 0 {
        crc
    } else {
        crc_byte(crc16(crc, data.drop_last()), data.last())
    }
}

/// The checksum of `data`, beginning from `crc`.
pub fn crc16_ccitt(crc: u16, data: &[u8]) -> (r: u16)
    ensures
        r == crc16(crc, data@),
{
    let mut r: u16 = crc;
    let n: usize = data.len();
    let mut i: usize = 0;
    while i < n
        invariant
            i <= n == data@.len(),
            r == crc16(crc, data@.take(i as int)),
        decreases n - i,
    {
        let b: u8 = data[i];
        let ghost before = r;
        r = r ^ ((b as u16) << 8);
        let ghost start = r;
        let mut k: u8 = 0;
        while k < 8
            invariant
                k <= 8,
                r == shifted_by(start, k as nat),
            decreases 8 - k,
        {
            r = if (r & 0x8000) != 0 {
                (r << 1) ^ 0x1021
            } else {
                r << 1
            };
            k = k + 1;
        }
        proof {
            let now = data@.take(i + 1);
            assert(now.drop_last() =~= data@.take(i as int));
            assert(now.last() == b);
        }
        i = i + 1;
    }
    assert(data@.take(n as int) =~= data@);
    r
}

/// The checksum of two parts in a row is that of the second, beginning from that of the first.
pub proof fn law_crc_of_parts(crc: u16, a: Seq<u8>, b: Seq<u8>)
    ensures
        crc16(crc16(crc, a), b) == crc16(crc, a + b),
    decreases b.len(),
{
    if b.len() == 0 {
        assert(a + b =~= a);
    } else {
        law_crc_of_parts(crc, a, b.drop_last());
        assert((a + b).drop_last() =~= a + b.drop_last());
    }
}

proof fn lemma_shifted_apart(x: u16, y: u16)
    ensures
        shifted(x) == shifted(y) ==> x == y,
{
    assert(shifted(x) == shifted(y) ==> x == y) by (bit_vector);
}

proof fn lemma_shifted_by_apart(x: u16, y: u16, n: nat)
    ensures
        shifted_by(x, n) == shifted_by(y, n) ==> x == y,
    decreases n,
{
    if n > 0 {
        lemma_shifted_by_apart(x, y, (n - 1) as nat);
        lemma_shifted_apart(shifted_by(x, (n - 1) as nat), shifted_by(y, (n - 1) as nat));
    }
}

/// Registers that differ go on to differ, whatever follows.
proof fn lemma_crc_apart(x: u16, y: u16, data: Seq<u8>)
    ensures
        crc16(x, data) == crc16(y, data) ==> x == y,
    decreases data.len(),
{
    if data.len() > 0 {
        let b = (data.last() as u16) << 8;
        let p = crc16(x, data.drop_last());
        let q = crc16(y, data.drop_last());
        lemma_crc_apart(x, y, data.drop_last());
        lemma_shifted_by_apart(p ^ b, q ^ b, 8);
        assert(p ^ b == q ^ b ==> p == q) by (bit_vector);
    }
}

/// A change of one byte always changes the checksum.
pub proof fn law_changed_byte_is_detected(crc: u16, data: Seq<u8>, i: int, b: u8)
    requires
        0 <= i < data.len(),
        data[i] != b,
    ensures
        crc16(crc, data.update(i, b)) != crc16(crc, data),
{
    let before = data.take(i);
    let rest = data.skip(i + 1);
    let x = crc16(crc, before);
    let a = data[i];
    assert(data =~= before.push(a) + rest);
    assert(data.update(i, b) =~= before.push(b) + rest);
    law_crc_of_parts(crc, before.push(a), rest);
    law_crc_of_parts(crc, before.push(b), rest);
    assert(before.push(a).drop_last() =~= before);
    assert(before.push(b).drop_last() =~= before);
    lemma_crc_apart(crc_byte(x, a), crc_byte(x, b), rest);
    let p = x ^ ((a as u16) << 8);
    let q = x ^ ((b as u16) << 8);
    lemma_shifted_by_apart(p, q, 8);
    assert(x ^ ((a as u16) << 8) == x ^ ((b as u16) << 8) ==> a == b) by (bit_vector);
}

/// What one more byte makes of the register, by shifts and exclusive ors of whole words: the
/// remainder of the division by the polynomial, without dividing bit by bit.
pub open spec fn divided(crc: u16, b: u8) -> u16 {
    let x = (crc >> 8) ^ (b as u16);
    let y = x ^ (x >> 4);
    (crc << 8) ^ (y << 12) ^ (y << 5) ^ y
}

proof fn lemma_divided(crc: u16, b: u8)
    ensures
        crc_byte(crc, b) == divided(crc, b),
{
    let r0 = crc ^ ((b as u16) << 8);
    reveal_with_fuel(shifted_by, 9);
    let r1 = shifted(r0);
    let r2 = shifted(r1);
    let r3 = shifted(r2);
    let r4 = shifted(r3);
    let r5 = shifted(r4);
    let r6 = shifted(r5);
    let r7 = shifted(r6);
    let r8 = shifted(r7);
    assert(crc_byte(crc, b) == r8);
    assert(shifted(shifted(shifted(shifted(shifted(shifted(shifted(shifted(crc ^ ((b as u16) << 8u16)))))))))
        == divided(crc, b)) by (bit_vector);
}

/// The checksum of nothing is the register that it begins from, and every further byte makes of it
/// the remainder of the division by the polynomial.
pub proof fn law_each_byte_is_divided(crc: u16, data: &[u8], less: &[u8], r: u16, before: u16)
    requires
        call_ensures(crc16_ccitt, (crc, data), r),
        call_ensures(crc16_ccitt, (crc, less), before),
        data@.len() > 0,
        less@ == data@.drop_last(),
    ensures
        r == divided(before, data@.last()),
        data@.len() == 1 ==> before == crc,
{
    lemma_divided(before, data@.last());
}

} // verus!
