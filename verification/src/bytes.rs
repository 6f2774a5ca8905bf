//! Little-endian integers in byte sequences.

use vstd::prelude::*;

verus! {

/// 256 to the power `n`: the number of values that `n` bytes can hold.
pub open spec fn pow256(n: nat) -> nat
    decreases n,
{
    if n == 0 {
        1
    } else {
        256 * pow256((n - 1) as nat)
    }
}

/// The `n` low bytes of `x`, least significant first.
pub open spec fn le_bytes(x: nat, n: nat) -> Seq<u8>
    decreases n,
{
    if n == 0 {
        Seq::empty()
    } else {
        seq![(x % 256) as u8] + le_bytes(x / 256, (n - 1) as nat)
    }
}

/// The number whose bytes, least significant first, are `s`.
pub open spec fn le_value(s: Seq<u8>) -> nat
    decreases s.len(),
{
    if s.len() == 0 {
        0
    } else {
        s[0] as nat + 256 * le_value(s.drop_first())
    }
}

/// The number that the `n` bytes of `mem` at `at` hold.
pub open spec fn le_at(mem: Seq<u8>, at: int, n: nat) -> nat {
    le_value(mem.subrange(at, at + n))
}

/// `mem` with the bytes from `at` on replaced by `data`.
pub open spec fn spliced(mem: Seq<u8>, at: int, data: Seq<u8>) -> Seq<u8> {
    mem.subrange(0, at) + data + mem.subrange(at + data.len(), mem.len() as int)
}

pub proof fn lemma_pow256_values()
    ensures
        pow256(0) == 1,
        pow256(1) == 0x100,
        pow256(2) == 0x1_0000,
        pow256(4) == 0x1_0000_0000,
        pow256(8) == 0x1_0000_0000_0000_0000,
{
    reveal_with_fuel(pow256, 9);
}

pub proof fn lemma_pow256_grows(m: nat, n: nat)
    requires
        m <= n,
    ensures
        0 < pow256(m) <= pow256(n),
    decreases n,
{
    if m < n {
        lemma_pow256_grows(m, (n - 1) as nat);
    } else if m > 0 {
        lemma_pow256_grows((m - 1) as nat, (n - 1) as nat);
    }
}

pub proof fn lemma_le_bytes_len(x: nat, n: nat)
    ensures
        le_bytes(x, n).len() == n,
    decreases n,
{
    if n > 0 {
        lemma_le_bytes_len(x / 256, (n - 1) as nat);
    }
}

/// What `n` bytes hold is below 256 to the power `n`.
pub proof fn lemma_le_value_bound(s: Seq<u8>)
    ensures
        le_value(s) < pow256(s.len()),
    decreases s.len(),
{
    if s.len() > 0 {
        lemma_le_value_bound(s.drop_first());
    }
}

/// Reading back the `n` bytes of a number that fits in them gives the number.
pub proof fn lemma_le_value_of_bytes(x: nat, n: nat)
    requires
        x < pow256(n),
    ensures
        le_value(le_bytes(x, n)) == x,
    decreases n,
{
    if n > 0 {
        lemma_le_value_of_bytes(x / 256, (n - 1) as nat);
        assert(le_bytes(x, n).drop_first() =~= le_bytes(x / 256, (n - 1) as nat));
    }
}

/// Different byte sequences of one length hold different numbers.
pub proof fn lemma_le_value_apart(s: Seq<u8>, t: Seq<u8>)
    requires
        s.len() == t.len(),
        s != t,
    ensures
        le_value(s) != le_value(t),
    decreases s.len(),
{
    if s.len() == 0 {
        assert(s =~= t);
    } else if s.drop_first() != t.drop_first() {
        lemma_le_value_apart(s.drop_first(), t.drop_first());
    } else if s[0] == t[0] {
        assert(s =~= seq![s[0]] + s.drop_first());
        assert(t =~= seq![t[0]] + t.drop_first());
    }
}

/// Replacing some bytes leaves every number held in other bytes alone.
pub proof fn lemma_splice_frame(mem: Seq<u8>, at: int, data: Seq<u8>)
    requires
        0 <= at,
        at + data.len() <= mem.len(),
    ensures
        spliced(mem, at, data).len() == mem.len(),
        spliced(mem, at, data).subrange(at, at + data.len()) == data,
        forall|o: int, n: nat|
            0 <= o && o + n <= mem.len() && (o + n <= at || at + data.len() <= o) ==> #[trigger] le_at(
                spliced(mem, at, data),
                o,
                n,
            ) == le_at(mem, o, n),
        forall|o: int, e: int|
            0 <= o <= e <= mem.len() && (e <= at || at + data.len() <= o) ==> #[trigger] spliced(
                mem,
                at,
                data,
            ).subrange(o, e) == mem.subrange(o, e),
{
    let after = spliced(mem, at, data);
    assert(after.subrange(at, at + data.len()) =~= data);
    assert forall|o: int, n: nat|
        0 <= o && o + n <= mem.len() && (o + n <= at || at + data.len()
            <= o) implies #[trigger] le_at(after, o, n) == le_at(mem, o, n) by {
        assert(after.subrange(o, o + n) =~= mem.subrange(o, o + n));
    }
    assert forall|o: int, e: int|
        0 <= o <= e <= mem.len() && (e <= at || at + data.len()
            <= o) implies #[trigger] after.subrange(o, e) == mem.subrange(o, e) by {
        assert(after.subrange(o, e) =~= mem.subrange(o, e));
    }
}

/// Bytes that are all zero hold zero.
pub proof fn lemma_le_value_zero(s: Seq<u8>)
    requires
        forall|i: int| 0 <= i < s.len() ==> s[i] == 0,
    ensures
        le_value(s) == 0,
    decreases s.len(),
{
    if s.len() > 0 {
        lemma_le_value_zero(s.drop_first());
    }
}

pub proof fn lemma_le_bytes_zero(n: nat)
    ensures
        forall|i: int| 0 <= i < n ==> le_bytes(0, n)[i] == 0,
    decreases n,
{
    if n > 0 {
        lemma_le_bytes_zero((n - 1) as nat);
        lemma_le_bytes_len(0, (n - 1) as nat);
    }
}

/// Reads the number in the `n` bytes of `mem` at `at`.
pub fn read_le(mem: &[u8], at: usize, n: usize) -> (x: u64)
    requires
        n <= 8,
        at + n <= mem@.len(),
    ensures
        x == le_at(mem@, at as int, n as nat),
{
    let mut x: u64 = 0;
    let mut k: usize = n;
    assert(at + n <= mem.len());
    proof {
        lemma_pow256_values();
        assert(mem@.subrange(at + n, at + n) =~= Seq::<u8>::empty());
    }
    while k > 0
        invariant
            k <= n <= 8,
            at + n <= mem@.len() <= usize::MAX,
            x == le_value(mem@.subrange(at + k, at + n)),
            pow256(8) == 0x1_0000_0000_0000_0000,
        decreases k,
    {
        let ghost rest = mem@.subrange(at + k, at + n);
        k = k - 1;
        proof {
            let s = mem@.subrange(at + k, at + n);
            assert(s.drop_first() =~= rest);
            lemma_le_value_bound(s);
            lemma_pow256_grows(s.len(), 8);
        }
        x = mem[at + k] as u64 + 256 * x;
    }
    x
}

/// Writes the `n` low bytes of `x` into `mem` at `at`.
pub fn write_le(mem: &mut [u8], at: usize, n: usize, x: u64)
    requires
        at + n <= old(mem)@.len(),
    ensures
        final(mem)@ == spliced(old(mem)@, at as int, le_bytes(x as nat, n as nat)),
{
    let mut rest: u64 = x;
    let mut k: usize = 0;
    let ghost all = le_bytes(x as nat, n as nat);
    assert(at + n <= mem.len());
    proof {
        lemma_le_bytes_len(x as nat, n as nat);
        assert(all.subrange(0, n as int) =~= all);
        assert(mem@ =~= spliced(old(mem)@, at as int, all.subrange(0, 0)));
    }
    while k < n
        invariant
            k <= n,
            at + n <= old(mem)@.len() <= usize::MAX,
            all.len() == n,
            all.subrange(k as int, n as int) == le_bytes(rest as nat, (n - k) as nat),
            mem@ == spliced(old(mem)@, at as int, all.subrange(0, k as int)),
        decreases n - k,
    {
        proof {
            let tail = all.subrange(k as int, n as int);
            assert(tail[0] == (rest % 256) as u8);
            assert(tail.drop_first() =~= all.subrange(k + 1, n as int));
            assert(tail.drop_first() =~= le_bytes((rest / 256) as nat, (n - k - 1) as nat));
        }
        mem[at + k] = (rest % 256) as u8;
        rest = rest / 256;
        k = k + 1;
        assert(mem@ =~= spliced(old(mem)@, at as int, all.subrange(0, k as int)));
    }
    assert(all.subrange(0, n as int) =~= all);
}

/// Appends the two bytes of `x`, low byte first.
pub fn put_u16(buf: &mut Vec<u8>, x: u16)
    ensures
        final(buf)@ == old(buf)@ + le_bytes(x as nat, 2),
{
    buf.push((x % 256) as u8);
    buf.push((x / 256) as u8);
    proof {
        reveal_with_fuel(le_bytes, 3);
        assert(buf@ =~= old(buf)@ + le_bytes(x as nat, 2));
    }
}

// ---- laws ----

/// What is read is little-endian: no bytes give nothing, and the first byte counts once, what is
/// read behind it 256 times.
pub proof fn law_first_byte_counts_least(mem: &[u8], at: usize, n: usize, x: u64, y: u64)
    requires
        0 < n <= 8,
        at + n <= mem@.len() <= usize::MAX,
        call_ensures(read_le, (mem, at, n), x),
        call_ensures(read_le, (mem, (at + 1) as usize, (n - 1) as usize), y),
    ensures
        x == mem@[at as int] + 256 * y,
        n == 1 ==> y == 0,
{
    let s = mem@.subrange(at as int, at + n);
    assert(s.drop_first() =~= mem@.subrange(at + 1, at + n));
}

/// The numbers of two, four and eight bytes, byte by byte.
pub proof fn law_numbers_are_little_endian(mem: &[u8], at: usize, n: usize, x: u64)
    requires
        at + n <= mem@.len(),
        call_ensures(read_le, (mem, at, n), x),
    ensures
        n == 2 ==> x == mem@[at as int] + 0x100 * mem@[at + 1],
        n == 4 ==> x == mem@[at as int] + 0x100 * mem@[at + 1] + 0x1_0000 * mem@[at + 2]
            + 0x100_0000 * mem@[at + 3],
        n == 8 ==> x == mem@[at as int] + 0x100 * mem@[at + 1] + 0x1_0000 * mem@[at + 2]
            + 0x100_0000 * mem@[at + 3] + 0x1_0000_0000 * mem@[at + 4] + 0x100_0000_0000 * mem@[at
            + 5] + 0x1_0000_0000_0000 * mem@[at + 6] + 0x100_0000_0000_0000 * mem@[at + 7],
{
    lemma_le_bytes_listed(mem@, at as int, n as nat);
}

/// The value of the bytes at `at`, written out.
pub proof fn lemma_le_bytes_listed(mem: Seq<u8>, at: int, n: nat)
    requires
        0 <= at,
        at + n <= mem.len(),
    ensures
        n == 2 ==> le_at(mem, at, n) == mem[at] + 0x100 * mem[at + 1],
        n == 4 ==> le_at(mem, at, n) == mem[at] + 0x100 * mem[at + 1] + 0x1_0000 * mem[at + 2]
            + 0x100_0000 * mem[at + 3],
        n == 8 ==> le_at(mem, at, n) == mem[at] + 0x100 * mem[at + 1] + 0x1_0000 * mem[at + 2]
            + 0x100_0000 * mem[at + 3] + 0x1_0000_0000 * mem[at + 4] + 0x100_0000_0000 * mem[at + 5]
            + 0x1_0000_0000_0000 * mem[at + 6] + 0x100_0000_0000_0000 * mem[at + 7],
{
    reveal_with_fuel(le_value, 9);
    let s = mem.subrange(at, at + n);
    if n == 2 || n == 4 || n == 8 {
        assert(s.drop_first() =~= mem.subrange(at + 1, at + n));
        assert(s.drop_first().drop_first() =~= mem.subrange(at + 2, at + n));
    }
    if n == 4 || n == 8 {
        assert(s.drop_first().drop_first().drop_first() =~= mem.subrange(at + 3, at + n));
        assert(s.drop_first().drop_first().drop_first().drop_first() =~= mem.subrange(
            at + 4,
            at + n,
        ));
    }
    if n == 8 {
        let t = mem.subrange(at + 4, at + n);
        assert(t.drop_first() =~= mem.subrange(at + 5, at + n));
        assert(t.drop_first().drop_first() =~= mem.subrange(at + 6, at + n));
        assert(t.drop_first().drop_first().drop_first() =~= mem.subrange(at + 7, at + n));
        assert(t.drop_first().drop_first().drop_first().drop_first() =~= mem.subrange(
            at + 8,
            at + n,
        ));
    }
}

/// A number that was written is read back from where it was written, as far as its bytes go; every
/// other byte is as before.
pub proof fn law_written_number_reads_back(
    mem: &mut [u8],
    at: usize,
    n: usize,
    x: u64,
    after: &[u8],
    y: u64,
)
    requires
        n <= 8,
        at + n <= mem@.len(),
        call_ensures(write_le, (mem, at, n, x), ()),
        after@ == final(mem)@,
        call_ensures(read_le, (after, at, n), y),
    ensures
        final(mem)@.len() == old(mem)@.len(),
        forall|i: int|
            0 <= i < old(mem)@.len() && !(at <= i < at + n) ==> final(mem)@[i] == old(mem)@[i],
        n == 8 ==> y == x,
        n == 4 ==> y == x % 0x1_0000_0000,
        n == 2 ==> y == x % 0x1_0000,
{
    lemma_le_bytes_len(x as nat, n as nat);
    lemma_splice_frame(old(mem)@, at as int, le_bytes(x as nat, n as nat));
    lemma_pow256_values();
    lemma_le_value_of_low_bytes(x as nat, n as nat);
    vstd::arithmetic::div_mod::lemma_small_mod(x as nat, 0x1_0000_0000_0000_0000);
}

/// The value of the low bytes of a number is what is left of it in that many bytes.
pub proof fn lemma_le_value_of_low_bytes(x: nat, n: nat)
    ensures
        le_value(le_bytes(x, n)) == x % pow256(n),
    decreases n,
{
    lemma_pow256_grows(n, n);
    if n > 0 {
        let m = (n - 1) as nat;
        lemma_pow256_grows(m, m);
        lemma_le_value_of_low_bytes(x / 256, m);
        assert(le_bytes(x, n).drop_first() =~= le_bytes(x / 256, m));
        let p = pow256(m) as int;
        let q = x as int / 256;
        vstd::arithmetic::div_mod::lemma_fundamental_div_mod(q, p);
        vstd::arithmetic::div_mod::lemma_mod_bound(q, p);
        assert(x as int == 256 * p * (q / p) + (x as int % 256 + 256 * (q % p)))
            by (nonlinear_arith)
            requires
                q == p * (q / p) + q % p,
                x as int == 256 * q + x as int % 256,
        ;
        vstd::arithmetic::div_mod::lemma_fundamental_div_mod_converse(
            x as int,
            256 * p,
            q / p,
            x as int % 256 + 256 * (q % p),
        );
    }
}

/// The low byte goes first.
pub proof fn law_low_byte_is_put_first(buf: &mut Vec<u8>, x: u16)
    requires
        call_ensures(put_u16, (buf, x), ()),
    ensures
        final(buf)@ == old(buf)@.push((x % 256) as u8).push((x / 256) as u8),
{
    reveal_with_fuel(le_bytes, 3);
    assert(final(buf)@ =~= old(buf)@.push((x % 256) as u8).push((x / 256) as u8));
}

} // verus!
