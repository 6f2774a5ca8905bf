//! Numbers as text.

use vstd::prelude::*;

verus! {

/// The digit that stands for `d`, in lower case.
pub open spec fn digit_char(d: nat) -> char {
    if d < 10 {
        ('0' as u8 + d) as char
    } else {
        ('a' as u8 + (d - 10)) as char
    }
}

/// What the character `c` is worth as a digit, if it is one of the first `radix` digits.
pub open spec fn digit_value(c: char, radix: nat) -> Option<nat> {
    let d = if '0' <= c <= '9' {
        (c as nat - '0' as nat) as nat
    } else if 'a' <= c <= 'z' {
        (c as nat - 'a' as nat + 10) as nat
    } else if 'A' <= c <= 'Z' {
        (c as nat - 'A' as nat + 10) as nat
    } else {
        36
    };
    if d < radix {
        Some(d)
    } else {
        None
    }
}

/// What the digits `s` are worth.
pub open spec fn digits_value(s: Seq<char>, radix: nat) -> Option<nat>
    decreases s.len(),
{
    if s.len() == 0 {
        Some(0)
    } else {
        match (digits_value(s.drop_last(), radix), digit_value(s.last(), radix)) {
            (Some(v), Some(d)) => Some(v * radix + d),
            _ => None,
        }
    }
}

/// The number that the text `s` stands for: one digit or more, behind at most one plus sign.
pub open spec fn number(s: Seq<char>, radix: nat) -> Option<nat> {
    let digits = if s.len() > 0 && s[0] == '+' {
        s.skip(1)
    } else {
        s
    };
    if digits.len() == 0 {
        None
    } else {
        digits_value(digits, radix)
    }
}

/// The number that the text `s` stands for, if it is no greater than `max`.
pub open spec fn number_up_to(s: Seq<char>, radix: nat, max: nat) -> Option<nat> {
    match number(s, radix) {
        Some(v) => if v <= max {
            Some(v)
        } else {
            None
        },
        None => None,
    }
}

/// The decimal digits of `n`.
pub open spec fn decimal(n: nat) -> Seq<char>
    decreases n,
{
    if n < 10 {
        seq![digit_char(n)]
    } else {
        decimal(n / 10).push(digit_char(n % 10))
    }
}

/// `n` in decimal, behind a minus sign if it is negative.
pub open spec fn signed_decimal(n: int) -> Seq<char> {
    if n < 0 {
        seq!['-'] + decimal((-n) as nat)
    } else {
        decimal(n as nat)
    }
}

/// The two hexadecimal digits of the byte `b`.
pub open spec fn hex_byte(b: u8) -> Seq<char> {
    seq![digit_char(b as nat / 16), digit_char(b as nat % 16)]
}

/// The characters of a string.
pub fn chars_of(s: &str) -> (v: Vec<char>)
    ensures
        v@ == s@,
{
    let n: usize = s.unicode_len();
    let mut v: Vec<char> = Vec::new();
    let mut i: usize = 0;
    while i < n
        invariant
            i <= n == s@.len(),
            v@ == s@.take(i as int),
        decreases n - i,
    {
        v.push(s.get_char(i));
        i = i + 1;
        assert(v@ =~= s@.take(i as int));
    }
    assert(s@.take(n as int) =~= s@);
    v
}

fn digit_of(c: char, radix: u32) -> (d: Option<u32>)
    requires
        radix <= 36,
    ensures
        match d {
            Some(d) => digit_value(c, radix as nat) == Some(d as nat) && d < radix,
            None => digit_value(c, radix as nat) is None,
        },
{
    let code: u32 = c as u32;
    let d: u32 = if 48 <= code && code <= 57 {
        code - 48
    } else if 97 <= code && code <= 122 {
        code - 97 + 10
    } else if 65 <= code && code <= 90 {
        code - 65 + 10
    } else {
        36
    };
    if d < radix {
        Some(d)
    } else {
        None
    }
}

/// A number does not shrink, nor a malformed one mend, when digits are put behind it.
proof fn lemma_digits_grow(s: Seq<char>, i: int, radix: nat)
    requires
        0 <= i <= s.len(),
        radix >= 1,
    ensures
        digits_value(s.take(i), radix) is None ==> digits_value(s, radix) is None,
        digits_value(s.take(i), radix) is Some && digits_value(s, radix) is Some ==> digits_value(
            s.take(i),
            radix,
        )->0 <= digits_value(s, radix)->0,
    decreases s.len() - i,
{
    if i == s.len() {
        assert(s.take(i) =~= s);
    } else {
        assert(s.take(i + 1).drop_last() =~= s.take(i));
        lemma_digits_grow(s, i + 1, radix);
        if let Some(v) = digits_value(s.take(i), radix) {
            assert(v * radix >= v) by (nonlinear_arith)
                requires
                    radix >= 1,
                    v >= 0,
            ;
        }
    }
}

/// Reads a number in the given radix, no greater than `max`.
pub fn parse_number(s: &Vec<char>, radix: u32, max: u32) -> (r: Option<u32>)
    requires
        2 <= radix <= 36,
    ensures
        match r {
            Some(x) => number_up_to(s@, radix as nat, max as nat) == Some(x as nat),
            None => number_up_to(s@, radix as nat, max as nat) is None,
        },
{
    let n: usize = s.len();
    let start: usize = if n > 0 && s[0] == '+' {
        1
    } else {
        0
    };
    if start == n {
        return None;
    }
    let ghost digits = if s@.len() > 0 && s@[0] == '+' {
        s@.skip(1)
    } else {
        s@
    };
    let mut i: usize = start;
    let mut x: u32 = 0;
    while i < n
        invariant
            start <= i <= n == s@.len(),
            2 <= radix <= 36,
            digits == s@.skip(start as int),
            number(s@, radix as nat) == digits_value(digits, radix as nat),
            digits_value(digits.take(i - start), radix as nat) == Some(x as nat),
            x <= max,
        decreases n - i,
    {
        proof {
            let now = digits.take(i - start + 1);
            assert(now.drop_last() =~= digits.take(i - start));
            assert(now.last() == s@[i as int]);
            lemma_digits_grow(digits, i - start + 1, radix as nat);
        }
        match digit_of(s[i], radix) {
            None => {
                return None;
            },
            Some(d) => {
                assert(x * radix + d < 0x1_0000_0000 * 36 + 36) by (nonlinear_arith)
                    requires
                        x < 0x1_0000_0000,
                        radix <= 36,
                        d < 36,
                ;
                let next: u64 = (x as u64) * (radix as u64) + d as u64;
                if next > max as u64 {
                    return None;
                }
                x = next as u32;
            },
        }
        i = i + 1;
    }
    assert(digits.take(n - start) =~= digits);
    Some(x)
}

/// The digit that stands for `d`.
fn digit_str(d: u8) -> (s: &'static str)
    requires
        d < 16,
    ensures
        s@ == seq![digit_char(d as nat)],
{
    proof {
        reveal_strlit("0");
        reveal_strlit("1");
        reveal_strlit("2");
        reveal_strlit("3");
        reveal_strlit("4");
        reveal_strlit("5");
        reveal_strlit("6");
        reveal_strlit("7");
        reveal_strlit("8");
        reveal_strlit("9");
        reveal_strlit("a");
        reveal_strlit("b");
        reveal_strlit("c");
        reveal_strlit("d");
        reveal_strlit("e");
        reveal_strlit("f");
    }
    let s = match d {
        0 => "0",
        1 => "1",
        2 => "2",
        3 => "3",
        4 => "4",
        5 => "5",
        6 => "6",
        7 => "7",
        8 => "8",
        9 => "9",
        10 => "a",
        11 => "b",
        12 => "c",
        13 => "d",
        14 => "e",
        _ => "f",
    };
    assert(s@ =~= seq![digit_char(d as nat)]);
    s
}

/// Appends the decimal digits of `n`.
pub fn push_decimal(s: &mut String, n: u64)
    ensures
        final(s)@ == old(s)@ + decimal(n as nat),
    decreases n,
{
    if n >= 10 {
        push_decimal(s, n / 10);
    }
    s.append(digit_str((n % 10) as u8));
    assert(s@ =~= old(s)@ + decimal(n as nat));
}

/// Appends `n` in decimal.
pub fn push_signed_decimal(s: &mut String, n: i32)
    ensures
        final(s)@ == old(s)@ + signed_decimal(n as int),
{
    if n < 0 {
        proof {
            reveal_strlit("-");
        }
        s.append("-");
        assert("-"@ =~= seq!['-']);
        push_decimal(s, (-(n as i64)) as u64);
        assert(s@ =~= old(s)@ + signed_decimal(n as int));
    } else {
        push_decimal(s, n as u64);
    }
}

/// Appends the two hexadecimal digits of `b`.
pub fn push_hex_byte(s: &mut String, b: u8)
    ensures
        final(s)@ == old(s)@ + hex_byte(b),
{
    s.append(digit_str(b / 16));
    s.append(digit_str(b % 16));
    assert(s@ =~= old(s)@ + hex_byte(b));
}

/// The two hexadecimal digits of a byte stand for it.
pub proof fn lemma_hex_byte_reads_back(b: u8)
    ensures
        number_up_to(hex_byte(b), 16, 255) == Some(b as nat),
{
    let s = hex_byte(b);
    let hi = b as nat / 16;
    let lo = b as nat % 16;
    assert(digit_value(digit_char(hi), 16) == Some(hi));
    assert(digit_value(digit_char(lo), 16) == Some(lo));
    assert(s.drop_last() =~= seq![digit_char(hi)]);
    assert(s.drop_last().drop_last() =~= Seq::<char>::empty());
    reveal_with_fuel(digits_value, 3);
    assert(digit_char(hi) != '+');
}

// ---- laws ----

/// What a character is worth as a digit: `0` to `9`, then the letters in either case.
pub open spec fn worth(c: char) -> int {
    if '0' <= c <= '9' {
        c as int - 48
    } else if 'a' <= c <= 'z' {
        c as int - 87
    } else if 'A' <= c <= 'Z' {
        c as int - 55
    } else {
        99
    }
}

/// Numbers are read digit by digit: one more digit makes of a number that was read its product with
/// the radix plus the digit, unless that is too great, and of what is no number no number.
pub proof fn law_digits_are_read_in_turn(
    s: &Vec<char>,
    more: &Vec<char>,
    radix: u32,
    max: u32,
    r: Option<u32>,
    q: Option<u32>,
)
    requires
        2 <= radix <= 36,
        call_ensures(parse_number, (s, radix, max), r),
        call_ensures(parse_number, (more, radix, max), q),
        more@.len() > 0,
        s@ == more@.drop_last(),
    ensures
        ({
            let d = worth(more@.last());
            let first = s@.len() == 0 || s@ == seq!['+'];
            let x = if first {
                0
            } else {
                r->0 as int
            };
            if s@.len() == 0 && more@ == seq!['+'] {
                q is None
            } else if d >= radix || (!first && r is None) {
                q is None
            } else if x * radix + d <= max {
                q == Some((x * radix + d) as u32)
            } else {
                q is None
            }
        }),
        s@.len() == 0 ==> r is None,
        s@ == seq!['+'] ==> r is None,
{
    let n = radix as nat;
    let a = if s@.len() > 0 && s@[0] == '+' {
        s@.skip(1)
    } else {
        s@
    };
    let b = if more@.len() > 0 && more@[0] == '+' {
        more@.skip(1)
    } else {
        more@
    };
    reveal_with_fuel(digits_value, 2);
    if s@.len() > 0 {
        assert(s@[0] == more@[0]);
        assert(b.drop_last() =~= a);
        assert(b.last() == more@.last());
        if s@ != seq!['+'] {
            if a.len() == 0 {
                assert(s@ =~= seq!['+']);
            }
            if let Some(v) = digits_value(a, n) {
                if v > max {
                    assert(v * n >= v) by (nonlinear_arith)
                        requires
                            n >= 2,
                            v >= 0,
                    ;
                }
            }
        }
    } else {
        if more@[0] == '+' {
            assert(more@ =~= seq!['+']);
        } else {
            assert(b == more@);
            assert(b.drop_last() =~= Seq::<char>::empty());
        }
    }
}

/// The characters of a string, in order.
pub proof fn law_characters_are_kept(s: &str, v: Vec<char>)
    requires
        call_ensures(chars_of, (s,), v),
    ensures
        v@.len() == s@.len(),
        forall|i: int| 0 <= i < s@.len() ==> v@[i] == #[trigger] s@[i],
{
}

/// A number is written digit by digit: that of its tenth, and then its last digit.
pub proof fn law_digits_are_written_in_turn(
    s: &mut String,
    t: &mut String,
    n: u64,
)
    requires
        call_ensures(push_decimal, (s, n), ()),
        call_ensures(push_decimal, (t, (n / 10) as u64), ()),
        s@ == t@,
    ensures
        final(s)@ == (if n < 10 {
            old(s)@
        } else {
            final(t)@
        }).push((48 + n % 10) as char),
{
    assert(final(s)@ =~= (if n < 10 {
        old(s)@
    } else {
        final(t)@
    }).push((48 + n % 10) as char));
}

/// A negative number is a minus sign and the number without its sign.
pub proof fn law_sign_goes_first(s: &mut String, t: &mut String, n: i32, abs: u64)
    requires
        call_ensures(push_signed_decimal, (s, n), ()),
        call_ensures(push_decimal, (t, abs), ()),
        abs == if n < 0 {
            -n
        } else {
            n as int
        },
        t@ == if n < 0 {
            s@.push('-')
        } else {
            s@
        },
    ensures
        final(s)@ == final(t)@,
{
    assert(final(s)@ =~= final(t)@);
}

/// A byte is two digits, each worth what it stands for, in lower case.
pub proof fn law_byte_has_two_digits(s: &mut String, b: u8)
    requires
        call_ensures(push_hex_byte, (s, b), ()),
    ensures
        ({
            let n = old(s)@.len() as int;
            &&& final(s)@.len() == n + 2
            &&& final(s)@.take(n) == old(s)@
            &&& worth(final(s)@[n]) == b / 16
            &&& worth(final(s)@[n + 1]) == b % 16
            &&& !('A' <= final(s)@[n] <= 'Z')
            &&& !('A' <= final(s)@[n + 1] <= 'Z')
        }),
{
    assert(final(s)@.take(old(s)@.len() as int) =~= old(s)@);
}

} // verus!
