//! Ethernet addresses, and the numbers of Ethernet protocols, as text.

use crate::bytes;
use crate::text;
use vstd::prelude::*;

verus! {

/// The parts of `s` between the characters `sep`.
pub open spec fn split(s: Seq<char>, sep: char) -> Seq<Seq<char>>
    decreases s.len(),
{
    if s.len() == 0 {
        seq![seq![]]
    } else {
        let parts = split(s.drop_last(), sep);
        if s.last() == sep {
            parts.push(seq![])
        } else {
            parts.drop_last().push(parts.last().push(s.last()))
        }
    }
}

/// Whether `mac` is the address that the text `s` stands for: six hexadecimal numbers of at most
/// 255, with colons between them.
pub open spec fn stands_for(s: Seq<char>, mac: Seq<u8>) -> bool {
    let parts = split(s, ':');
    &&& parts.len() == 6
    &&& mac.len() == 6
    &&& forall|i: int|
        0 <= i < 6 ==> text::number_up_to(#[trigger] parts[i], 16, 255) == Some(mac[i] as nat)
}

/// The text of an address: two hexadecimal digits for each byte, with colons between them.
pub open spec fn mac_text(mac: Seq<u8>) -> Seq<char>
    decreases mac.len(),
{
    if mac.len() == 0 {
        seq![]
    } else if mac.len() == 1 {
        text::hex_byte(mac[0])
    } else {
        mac_text(mac.drop_last()).push(':') + text::hex_byte(mac.last())
    }
}

fn split_at_colons(s: &Vec<char>) -> (r: Vec<Vec<char>>)
    ensures
        r@.len() == split(s@, ':').len(),
        forall|i: int| 0 <= i < r@.len() ==> (#[trigger] r@[i])@ == split(s@, ':')[i],
{
    let n: usize = s.len();
    let mut parts: Vec<Vec<char>> = Vec::new();
    let mut part: Vec<char> = Vec::new();
    let mut i: usize = 0;
    while i < n
        invariant
            i <= n == s@.len(),
            split(s@.take(i as int), ':').len() == parts@.len() + 1,
            split(s@.take(i as int), ':').last() == part@,
            forall|j: int|
                0 <= j < parts@.len() ==> (#[trigger] parts@[j])@ == split(
                    s@.take(i as int),
                    ':',
                )[j],
        decreases n - i,
    {
        proof {
            assert(s@.take(i + 1).drop_last() =~= s@.take(i as int));
        }
        let c: char = s[i];
        if c == ':' {
            parts.push(part);
            part = Vec::new();
        } else {
            part.push(c);
        }
        i = i + 1;
    }
    assert(s@.take(n as int) =~= s@);
    parts.push(part);
    parts
}

/// Reads an Ethernet address.
pub fn parse_mac(s: &str) -> (r: Option<[u8; 6]>)
    ensures
        match r {
            Some(mac) => stands_for(s@, mac@),
            None => forall|mac: Seq<u8>| !stands_for(s@, mac),
        },
        r is None ==> split(s@, ':').len() != 6 || exists|i: int|
            #![trigger split(s@, ':')[i]]
            0 <= i < 6 && text::number_up_to(split(s@, ':')[i], 16, 255) is None,
{
    let chars = text::chars_of(s);
    let parts = split_at_colons(&chars);
    if parts.len() != 6 {
        return None;
    }
    let mut mac: [u8; 6] = [0; 6];
    let mut i: usize = 0;
    while i < 6
        invariant
            i <= 6,
            parts@.len() == 6 == split(s@, ':').len(),
            forall|j: int| 0 <= j < 6 ==> (#[trigger] parts@[j])@ == split(s@, ':')[j],
            forall|j: int|
                0 <= j < i ==> text::number_up_to(#[trigger] split(s@, ':')[j], 16, 255) == Some(
                    mac@[j] as nat,
                ),
        decreases 6 - i,
    {
        match text::parse_number(&parts[i], 16, 255) {
            None => {
                assert(text::number_up_to(split(s@, ':')[i as int], 16, 255) is None);
                return None;
            },
            Some(x) => {
                mac[i] = x as u8;
            },
        }
        i = i + 1;
    }
    Some(mac)
}

/// Writes an Ethernet address.
pub fn mac_to_string(mac: &[u8; 6]) -> (s: String)
    ensures
        s@ == mac_text(mac@),
{
    proof {
        reveal_strlit(":");
    }
    let mut s = String::new();
    let mut i: usize = 0;
    assert(mac@.take(0) =~= Seq::<u8>::empty());
    while i < 6
        invariant
            i <= 6,
            mac@.len() == 6,
            s@ == mac_text(mac@.take(i as int)),
            ":"@ == seq![':'],
        decreases 6 - i,
    {
        let ghost before = s@;
        if i > 0 {
            s.append(":");
        }
        text::push_hex_byte(&mut s, mac[i]);
        i = i + 1;
        proof {
            let now = mac@.take(i as int);
            assert(now.drop_last() =~= mac@.take(i - 1));
            assert(now.last() == mac@[i - 1]);
            assert(s@ =~= mac_text(now));
        }
    }
    assert(mac@.take(6) =~= mac@);
    s
}

/// A locally administered unicast address, made of a reading of the clock.
pub fn gen_local_mac(nanos: u64) -> (mac: [u8; 6])
    ensures
        mac@ == seq![0x02u8] + bytes::le_bytes(nanos as nat, 5),
{
    let mut mac: [u8; 6] = [0; 6];
    mac[0] = 0x02;
    mac[1] = (nanos % 256) as u8;
    mac[2] = (nanos / 256 % 256) as u8;
    mac[3] = (nanos / 65536 % 256) as u8;
    mac[4] = (nanos / 16777216 % 256) as u8;
    mac[5] = (nanos / 4294967296 % 256) as u8;
    proof {
        reveal_with_fuel(bytes::le_bytes, 6);
        assert(mac@ =~= seq![0x02u8] + bytes::le_bytes(nanos as nat, 5));
    }
    mac
}

/// The number that the text `s` gives to an Ethernet protocol: hexadecimal behind `0x` or `0X`,
/// otherwise decimal.
pub open spec fn ethertype_of(s: Seq<char>) -> Option<nat> {
    if s.len() >= 2 && s[0] == '0' && (s[1] == 'x' || s[1] == 'X') {
        text::number_up_to(s.skip(2), 16, 0xFFFF)
    } else {
        text::number_up_to(s, 10, 0xFFFF)
    }
}

/// Reads the number of an Ethernet protocol.
pub fn parse_ethertype(s: &str) -> (r: Option<u16>)
    ensures
        match r {
            Some(x) => ethertype_of(s@) == Some(x as nat),
            None => ethertype_of(s@) is None,
        },
{
    let chars = text::chars_of(s);
    let n: usize = chars.len();
    let parsed = if n >= 2 && chars[0] == '0' && (chars[1] == 'x' || chars[1] == 'X') {
        let mut digits: Vec<char> = Vec::new();
        let mut i: usize = 2;
        while i < n
            invariant
                2 <= i <= n == chars@.len(),
                digits@ == chars@.subrange(2, i as int),
            decreases n - i,
        {
            digits.push(chars[i]);
            i = i + 1;
            assert(digits@ =~= chars@.subrange(2, i as int));
        }
        assert(digits@ =~= s@.skip(2));
        text::parse_number(&digits, 16, 0xFFFF)
    } else {
        text::parse_number(&chars, 10, 0xFFFF)
    };
    match parsed {
        Some(x) => Some(x as u16),
        None => None,
    }
}

proof fn lemma_split_plain(s: Seq<char>, t: Seq<char>, sep: char)
    requires
        forall|i: int| 0 <= i < t.len() ==> t[i] != sep,
    ensures
        split(s, sep).len() > 0,
        split(s + t, sep) == split(s, sep).drop_last().push(split(s, sep).last() + t),
    decreases t.len(),
{
    lemma_split_nonempty(s, sep);
    if t.len() == 0 {
        assert(s + t =~= s);
        assert(split(s, sep).last() + t =~= split(s, sep).last());
        assert(split(s, sep) =~= split(s, sep).drop_last().push(split(s, sep).last()));
    } else {
        let less = t.drop_last();
        lemma_split_plain(s, less, sep);
        assert((s + t).drop_last() =~= s + less);
        assert((split(s, sep).last() + less).push(t.last()) =~= split(s, sep).last() + t);
        assert(split(s + t, sep) =~= split(s, sep).drop_last().push(split(s, sep).last() + t));
    }
}

proof fn lemma_split_nonempty(s: Seq<char>, sep: char)
    ensures
        split(s, sep).len() > 0,
    decreases s.len(),
{
    if s.len() > 0 {
        lemma_split_nonempty(s.drop_last(), sep);
    }
}

proof fn lemma_hex_byte_has_no_colon(b: u8)
    ensures
        text::hex_byte(b).len() == 2,
        forall|i: int| 0 <= i < 2 ==> text::hex_byte(b)[i] != ':',
{
}

proof fn lemma_split_mac_text(mac: Seq<u8>)
    requires
        mac.len() > 0,
    ensures
        split(mac_text(mac), ':').len() == mac.len(),
        forall|i: int|
            0 <= i < mac.len() ==> #[trigger] split(mac_text(mac), ':')[i] == text::hex_byte(mac[i]),
    decreases mac.len(),
{
    let b = mac.last();
    lemma_hex_byte_has_no_colon(b);
    if mac.len() == 1 {
        lemma_split_plain(seq![], text::hex_byte(b), ':');
        assert(Seq::<char>::empty() + text::hex_byte(b) =~= text::hex_byte(b));
        assert(split(seq![], ':').last() + text::hex_byte(b) =~= text::hex_byte(b));
    } else {
        let less = mac.drop_last();
        lemma_split_mac_text(less);
        let head = mac_text(less).push(':');
        assert(head.drop_last() =~= mac_text(less));
        assert(split(head, ':') == split(mac_text(less), ':').push(seq![]));
        lemma_split_plain(head, text::hex_byte(b), ':');
        assert(Seq::<char>::empty() + text::hex_byte(b) =~= text::hex_byte(b));
        assert(split(head, ':').drop_last() =~= split(mac_text(less), ':'));
    }
}

/// An address that was written can be read back.
pub proof fn law_mac_text_reads_back(mac: Seq<u8>)
    requires
        mac.len() == 6,
    ensures
        stands_for(mac_text(mac), mac),
{
    lemma_split_mac_text(mac);
    assert forall|i: int| 0 <= i < 6 implies text::number_up_to(
        #[trigger] split(mac_text(mac), ':')[i],
        16,
        255,
    ) == Some(mac[i] as nat) by {
        text::lemma_hex_byte_reads_back(mac[i]);
    }
}

/// A text stands for at most one address.
pub proof fn law_text_stands_for_one_mac(s: Seq<char>, mac: Seq<u8>, other: Seq<u8>)
    requires
        stands_for(s, mac),
        stands_for(s, other),
    ensures
        mac == other,
{
    assert forall|i: int| 0 <= i < 6 implies mac[i] == other[i] by {
        assert(text::number_up_to(split(s, ':')[i], 16, 255) == Some(mac[i] as nat));
    }
    assert(mac =~= other);
}

/// The text that `parts` make with colons between them.
pub open spec fn joined(parts: Seq<Seq<char>>) -> Seq<char>
    decreases parts.len(),
{
    if parts.len() <= 1 {
        parts[0]
    } else {
        joined(parts.drop_last()).push(':') + parts.last()
    }
}

/// Parts without colons are found again in the text that they make.
proof fn lemma_split_joined(parts: Seq<Seq<char>>)
    requires
        parts.len() > 0,
        forall|i: int, j: int|
            0 <= i < parts.len() && 0 <= j < parts[i].len() ==> #[trigger] parts[i][j] != ':',
    ensures
        split(joined(parts), ':') == parts,
    decreases parts.len(),
{
    let t = parts.last();
    if parts.len() == 1 {
        lemma_split_plain(seq![], t, ':');
        assert(Seq::<char>::empty() + t =~= t);
        assert(split(seq![], ':').last() + t =~= t);
        assert(split(joined(parts), ':') =~= parts);
    } else {
        let less = parts.drop_last();
        assert forall|i: int, j: int|
            0 <= i < less.len() && 0 <= j < less[i].len() implies #[trigger] less[i][j] != ':' by {
            assert(parts[i][j] != ':');
        }
        lemma_split_joined(less);
        let head = joined(less).push(':');
        assert(head.drop_last() =~= joined(less));
        assert(split(head, ':') == less.push(seq![]));
        lemma_split_plain(head, t, ':');
        assert(Seq::<char>::empty() + t =~= t);
        assert(split(joined(parts), ':') =~= parts);
    }
}

/// An address is read from six parts with colons between them, each a hexadecimal number of at most
/// 255, which is the byte at its place. Fewer or more parts, or a part that is no such number, make
/// no address.
pub proof fn law_address_is_read_part_by_part(
    s: &str,
    r: Option<[u8; 6]>,
    parts: Seq<Seq<char>>,
    i: int,
    part: &Vec<char>,
    x: Option<u32>,
)
    requires
        call_ensures(parse_mac, (s,), r),
        parts.len() > 0,
        forall|i: int, j: int|
            0 <= i < parts.len() && 0 <= j < parts[i].len() ==> #[trigger] parts[i][j] != ':',
        s@ == joined(parts),
        0 <= i < parts.len(),
        part@ == parts[i],
        call_ensures(text::parse_number, (part, 16u32, 255u32), x),
    ensures
        parts.len() != 6 ==> r is None,
        x is None ==> r is None,
        r is Some ==> x is Some && r->0@[i] == x->0,
{
    lemma_split_joined(parts);
    if r is Some {
        assert(text::number_up_to(split(s@, ':')[i], 16, 255) == Some(r->0@[i] as nat));
    }
}

/// Six parts that are numbers of at most 255 make an address.
pub proof fn law_six_numbers_make_an_address(
    s: &str,
    r: Option<[u8; 6]>,
    parts: Seq<&Vec<char>>,
    x: Seq<Option<u32>>,
)
    requires
        call_ensures(parse_mac, (s,), r),
        parts.len() == 6,
        x.len() == 6,
        forall|i: int, j: int|
            0 <= i < 6 && 0 <= j < parts[i]@.len() ==> #[trigger] parts[i]@[j] != ':',
        s@ == joined(parts.map_values(|p: &Vec<char>| p@)),
        forall|i: int|
            0 <= i < 6 ==> call_ensures(
                text::parse_number,
                (#[trigger] parts[i], 16u32, 255u32),
                x[i],
            ) && x[i] is Some,
    ensures
        r is Some,
        forall|i: int| 0 <= i < 6 ==> r->0@[i] == (#[trigger] x[i])->0,
{
    let texts = parts.map_values(|p: &Vec<char>| p@);
    assert forall|i: int, j: int|
        0 <= i < texts.len() && 0 <= j < texts[i].len() implies #[trigger] texts[i][j] != ':' by {
        assert(parts[i]@[j] != ':');
    }
    lemma_split_joined(texts);
    let mac = Seq::new(6, |i: int| x[i]->0 as u8);
    assert forall|i: int| 0 <= i < 6 implies text::number_up_to(
        #[trigger] split(s@, ':')[i],
        16,
        255,
    ) == Some(mac[i] as nat) by {
        assert(call_ensures(text::parse_number, (parts[i], 16u32, 255u32), x[i]));
    }
    assert(stands_for(s@, mac));
    if r is Some {
        law_text_stands_for_one_mac(s@, mac, r->0@);
        assert forall|i: int| 0 <= i < 6 implies r->0@[i] == (#[trigger] x[i])->0 by {
            assert(call_ensures(text::parse_number, (parts[i], 16u32, 255u32), x[i]));
            assert(r->0@[i] == mac[i]);
        }
    }
}

/// An address is written as 17 characters: two lower-case hexadecimal digits for each byte, and a
/// colon between two bytes.
pub proof fn law_address_text(mac: &[u8; 6], s: String, i: int)
    requires
        call_ensures(mac_to_string, (mac,), s),
        0 <= i < 6,
    ensures
        s@.len() == 17,
        text::worth(s@[3 * i]) == mac@[i] / 16,
        text::worth(s@[3 * i + 1]) == mac@[i] % 16,
        !('A' <= s@[3 * i] <= 'Z'),
        !('A' <= s@[3 * i + 1] <= 'Z'),
        i < 5 ==> s@[3 * i + 2] == ':',
{
    lemma_mac_text(mac@, i);
}

proof fn lemma_mac_text(mac: Seq<u8>, i: int)
    requires
        0 <= i < mac.len(),
    ensures
        ({
            let s = mac_text(mac);
            &&& s.len() == 3 * mac.len() - 1
            &&& s[3 * i] == text::hex_byte(mac[i])[0]
            &&& s[3 * i + 1] == text::hex_byte(mac[i])[1]
            &&& i < mac.len() - 1 ==> s[3 * i + 2] == ':'
        }),
    decreases mac.len(),
{
    if mac.len() > 1 {
        let less = mac.drop_last();
        if i < less.len() {
            lemma_mac_text(less, i);
        } else {
            lemma_mac_text(less, 0);
        }
    }
}

proof fn lemma_found(t: &str, mac: Seq<u8>, r: Option<[u8; 6]>)
    requires
        stands_for(t@, mac),
        call_ensures(parse_mac, (t,), r),
    ensures
        r is Some,
        r->0@ == mac,
{
    if r is Some {
        law_text_stands_for_one_mac(t@, mac, r->0@);
    }
}

/// An address that is written is read as the same address.
pub proof fn law_written_address_is_read(mac: &[u8; 6], s: String, t: &str, r: Option<[u8; 6]>)
    requires
        call_ensures(mac_to_string, (mac,), s),
        t@ == s@,
        call_ensures(parse_mac, (t,), r),
    ensures
        r is Some,
        r->0@ == mac@,
{
    law_mac_text_reads_back(mac@);
    lemma_found(t, mac@, r);
}

/// A made address begins with 2, which marks it as local; the five bytes after that are the low
/// bytes of the clock reading, the lowest first.
pub proof fn law_made_address(nanos: u64, mac: [u8; 6])
    requires
        call_ensures(gen_local_mac, (nanos,), mac),
    ensures
        mac@[0] == 2,
        mac@[1] == nanos % 0x100,
        mac@[2] == nanos / 0x100 % 0x100,
        mac@[3] == nanos / 0x1_0000 % 0x100,
        mac@[4] == nanos / 0x100_0000 % 0x100,
        mac@[5] == nanos / 0x1_0000_0000 % 0x100,
{
    reveal_with_fuel(bytes::le_bytes, 6);
}

/// The number of a protocol is what stands behind `0x` or `0X` as a hexadecimal number, or the
/// whole as a decimal one; it is at most 65535.
pub proof fn law_protocol_number_is_read(
    s: &str,
    r: Option<u16>,
    digits: &Vec<char>,
    radix: u32,
    x: Option<u32>,
)
    requires
        call_ensures(parse_ethertype, (s,), r),
        if s@.len() >= 2 && s@[0] == '0' && (s@[1] == 'x' || s@[1] == 'X') {
            radix == 16 && digits@ == s@.subrange(2, s@.len() as int)
        } else {
            radix == 10 && digits@ == s@
        },
        call_ensures(text::parse_number, (digits, radix, 65535u32), x),
    ensures
        r is Some <==> x is Some,
        r is Some ==> r->0 == x->0,
{
    if s@.len() >= 2 {
        assert(s@.skip(2) =~= s@.subrange(2, s@.len() as int));
    }
}

} // verus!
