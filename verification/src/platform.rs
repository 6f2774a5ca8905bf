//! What the programs around the bus hand to the operating system, and what they read from its
//! answers.

use vstd::prelude::*;

verus! {

// ---- endpoints of a usb-sim link ----

/// Where a usb-sim link is to be found.
pub enum EndpointSpec {
    /// A terminal, which is read and written under one path.
    Pty { path: String },
    /// A pair of named pipes.
    Pipe { read: String, write: String },
}

pub open spec fn has_prefix(s: Seq<char>, prefix: Seq<char>) -> bool {
    s.len() >= prefix.len() && s.take(prefix.len() as int) == prefix
}

/// The text behind `prefix`, if `s` begins with it.
fn strip_prefix<'a>(s: &'a str, prefix: &str) -> (r: Option<&'a str>)
    ensures
        match r {
            Some(rest) => has_prefix(s@, prefix@) && rest@ == s@.skip(prefix@.len() as int),
            None => !has_prefix(s@, prefix@),
        },
{
    let n: usize = s.unicode_len();
    let k: usize = prefix.unicode_len();
    if n < k {
        return None;
    }
    let mut i: usize = 0;
    while i < k
        invariant
            i <= k == prefix@.len() <= n == s@.len(),
            forall|j: int| 0 <= j < i ==> s@[j] == prefix@[j],
        decreases k - i,
    {
        if s.get_char(i) != prefix.get_char(i) {
            assert(s@.take(k as int)[i as int] == s@[i as int]);
            return None;
        }
        i = i + 1;
    }
    assert(s@.take(k as int) =~= prefix@);
    let rest = s.substring_char(k, n);
    assert(rest@ =~= s@.skip(k as int));
    Some(rest)
}

/// Reads the description of an endpoint: `pty:` and a path, or `pipe:` and the path that the
/// names of the two pipes, ending in `.out` and `.in`, have in common.
pub fn parse_endpoint(spec: &str) -> (r: Option<EndpointSpec>)
    ensures
        match r {
            Some(EndpointSpec::Pty { path }) => has_prefix(spec@, "pty:"@) && path@ == spec@.skip(
                "pty:"@.len() as int,
            ),
            Some(EndpointSpec::Pipe { read, write }) => {
                let base = spec@.skip("pipe:"@.len() as int);
                &&& !has_prefix(spec@, "pty:"@)
                &&& has_prefix(spec@, "pipe:"@)
                &&& read@ == base + ".out"@
                &&& write@ == base + ".in"@
            },
            None => !has_prefix(spec@, "pty:"@) && !has_prefix(spec@, "pipe:"@),
        },
{
    if let Some(path) = strip_prefix(spec, "pty:") {
        return Some(EndpointSpec::Pty { path: String::from_str(path) });
    }
    if let Some(base) = strip_prefix(spec, "pipe:") {
        let mut read = String::from_str(base);
        read.append(".out");
        let mut write = String::from_str(base);
        write.append(".in");
        return Some(EndpointSpec::Pipe { read, write });
    }
    None
}

// ---- terminals ----

/// The modes of a terminal.
#[derive(Clone, Copy, Debug, PartialEq, Eq)]
pub struct TermModes {
    pub input: u32,
    pub output: u32,
    pub control: u32,
    pub local: u32,
    /// How many bytes a read waits for.
    pub min: u8,
    /// How long it waits for them.
    pub time: u8,
}

/// The bits of the terminal modes that raw mode is about, as the platform numbers them.
#[derive(Clone, Copy, Debug, PartialEq, Eq)]
pub struct TermBits {
    pub icrnl: u32,
    pub ixon: u32,
    pub brkint: u32,
    pub inpck: u32,
    pub istrip: u32,
    pub opost: u32,
    pub cs8: u32,
    pub echo: u32,
    pub icanon: u32,
    pub iexten: u32,
    pub isig: u32,
}

/// The modes in which a terminal passes bytes on as they are, one at a time.
pub fn raw_mode(m: TermModes, b: TermBits) -> (r: TermModes)
    ensures
        r.input == m.input & !(b.icrnl | b.ixon | b.brkint | b.inpck | b.istrip),
        r.output == m.output & !b.opost,
        r.control == m.control | b.cs8,
        r.local == m.local & !(b.echo | b.icanon | b.iexten | b.isig),
        r.min == 1,
        r.time == 0,
{
    TermModes {
        input: m.input & !(b.icrnl | b.ixon | b.brkint | b.inpck | b.istrip),
        output: m.output & !b.opost,
        control: m.control | b.cs8,
        local: m.local & !(b.echo | b.icanon | b.iexten | b.isig),
        min: 1,
        time: 0,
    }
}

/// The flags with which a file becomes non-blocking, if its flags could be read.
pub fn nonblocking_flags(flags: i32, nonblock: i32) -> (r: Option<i32>)
    ensures
        r == if flags >= 0 {
            Some(flags | nonblock)
        } else {
            None
        },
{
    if flags >= 0 {
        Some(flags | nonblock)
    } else {
        None
    }
}

// ---- polling ----

pub const POLLIN: i16 = 0x0001;

pub const POLLOUT: i16 = 0x0004;

/// The events to poll for.
pub fn poll_events(want_read: bool, want_write: bool) -> (events: i16)
    ensures
        events == (if want_read {
            POLLIN as int
        } else {
            0
        }) + (if want_write {
            POLLOUT as int
        } else {
            0
        }),
{
    match (want_read, want_write) {
        (false, false) => 0,
        (true, false) => POLLIN,
        (false, true) => POLLOUT,
        (true, true) => POLLIN + POLLOUT,
    }
}

/// Whether the events that came up allow to read and to write.
pub fn poll_ready(revents: i16) -> (r: (bool, bool))
    ensures
        r.0 <==> revents & POLLIN != 0,
        r.1 <==> revents & POLLOUT != 0,
{
    ((revents & POLLIN) != 0, (revents & POLLOUT) != 0)
}

// ---- packet sockets ----

pub const AF_PACKET: u16 = 17;

/// The address that a packet socket is bound to.
#[allow(non_camel_case_types)]
#[derive(Clone, Copy, Debug, PartialEq, Eq)]
pub struct sockaddr_ll {
    pub sll_family: u16,
    pub sll_protocol: u16,
    pub sll_ifindex: i32,
    pub sll_hatype: u16,
    pub sll_pkttype: u8,
    pub sll_halen: u8,
    pub sll_addr: [u8; 8],
}

/// A request about a network interface.
#[allow(non_camel_case_types)]
#[derive(Clone, Copy, Debug, PartialEq, Eq)]
pub struct ifreq {
    pub ifr_name: [u8; 16],
    pub ifr_ifindex: i32,
}

/// `x` with its two bytes exchanged.
pub open spec fn swapped(x: u16) -> u16 {
    (x % 256 * 256 + x / 256) as u16
}

/// `u16::to_be`: gives the number back on a big-endian machine, and with its bytes exchanged on a
/// little-endian one.
#[verifier::external_body]
fn to_be(x: u16) -> (r: u16)
    ensures
        r == network_order(x),
{
    x.to_be()
}

/// `x` as a packet socket takes it, in network byte order.
pub fn htons(x: u16) -> (r: u16)
    ensures
        r == network_order(x),
{
    to_be(x)
}

/// `x` as a number whose bytes in the memory of this machine are those of `x` in network byte
/// order, the high byte first.
pub open spec fn network_order(x: u16) -> u16 {
    match vstd::endian::endianness() {
        vstd::endian::Endian::Little => swapped(x),
        vstd::endian::Endian::Big => x,
    }
}

/// The address for all frames of one protocol, which is given in network byte order, on one
/// interface.
pub fn bind_address(protocol: u16, ifindex: i32) -> (a: sockaddr_ll)
    ensures
        a.sll_family == AF_PACKET,
        a.sll_protocol == protocol,
        a.sll_ifindex == ifindex,
        a.sll_hatype == 1,
        a.sll_pkttype == 0,
        a.sll_halen == 6,
        forall|i: int| 0 <= i < 8 ==> a.sll_addr[i] == 0,
{
    sockaddr_ll {
        sll_family: AF_PACKET,
        sll_protocol: protocol,
        sll_ifindex: ifindex,
        sll_hatype: 1,
        sll_pkttype: 0,
        sll_halen: 6,
        sll_addr: [0; 8],
    }
}

/// The request for the index of the interface `name`, whose name, with a zero byte at its end,
/// must fit into it.
pub fn index_request(name: &[u8]) -> (r: Option<ifreq>)
    requires
        forall|i: int| 0 <= i < name@.len() ==> name@[i] != 0,
    ensures
        r is Some <==> name@.len() < 16,
        r matches Some(q) ==> {
            &&& q.ifr_ifindex == 0
            &&& forall|i: int| 0 <= i < name@.len() ==> q.ifr_name[i] == name@[i]
            &&& forall|i: int| name@.len() <= i < 16 ==> q.ifr_name[i] == 0
        },
{
    let n: usize = name.len();
    if n >= 16 {
        return None;
    }
    let mut ifr_name: [u8; 16] = [0; 16];
    let mut i: usize = 0;
    while i < n
        invariant
            i <= n == name@.len() < 16,
            forall|j: int| 0 <= j < i ==> ifr_name[j] == name@[j],
            forall|j: int| i <= j < 16 ==> ifr_name[j] == 0,
        decreases n - i,
    {
        ifr_name[i] = name[i];
        i = i + 1;
    }
    Some(ifreq { ifr_name, ifr_ifindex: 0 })
}

// ---- laws ----

/// `pty:` and a path describe a terminal under that path.
pub proof fn law_terminal_is_described(spec: &str, path: Seq<char>, r: Option<EndpointSpec>)
    requires
        call_ensures(parse_endpoint, (spec,), r),
        spec@ == seq!['p', 't', 'y', ':'] + path,
    ensures
        r is Some,
        r->0 is Pty,
        r->0->path@ == path,
{
    reveal_strlit("pty:");
    reveal_strlit("pipe:");
    assert("pty:"@ =~= seq!['p', 't', 'y', ':']);
    assert(spec@.take(4) =~= seq!['p', 't', 'y', ':']);
    assert(spec@.skip(4) =~= path);
}

/// `pipe:` and a path describe the two pipes under that path, with `.out` to be read and `.in` to be
/// written.
pub proof fn law_pipes_are_described(spec: &str, path: Seq<char>, r: Option<EndpointSpec>)
    requires
        call_ensures(parse_endpoint, (spec,), r),
        spec@ == seq!['p', 'i', 'p', 'e', ':'] + path,
    ensures
        r is Some,
        r->0 is Pipe,
        r->0->read@ == path + seq!['.', 'o', 'u', 't'],
        r->0->write@ == path + seq!['.', 'i', 'n'],
{
    reveal_strlit("pty:");
    reveal_strlit("pipe:");
    reveal_strlit(".out");
    reveal_strlit(".in");
    assert("pipe:"@ =~= seq!['p', 'i', 'p', 'e', ':']);
    assert(".out"@ =~= seq!['.', 'o', 'u', 't']);
    assert(".in"@ =~= seq!['.', 'i', 'n']);
    assert(spec@.take(5) =~= seq!['p', 'i', 'p', 'e', ':']);
    assert(spec@.take(4)[1] == 'i');
    assert("pty:"@[1] == 't');
    assert(spec@.skip(5) =~= path);
}

/// Nothing else describes an endpoint.
pub proof fn law_nothing_else_is_described(spec: &str, r: Option<EndpointSpec>)
    requires
        call_ensures(parse_endpoint, (spec,), r),
        r is Some,
    ensures
        ({
            ||| spec@.len() >= 4 && spec@.take(4) == seq!['p', 't', 'y', ':']
            ||| spec@.len() >= 5 && spec@.take(5) == seq!['p', 'i', 'p', 'e', ':']
        }),
{
    reveal_strlit("pty:");
    reveal_strlit("pipe:");
    assert("pty:"@ =~= seq!['p', 't', 'y', ':']);
    assert("pipe:"@ =~= seq!['p', 'i', 'p', 'e', ':']);
}

/// Raw mode clears the bits that change or interpret what is passed on, sets those of eight-bit
/// characters, and leaves all others as they are. A read waits for one byte, without a limit.
pub proof fn law_raw_mode_bits(m: TermModes, b: TermBits, r: TermModes, other: u32)
    requires
        call_ensures(raw_mode, (m, b), r),
    ensures
        r.input & b.icrnl == 0,
        r.input & b.ixon == 0,
        r.input & b.brkint == 0,
        r.input & b.inpck == 0,
        r.input & b.istrip == 0,
        r.output & b.opost == 0,
        r.control & b.cs8 == b.cs8,
        r.local & b.echo == 0,
        r.local & b.icanon == 0,
        r.local & b.iexten == 0,
        r.local & b.isig == 0,
        other & b.icrnl == 0 && other & b.ixon == 0 && other & b.brkint == 0 && other & b.inpck == 0
            && other & b.istrip == 0 ==> r.input & other == m.input & other,
        other & b.opost == 0 ==> r.output & other == m.output & other,
        other & b.cs8 == 0 ==> r.control & other == m.control & other,
        other & b.echo == 0 && other & b.icanon == 0 && other & b.iexten == 0 && other & b.isig == 0
            ==> r.local & other == m.local & other,
        r.min == 1,
        r.time == 0,
{
    let (x, a, c, d, e, f) = (m.input, b.icrnl, b.ixon, b.brkint, b.inpck, b.istrip);
    let y = r.input;
    assert(y & a == 0 && y & c == 0 && y & d == 0 && y & e == 0 && y & f == 0 && (other & a == 0
        && other & c == 0 && other & d == 0 && other & e == 0 && other & f == 0 ==> y & other == x
        & other)) by (bit_vector)
        requires
            y == x & !(a | c | d | e | f),
    ;
    let (x, a) = (m.output, b.opost);
    let y = r.output;
    assert(y & a == 0 && (other & a == 0 ==> y & other == x & other)) by (bit_vector)
        requires
            y == x & !a,
    ;
    let (x, a) = (m.control, b.cs8);
    let y = r.control;
    assert(y & a == a && (other & a == 0 ==> y & other == x & other)) by (bit_vector)
        requires
            y == x | a,
    ;
    let (x, a, c, d, e) = (m.local, b.echo, b.icanon, b.iexten, b.isig);
    let y = r.local;
    assert(y & a == 0 && y & c == 0 && y & d == 0 && y & e == 0 && (other & a == 0 && other & c == 0
        && other & d == 0 && other & e == 0 ==> y & other == x & other)) by (bit_vector)
        requires
            y == x & !(a | c | d | e),
    ;
}

/// The flags of a non-blocking file are those it had, and the one for that. If they could not be
/// read, there are none.
pub proof fn law_nonblocking_adds_a_flag(flags: i32, nonblock: i32, r: Option<i32>, other: i32)
    requires
        call_ensures(nonblocking_flags, (flags, nonblock), r),
    ensures
        r is Some <==> flags >= 0,
        r is Some ==> {
            &&& r->0 & flags == flags
            &&& r->0 & nonblock == nonblock
            &&& other & nonblock == 0 ==> r->0 & other == flags & other
        },
{
    if r is Some {
        let x = r->0;
        assert(x & flags == flags && x & nonblock == nonblock && (other & nonblock == 0 ==> x
            & other == flags & other)) by (bit_vector)
            requires
                x == flags | nonblock,
        ;
    }
}

/// Polling asks for bit 0 to read and for bit 2 to write, and finds the same bits in the answer.
pub proof fn law_polling(read: bool, write: bool, events: i16, revents: i16, r: (bool, bool))
    requires
        call_ensures(poll_events, (read, write), events),
        call_ensures(poll_ready, (revents,), r),
    ensures
        events == 0 <==> !read && !write,
        events == 1 <==> read && !write,
        events == 4 <==> !read && write,
        events == 5 <==> read && write,
        r.0 <==> revents & 1 == 1,
        r.1 <==> revents & 4 == 4,
        revents == events ==> r.0 == read && r.1 == write,
{
    assert((revents & 1 != 0 <==> revents & 1 == 1) && (revents & 4 != 0 <==> revents & 4 == 4))
        by (bit_vector);
    assert(0i16 & 1 == 0 && 0i16 & 4 == 0 && 1i16 & 1 == 1 && 1i16 & 4 == 0 && 4i16 & 1 == 0 && 4i16
        & 4 == 4 && 5i16 & 1 == 1 && 5i16 & 4 == 4) by (bit_vector);
}

/// On a little-endian machine the two bytes of a number change places, on a big-endian one they do
/// not. To do it twice gives the number back.
pub proof fn law_network_order(x: u16, r: u16, again: u16)
    requires
        call_ensures(htons, (x,), r),
        call_ensures(htons, (r,), again),
    ensures
        vstd::endian::endianness() is Little ==> r == 0x100 * (x % 0x100) + x / 0x100,
        vstd::endian::endianness() is Big ==> r == x,
        again == x,
{
}

/// The address for frames of a protocol on an interface: of packet family, Ethernet, six bytes long
/// and otherwise empty.
pub proof fn law_bound_address(protocol: u16, ifindex: i32, a: sockaddr_ll)
    requires
        call_ensures(bind_address, (protocol, ifindex), a),
    ensures
        a.sll_family == 17,
        a.sll_protocol == protocol,
        a.sll_ifindex == ifindex,
        a.sll_hatype == 1,
        a.sll_pkttype == 0,
        a.sll_halen == 6,
        a.sll_addr@ == seq![0u8, 0, 0, 0, 0, 0, 0, 0],
{
    assert forall|i: int| 0 <= i < 8 implies a.sll_addr@[i] == 0 by {
        assert(a.sll_addr[i] == 0);
    }
    assert(a.sll_addr@ =~= seq![0u8, 0, 0, 0, 0, 0, 0, 0]);
}

/// A request begins with the name of the interface, and is zero behind it. Names of sixteen bytes
/// and more have none.
pub proof fn law_request_names_the_interface(name: &[u8], r: Option<ifreq>)
    requires
        call_ensures(index_request, (name,), r),
    ensures
        name@.len() >= 16 ==> r is None,
        name@.len() < 16 ==> {
            &&& r is Some
            &&& r->0.ifr_ifindex == 0
            &&& r->0.ifr_name@.take(name@.len() as int) == name@
            &&& forall|i: int| name@.len() <= i < 16 ==> #[trigger] r->0.ifr_name@[i] == 0
        },
{
    if r is Some {
        let q = r->0;
        assert forall|i: int| 0 <= i < name@.len() implies q.ifr_name@[i] == name@[i] by {
            assert(q.ifr_name[i] == name@[i]);
        }
        assert forall|i: int| name@.len() <= i < 16 implies #[trigger] q.ifr_name@[i] == 0 by {
            assert(q.ifr_name[i] == 0);
        }
        assert(q.ifr_name@.take(name@.len() as int) =~= name@);
    }
}

} // verus!
