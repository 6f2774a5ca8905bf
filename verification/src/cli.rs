//! What the command-line tool reports and counts.

use crate::error::BusError;
use crate::text;
use vstd::prelude::*;

verus! {

/// What a bus is to the command that opens it.
#[derive(Clone, Copy, Debug, PartialEq, Eq)]
pub enum Role {
    /// The only bus.
    Single,
    /// The bus that messages are relayed from.
    Source,
    /// The bus that messages are relayed to.
    Destination,
}

impl Role {
    pub open spec fn text(self) -> Seq<char> {
        match self {
            Role::Single => "bus '"@,
            Role::Source => "source bus '"@,
            Role::Destination => "destination bus '"@,
        }
    }
}

/// What is reported when a bus could not be opened: how to make one that is missing, that the
/// numbers are not those it was made with, or what else is wrong.
pub open spec fn open_failure_text(
    role: Role,
    name: Seq<char>,
    desc_capacity: nat,
    slab_bytes: nat,
    e: BusError,
) -> Seq<char> {
    let desc = text::decimal(desc_capacity);
    let slab = text::decimal(slab_bytes);
    match e {
        BusError::Platform(code) => if code == 2 {
            "error: "@ + role.text() + name
                + "' not found (ENOENT). Create it first: aarnn-nsys create "@ + name + " "@ + desc
                + " "@ + slab
        } else {
            "error: failed to open "@ + role.text() + name + "' (desc_cap="@ + desc + ", slab="@
                + slab + "): platform errno="@ + text::signed_decimal(code as int)
        },
        BusError::InvalidArg => "error: size mismatch opening "@ + role.text() + name
            + "'. Ensure desc_capacity_pow2 and slab_bytes match the values used at creation."@,
        _ => "error: failed to open "@ + role.text() + name + "': "@ + e.text(),
    }
}

fn push_named(s: &mut String, role: Role, name: &str)
    ensures
        final(s)@ == old(s)@ + role.text() + name@,
{
    match role {
        Role::Single => s.append("bus '"),
        Role::Source => s.append("source bus '"),
        Role::Destination => s.append("destination bus '"),
    }
    s.append(name);
}

/// The report that a bus could not be opened.
pub fn open_failure(
    role: Role,
    name: &str,
    desc_capacity: usize,
    slab_bytes: usize,
    e: BusError,
) -> (s: String)
    ensures
        s@ == open_failure_text(role, name@, desc_capacity as nat, slab_bytes as nat, e),
{
    match e {
        BusError::Platform(code) => if code == 2 {
            let mut s = String::from_str("error: ");
            push_named(&mut s, role, name);
            s.append("' not found (ENOENT). Create it first: aarnn-nsys create ");
            s.append(name);
            s.append(" ");
            text::push_decimal(&mut s, desc_capacity as u64);
            s.append(" ");
            text::push_decimal(&mut s, slab_bytes as u64);
            s
        } else {
            let mut s = String::from_str("error: failed to open ");
            push_named(&mut s, role, name);
            s.append("' (desc_cap=");
            text::push_decimal(&mut s, desc_capacity as u64);
            s.append(", slab=");
            text::push_decimal(&mut s, slab_bytes as u64);
            s.append("): platform errno=");
            text::push_signed_decimal(&mut s, code);
            s
        },
        BusError::InvalidArg => {
            let mut s = String::from_str("error: size mismatch opening ");
            push_named(&mut s, role, name);
            s.append(
                "'. Ensure desc_capacity_pow2 and slab_bytes match the values used at creation.",
            );
            s
        },
        _ => {
            let mut s = String::from_str("error: failed to open ");
            push_named(&mut s, role, name);
            s.append("': ");
            s.append(e.message().as_str());
            s
        },
    }
}

/// What a relay does next.
#[derive(Clone, Copy, Debug, PartialEq, Eq)]
pub enum Turn {
    /// Look for another message at once.
    Next,
    /// Let others run first: there was no message.
    Wait,
    /// Give up.
    Stop(BusError),
}

/// What a relay has counted.
#[derive(Clone, Copy, Debug, PartialEq, Eq)]
pub struct Tally {
    /// Messages passed on.
    pub forwarded: u64,
    /// Messages dropped for being too large.
    pub dropped: u64,
}

impl Tally {
    pub fn new() -> (t: Tally)
        ensures
            t.forwarded == 0,
            t.dropped == 0,
    {
        Tally { forwarded: 0, dropped: 0 }
    }

    /// Counts what came of an attempt to relay a message. One that was too large is dropped, and
    /// the relay goes on.
    pub fn count(&mut self, r: Result<Option<usize>, BusError>) -> (turn: Turn)
        requires
            old(self).forwarded < u64::MAX,
            old(self).dropped < u64::MAX,
        ensures
            turn == match r {
                Ok(Some(_)) => Turn::Next,
                Ok(None) => Turn::Wait,
                Err(BusError::MsgTooLarge) => Turn::Next,
                Err(e) => Turn::Stop(e),
            },
            final(self).forwarded == old(self).forwarded + if r matches Ok(Some(_)) {
                1int
            } else {
                0
            },
            final(self).dropped == old(self).dropped + if r matches Err(BusError::MsgTooLarge) {
                1int
            } else {
                0
            },
    {
        match r {
            Ok(Some(_)) => {
                self.forwarded = self.forwarded + 1;
                Turn::Next
            },
            Ok(None) => Turn::Wait,
            Err(BusError::MsgTooLarge) => {
                self.dropped = self.dropped + 1;
                Turn::Next
            },
            Err(e) => Turn::Stop(e),
        }
    }
}

// ---- laws ----

/// What is reported of a bus that cannot be opened: that it is missing, and how to make it; the
/// number of another error of the operating system; that the numbers do not fit; or the error
/// itself. The bus is named, and as source or destination where it is one.
pub proof fn law_failure_report(
    role: Role,
    name: &str,
    desc_capacity: usize,
    slab_bytes: usize,
    e: BusError,
    s: String,
    desc: &mut String,
    slab: &mut String,
    number: &mut String,
    code: i32,
    sentence: String,
)
    requires
        call_ensures(open_failure, (role, name, desc_capacity, slab_bytes, e), s),
        desc@.len() == 0,
        slab@.len() == 0,
        number@.len() == 0,
        call_ensures(text::push_decimal, (desc, desc_capacity as u64), ()),
        call_ensures(text::push_decimal, (slab, slab_bytes as u64), ()),
        call_ensures(text::push_signed_decimal, (number, code), ()),
        e is Platform ==> e->Platform_0 == code,
        call_ensures(BusError::message, (&e,), sentence),
    ensures
        ({
            let bus = match role {
                Role::Single => "bus '"@,
                Role::Source => "source bus '"@,
                Role::Destination => "destination bus '"@,
            };
            &&& e is Platform && code == 2 ==> s@ == "error: "@ + bus + name@
                + "' not found (ENOENT). Create it first: aarnn-nsys create "@ + name@ + " "@
                + final(desc)@ + " "@ + final(slab)@
            &&& e is Platform && code != 2 ==> s@ == "error: failed to open "@ + bus + name@
                + "' (desc_cap="@ + final(desc)@ + ", slab="@ + final(slab)@
                + "): platform errno="@ + final(number)@
            &&& e is InvalidArg ==> s@ == "error: size mismatch opening "@ + bus + name@
                + "'. Ensure desc_capacity_pow2 and slab_bytes match the values used at creation."@
            &&& e is NoSubscriberSlots || e is MsgTooLarge || e is NotReady ==> s@
                == "error: failed to open "@ + bus + name@ + "': "@ + sentence@
        }),
{
    assert(final(desc)@ =~= text::decimal(desc_capacity as nat));
    assert(final(slab)@ =~= text::decimal(slab_bytes as nat));
    assert(final(number)@ =~= text::signed_decimal(code as int));
}

/// A relay counts what it passes on and what it drops, from nothing on. It goes on after either,
/// waits after nothing, and stops at any other error.
pub proof fn law_relay_is_counted(
    t: &mut Tally,
    r: Result<Option<usize>, BusError>,
    turn: Turn,
    first: Tally,
)
    requires
        call_ensures(Tally::count, (t, r), turn),
        call_ensures(Tally::new, (), first),
    ensures
        first.forwarded == 0,
        first.dropped == 0,
        r is Ok && r->Ok_0 is Some ==> turn is Next && final(t).forwarded == old(t).forwarded + 1
            && final(t).dropped == old(t).dropped,
        r is Ok && r->Ok_0 is None ==> turn is Wait && *final(t) == *old(t),
        r is Err && r->Err_0 is MsgTooLarge ==> turn is Next && final(t).dropped == old(t).dropped
            + 1 && final(t).forwarded == old(t).forwarded,
        r is Err && !(r->Err_0 is MsgTooLarge) ==> turn == Turn::Stop(r->Err_0) && *final(t)
            == *old(t),
{
}

} // verus!
