//! What can go wrong on a bus.

use crate::text;
use vstd::prelude::*;

verus! {

/// The ways in which an operation on a bus can fail.
#[derive(Clone, Copy, Debug, PartialEq, Eq)]
pub enum BusError {
    InvalidArg,
    NoSubscriberSlots,
    MsgTooLarge,
    NotReady,
    /// The operating system refused, with this error number.
    Platform(i32),
}

/// `libc::ENOENT`, the error number of Linux for a missing object.
#[verifier::external_body]
fn enoent() -> (code: i32)
    ensures
        code == 2,
{
    libc::ENOENT
}

/// `libc::EEXIST`, the error number of Linux for an object that already exists.
#[verifier::external_body]
fn eexist() -> (code: i32)
    ensures
        code == 17,
{
    libc::EEXIST
}

/// `libc::EACCES`, the error number of Linux for a lack of permission.
#[verifier::external_body]
fn eacces() -> (code: i32)
    ensures
        code == 13,
{
    libc::EACCES
}

/// `libc::EINVAL`, the error number of Linux for an invalid argument.
#[verifier::external_body]
fn einval() -> (code: i32)
    ensures
        code == 22,
{
    libc::EINVAL
}

/// `libc::ENOMEM`, the error number of Linux for a lack of memory.
#[verifier::external_body]
fn enomem() -> (code: i32)
    ensures
        code == 12,
{
    libc::ENOMEM
}

/// What an error number means, for those that a shared-memory object commonly gives.
pub open spec fn errno_text(code: i32) -> Seq<char> {
    if code == 2 {
        "(ENOENT) shared memory object not found"@
    } else if code == 17 {
        "(EEXIST) object already exists"@
    } else if code == 13 {
        "(EACCES) permission denied"@
    } else if code == 22 {
        "(EINVAL) invalid size or flags"@
    } else if code == 12 {
        "(ENOMEM) not enough memory for mapping"@
    } else {
        "platform error"@
    }
}

fn errno_str(code: i32) -> (s: &'static str)
    ensures
        s@ == errno_text(code),
{
    if code == enoent() {
        "(ENOENT) shared memory object not found"
    } else if code == eexist() {
        "(EEXIST) object already exists"
    } else if code == eacces() {
        "(EACCES) permission denied"
    } else if code == einval() {
        "(EINVAL) invalid size or flags"
    } else if code == enomem() {
        "(ENOMEM) not enough memory for mapping"
    } else {
        "platform error"
    }
}

impl BusError {
    /// What the error says.
    pub open spec fn text(self) -> Seq<char> {
        match self {
            BusError::InvalidArg => "invalid argument"@,
            BusError::NoSubscriberSlots => "no subscriber slots available"@,
            BusError::MsgTooLarge => "message too large"@,
            BusError::NotReady => "not ready"@,
            BusError::Platform(code) => "platform error: errno="@ + text::signed_decimal(
                code as int,
            ) + " "@ + errno_text(code),
        }
    }

    /// The error as a sentence for people.
    pub fn message(&self) -> (s: String)
        ensures
            s@ == self.text(),
    {
        match *self {
            BusError::InvalidArg => String::from_str("invalid argument"),
            BusError::NoSubscriberSlots => String::from_str("no subscriber slots available"),
            BusError::MsgTooLarge => String::from_str("message too large"),
            BusError::NotReady => String::from_str("not ready"),
            BusError::Platform(code) => {
                let mut s = String::from_str("platform error: errno=");
                text::push_signed_decimal(&mut s, code);
                s.append(" ");
                s.append(errno_str(code));
                s
            },
        }
    }
}

// ---- laws ----

/// What the errors say that are not the operating system's.
pub proof fn law_error_sentences(a: BusError, b: BusError, c: BusError, d: BusError, s: Seq<String>)
    requires
        a is InvalidArg,
        b is NoSubscriberSlots,
        c is MsgTooLarge,
        d is NotReady,
        s.len() == 4,
        call_ensures(BusError::message, (&a,), s[0]),
        call_ensures(BusError::message, (&b,), s[1]),
        call_ensures(BusError::message, (&c,), s[2]),
        call_ensures(BusError::message, (&d,), s[3]),
    ensures
        s[0]@ == "invalid argument"@,
        s[1]@ == "no subscriber slots available"@,
        s[2]@ == "message too large"@,
        s[3]@ == "not ready"@,
{
}

/// What an error of the operating system says: its number, in decimal, and what it means.
pub proof fn law_platform_error_sentence(code: i32, s: String, t: &mut String)
    requires
        call_ensures(BusError::message, (&BusError::Platform(code),), s),
        t@ == "platform error: errno="@,
        call_ensures(text::push_signed_decimal, (t, code), ()),
    ensures
        code == 2 ==> s@ == final(t)@ + " "@ + "(ENOENT) shared memory object not found"@,
        code == 17 ==> s@ == final(t)@ + " "@ + "(EEXIST) object already exists"@,
        code == 13 ==> s@ == final(t)@ + " "@ + "(EACCES) permission denied"@,
        code == 22 ==> s@ == final(t)@ + " "@ + "(EINVAL) invalid size or flags"@,
        code == 12 ==> s@ == final(t)@ + " "@ + "(ENOMEM) not enough memory for mapping"@,
        code != 2 && code != 17 && code != 13 && code != 22 && code != 12 ==> s@ == final(t)@ + " "@
            + "platform error"@,
{
}

} // verus!
