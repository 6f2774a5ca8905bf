//! What the command-line tool reports and counts.
use aarnn_nsys::bus::BusError;
use aarnn_nsys::cli::{open_failure, Role, Tally, Turn};

#[test]
fn a_missing_bus_is_to_be_created_first() {
    assert_eq!(
        open_failure(Role::Single, "/demo", 16384, 67108864, BusError::Platform(2)),
        "error: bus '/demo' not found (ENOENT). Create it first: aarnn-nsys create /demo 16384 67108864"
    );
}

#[test]
fn a_bus_that_cannot_be_opened_is_named() {
    assert_eq!(
        open_failure(Role::Source, "/src", 8, 80, BusError::Platform(13)),
        "error: failed to open source bus '/src' (desc_cap=8, slab=80): platform errno=13"
    );
    assert_eq!(
        open_failure(Role::Destination, "/dst", 8, 80, BusError::InvalidArg),
        "error: size mismatch opening destination bus '/dst'. Ensure desc_capacity_pow2 and slab_bytes match the values used at creation."
    );
    assert_eq!(
        open_failure(Role::Single, "/demo", 8, 80, BusError::NotReady),
        "error: failed to open bus '/demo': not ready"
    );
}

#[test]
fn a_relay_counts_what_it_passes_on_and_what_it_drops() {
    let mut tally = Tally::new();
    assert_eq!(tally.count(Ok(Some(5))), Turn::Next);
    assert_eq!(tally.count(Ok(Some(6))), Turn::Next);
    assert_eq!(tally.count(Ok(None)), Turn::Wait);
    assert_eq!(tally.count(Err(BusError::MsgTooLarge)), Turn::Next);
    assert_eq!(tally.count(Err(BusError::NotReady)), Turn::Stop(BusError::NotReady));
    assert_eq!(tally, Tally { forwarded: 2, dropped: 1 });
}
