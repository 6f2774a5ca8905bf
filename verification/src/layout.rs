//! Where a bus keeps its parts in a region of bytes.
//!
//! A region holds a header, a ring of slots and a payload slab, in this order:
//!
//! ```text
//! header (640) | capacity slots of 64 bytes | capacity payloads of slot_bytes bytes
//! ```
//!
//! Integers are little-endian. The header holds the write sequence (0), the claim sequence (8),
//! the capacity (16), the payload bytes per slot (24), the number of subscribers (32) and the
//! read sequences of the subscribers (96). A slot holds its commit sequence (0) and the length
//! of its message (8). Header and slots begin on cache lines.

use crate::bytes;
use crate::pow2;
use vstd::arithmetic::power2;
use vstd::prelude::*;

verus! {

pub const CACHELINE: usize = 64;

/// How many subscribers a bus can have.
pub const MAX_SUBSCRIBERS: usize = 64;

pub const HEADER_BYTES: usize = 640;

pub const SLOT_STRIDE: usize = 64;

pub const WRITE_SEQ_AT: usize = 0;

pub const CLAIM_SEQ_AT: usize = 8;

pub const CAPACITY_AT: usize = 16;

pub const SLOT_BYTES_AT: usize = 24;

pub const N_SUBS_AT: usize = 32;

pub const READ_SEQ_AT: usize = 96;

pub const SLOT_LEN_AT: usize = 8;

/// What one slot of the ring holds.
#[verifier::ext_equal]
pub struct SlotView {
    /// One more than the sequence number of the message last committed here, or 0.
    pub seq: u64,
    /// The length of that message.
    pub len: u32,
    /// The bytes of the slot's payload area.
    pub payload: Seq<u8>,
}

/// What a bus region holds.
#[verifier::ext_equal]
pub struct BusView {
    /// All messages with a lower sequence number are committed.
    pub write_seq: u64,
    /// The next sequence number to be claimed.
    pub claim_seq: u64,
    pub capacity: u64,
    pub slot_bytes: u64,
    /// How many have subscribed, with those that were refused for want of a place.
    pub n_subs: u32,
    /// The sequence number of the message that each subscriber reads next.
    pub read_seq: Seq<u64>,
    pub slots: Seq<SlotView>,
}

/// The bytes that header and slots take, for a ring of `capacity` slots.
pub open spec fn header_len(capacity: int) -> int {
    HEADER_BYTES + SLOT_STRIDE * capacity
}

/// The bytes that a whole bus takes.
pub open spec fn region_len(capacity: int, slot_bytes: int) -> int {
    header_len(capacity) + capacity * slot_bytes
}

pub open spec fn read_seq_at(sub: int) -> int {
    READ_SEQ_AT + 8 * sub
}

pub open spec fn slot_at(slot: int) -> int {
    HEADER_BYTES + SLOT_STRIDE * slot
}

pub open spec fn payload_at(capacity: int, slot_bytes: int, slot: int) -> int {
    header_len(capacity) + slot * slot_bytes
}

pub open spec fn slot_view(mem: Seq<u8>, capacity: int, slot_bytes: int, slot: int) -> SlotView {
    SlotView {
        seq: bytes::le_at(mem, slot_at(slot), 8) as u64,
        len: bytes::le_at(mem, slot_at(slot) + SLOT_LEN_AT, 4) as u32,
        payload: mem.subrange(
            payload_at(capacity, slot_bytes, slot),
            payload_at(capacity, slot_bytes, slot) + slot_bytes,
        ),
    }
}

/// What the bytes `mem` hold as a bus of `capacity` slots of `slot_bytes` bytes.
pub open spec fn bus_view(mem: Seq<u8>, capacity: int, slot_bytes: int) -> BusView {
    BusView {
        write_seq: bytes::le_at(mem, WRITE_SEQ_AT as int, 8) as u64,
        claim_seq: bytes::le_at(mem, CLAIM_SEQ_AT as int, 8) as u64,
        capacity: bytes::le_at(mem, CAPACITY_AT as int, 8) as u64,
        slot_bytes: bytes::le_at(mem, SLOT_BYTES_AT as int, 8) as u64,
        n_subs: bytes::le_at(mem, N_SUBS_AT as int, 4) as u32,
        read_seq: Seq::new(
            MAX_SUBSCRIBERS as nat,
            |i: int| bytes::le_at(mem, read_seq_at(i), 8) as u64,
        ),
        slots: Seq::new(capacity as nat, |i: int| slot_view(mem, capacity, slot_bytes, i)),
    }
}

/// The bytes of header and slots for a ring of `desc_capacity` slots.
pub fn header_layout_size(desc_capacity: usize) -> (n: usize)
    requires
        header_len(desc_capacity as int) + (CACHELINE - 1) <= usize::MAX,
    ensures
        n == header_len(desc_capacity as int),
{
    let slots_size: usize = desc_capacity * SLOT_STRIDE;
    proof {
        reveal_with_fuel(power2::is_pow2, 8);
        assert(power2::is_pow2(CACHELINE as int));
    }
    pow2::align_up(HEADER_BYTES + slots_size, CACHELINE)
}

/// The least number of bytes that a bus of `desc_capacity` slots of `slot_bytes` bytes needs.
pub fn min_buffer_size(desc_capacity: usize, slot_bytes: usize) -> (n: usize)
    requires
        header_len(desc_capacity as int) + (CACHELINE - 1) <= usize::MAX,
        region_len(desc_capacity as int, slot_bytes as int) <= usize::MAX,
    ensures
        n == region_len(desc_capacity as int, slot_bytes as int),
{
    assert(desc_capacity * slot_bytes >= 0) by (nonlinear_arith)
        requires
            desc_capacity >= 0,
            slot_bytes >= 0,
    ;
    header_layout_size(desc_capacity) + desc_capacity * slot_bytes
}

/// Where the read sequence of a subscriber lies.
pub fn read_seq_offset(sub: u32) -> (at: usize)
    requires
        sub < MAX_SUBSCRIBERS,
    ensures
        at == read_seq_at(sub as int),
        at + 8 <= HEADER_BYTES,
{
    READ_SEQ_AT + 8 * (sub as usize)
}

/// Where a slot lies, in a ring of `capacity` slots.
pub fn slot_offset(capacity: usize, slot: u64) -> (at: usize)
    requires
        slot < capacity,
        header_len(capacity as int) <= usize::MAX,
    ensures
        at == slot_at(slot as int),
        at + SLOT_STRIDE <= header_len(capacity as int),
{
    HEADER_BYTES + SLOT_STRIDE * (slot as usize)
}

/// Where the payload area of a slot lies.
pub fn payload_offset(capacity: usize, slot_bytes: usize, slot: u64) -> (at: usize)
    requires
        slot < capacity,
        region_len(capacity as int, slot_bytes as int) <= usize::MAX,
    ensures
        at == payload_at(capacity as int, slot_bytes as int, slot as int),
        at + slot_bytes <= region_len(capacity as int, slot_bytes as int),
{
    proof {
        lemma_payload_areas(capacity as int, slot_bytes as int, slot as int, slot as int);
        assert(0 <= slot * slot_bytes) by (nonlinear_arith)
            requires
                0 <= slot,
                0 <= slot_bytes,
        ;
        assert(0 <= capacity * slot_bytes) by (nonlinear_arith)
            requires
                0 <= capacity,
                0 <= slot_bytes,
        ;
    }
    HEADER_BYTES + SLOT_STRIDE * capacity + (slot as usize) * slot_bytes
}

/// The payload areas lie one after the other, inside the region and behind the slots.
pub proof fn lemma_payload_areas(capacity: int, slot_bytes: int, i: int, j: int)
    requires
        0 <= i < capacity,
        0 <= j < capacity,
        0 <= slot_bytes,
    ensures
        header_len(capacity) <= payload_at(capacity, slot_bytes, i),
        payload_at(capacity, slot_bytes, i) + slot_bytes <= region_len(capacity, slot_bytes),
        i < j ==> payload_at(capacity, slot_bytes, i) + slot_bytes <= payload_at(
            capacity,
            slot_bytes,
            j,
        ),
        j < i ==> payload_at(capacity, slot_bytes, j) + slot_bytes <= payload_at(
            capacity,
            slot_bytes,
            i,
        ),
{
    assert(0 <= i * slot_bytes && i * slot_bytes + slot_bytes <= capacity * slot_bytes)
        by (nonlinear_arith)
        requires
            0 <= i < capacity,
            0 <= slot_bytes,
    ;
    if i < j {
        assert(i * slot_bytes + slot_bytes <= j * slot_bytes) by (nonlinear_arith)
            requires
                i < j,
                0 <= slot_bytes,
        ;
    }
    if j < i {
        assert(j * slot_bytes + slot_bytes <= i * slot_bytes) by (nonlinear_arith)
            requires
                j < i,
                0 <= slot_bytes,
        ;
    }
}

/// The parts of a region do not overlap, lie inside it, and header and slots begin on cache
/// lines.
pub proof fn law_parts_are_disjoint(capacity: int, slot_bytes: int, i: int, j: int, sub: int)
    requires
        0 <= i < j < capacity,
        0 <= slot_bytes,
        0 <= sub < MAX_SUBSCRIBERS,
    ensures
        N_SUBS_AT + 4 <= read_seq_at(sub) < read_seq_at(sub) + 8 <= HEADER_BYTES,
        HEADER_BYTES % CACHELINE == 0,
        slot_at(i) % CACHELINE as int == 0,
        HEADER_BYTES <= slot_at(i),
        slot_at(i) + SLOT_STRIDE <= slot_at(j),
        slot_at(j) + SLOT_STRIDE <= header_len(capacity) <= payload_at(capacity, slot_bytes, i),
        payload_at(capacity, slot_bytes, i) + slot_bytes <= payload_at(capacity, slot_bytes, j),
        payload_at(capacity, slot_bytes, j) + slot_bytes <= region_len(capacity, slot_bytes),
{
    lemma_payload_areas(capacity, slot_bytes, i, j);
    lemma_payload_areas(capacity, slot_bytes, j, i);
}

/// The sizes that are asked for, in bytes: 640 for the header, 64 for each slot, and the payload
/// areas.
pub proof fn law_sizes_are_linear(desc_capacity: usize, slot_bytes: usize, h: usize, n: usize)
    requires
        call_ensures(header_layout_size, (desc_capacity,), h),
        call_ensures(min_buffer_size, (desc_capacity, slot_bytes), n),
    ensures
        h == 640 + 64 * desc_capacity,
        n == h + desc_capacity * slot_bytes,
{
}

/// Where the parts lie: read sequences from byte 96 on, eight bytes each; slots from byte 640 on, 64
/// bytes each; payload areas behind the last slot, one behind the other.
pub proof fn law_parts_follow_each_other(
    capacity: usize,
    slot_bytes: usize,
    sub: u32,
    slot: u64,
    r: usize,
    s: usize,
    p: usize,
)
    requires
        call_ensures(read_seq_offset, (sub,), r),
        call_ensures(slot_offset, (capacity, slot), s),
        call_ensures(payload_offset, (capacity, slot_bytes, slot), p),
    ensures
        r == 96 + 8 * sub,
        s == 640 + 64 * slot,
        p == 640 + 64 * capacity + slot * slot_bytes,
{
}

/// What a region holds, read off its bytes: which bytes hold which number, low byte first, and
/// which are the payload of which slot.
pub proof fn law_view_is_read_off_the_bytes(
    mem: Seq<u8>,
    capacity: int,
    slot_bytes: int,
    sub: int,
    slot: int,
)
    requires
        0 <= slot < capacity,
        0 <= slot_bytes,
        0 <= sub < 64,
        mem.len() == 640 + 64 * capacity + capacity * slot_bytes,
    ensures
        ({
            let v = bus_view(mem, capacity, slot_bytes);
            let at = 640 + 64 * slot;
            let area = 640 + 64 * capacity + slot * slot_bytes;
            &&& v.write_seq == word(mem, 0)
            &&& v.claim_seq == word(mem, 8)
            &&& v.capacity == word(mem, 16)
            &&& v.slot_bytes == word(mem, 24)
            &&& v.n_subs == mem[32] + 0x100 * mem[33] + 0x1_0000 * mem[34] + 0x100_0000 * mem[35]
            &&& v.read_seq.len() == 64
            &&& v.read_seq[sub] == word(mem, 96 + 8 * sub)
            &&& v.slots.len() == capacity
            &&& v.slots[slot].seq == word(mem, at)
            &&& v.slots[slot].len == mem[at + 8] + 0x100 * mem[at + 9] + 0x1_0000 * mem[at + 10]
                + 0x100_0000 * mem[at + 11]
            &&& v.slots[slot].payload.len() == slot_bytes
            &&& forall|i: int|
                0 <= i < slot_bytes ==> v.slots[slot].payload[i] == #[trigger] mem[area + i]
        }),
{
    lemma_payload_areas(capacity, slot_bytes, slot, slot);
    assert(0 <= capacity * slot_bytes) by (nonlinear_arith)
        requires
            0 <= capacity,
            0 <= slot_bytes,
    ;
    bytes::lemma_le_bytes_listed(mem, 0, 8);
    bytes::lemma_le_bytes_listed(mem, 8, 8);
    bytes::lemma_le_bytes_listed(mem, 16, 8);
    bytes::lemma_le_bytes_listed(mem, 24, 8);
    bytes::lemma_le_bytes_listed(mem, 32, 4);
    bytes::lemma_le_bytes_listed(mem, 96 + 8 * sub, 8);
    bytes::lemma_le_bytes_listed(mem, 640 + 64 * slot, 8);
    bytes::lemma_le_bytes_listed(mem, 640 + 64 * slot + 8, 4);
    let area = 640 + 64 * capacity + slot * slot_bytes;
    let payload = bus_view(mem, capacity, slot_bytes).slots[slot].payload;
    assert(payload == mem.subrange(area, area + slot_bytes));
}

/// The number that the eight bytes at `at` hold, low byte first.
pub open spec fn word(mem: Seq<u8>, at: int) -> int {
    mem[at] + 0x100 * mem[at + 1] + 0x1_0000 * mem[at + 2] + 0x100_0000 * mem[at + 3]
        + 0x1_0000_0000 * mem[at + 4] + 0x100_0000_0000 * mem[at + 5] + 0x1_0000_0000_0000 * mem[at
        + 6] + 0x100_0000_0000_0000 * mem[at + 7]
}

} // verus!
