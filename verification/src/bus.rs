//! A bus in a slice of bytes.

use crate::bytes;
use crate::layout;
use crate::layout::{
    BusView, SlotView, CACHELINE, CAPACITY_AT, CLAIM_SEQ_AT, HEADER_BYTES, MAX_SUBSCRIBERS,
    N_SUBS_AT, SLOT_BYTES_AT, SLOT_LEN_AT, WRITE_SEQ_AT,
};
use crate::pow2;
use crate::protocol;
use crate::publication;
use crate::protocol::{
    Access, Publish, Receipt, Receive, ReceivePhase, Reply, Subscribe, SubscribePhase,
};
use vstd::arithmetic::power2;
use vstd::prelude::*;

pub use crate::error::BusError;
pub use crate::layout::{header_layout_size, min_buffer_size};

verus! {

/// The extent of memory that a bus was placed in.
pub struct Region {
    len: usize,
}

/// A bus placed in a region of bytes. The bytes themselves are passed to each operation.
pub struct BusHandle {
    region: Region,
    capacity: usize,
    slot_bytes: usize,
    header_bytes: usize,
}

/// What lies outside the bytes `at..at + n` is the same in `now` as in `mem`.
spec fn same_elsewhere(
    mem: Seq<u8>,
    now: Seq<u8>,
    at: int,
    n: int,
    capacity: int,
    slot_bytes: int,
) -> bool {
    let v = layout::bus_view(mem, capacity, slot_bytes);
    let w = layout::bus_view(now, capacity, slot_bytes);
    &&& now.len() == mem.len()
    &&& WRITE_SEQ_AT + 8 <= at ==> w.write_seq == v.write_seq
    &&& at + n <= CLAIM_SEQ_AT || CLAIM_SEQ_AT + 8 <= at ==> w.claim_seq == v.claim_seq
    &&& at + n <= CAPACITY_AT || CAPACITY_AT + 8 <= at ==> w.capacity == v.capacity
    &&& at + n <= SLOT_BYTES_AT || SLOT_BYTES_AT + 8 <= at ==> w.slot_bytes == v.slot_bytes
    &&& at + n <= N_SUBS_AT || N_SUBS_AT + 4 <= at ==> w.n_subs == v.n_subs
    &&& forall|i: int|
        0 <= i < MAX_SUBSCRIBERS && (at + n <= layout::read_seq_at(i) || layout::read_seq_at(i) + 8
            <= at) ==> #[trigger] w.read_seq[i] == v.read_seq[i]
    &&& forall|i: int|
        0 <= i < capacity && (at + n <= layout::slot_at(i) || layout::slot_at(i) + 8 <= at) ==> (
        #[trigger] w.slots[i]).seq == v.slots[i].seq
    &&& forall|i: int|
        0 <= i < capacity && (at + n <= layout::slot_at(i) + SLOT_LEN_AT || layout::slot_at(i)
            + SLOT_LEN_AT + 4 <= at) ==> (#[trigger] w.slots[i]).len == v.slots[i].len
    &&& forall|i: int|
        0 <= i < capacity && (at + n <= layout::payload_at(capacity, slot_bytes, i)
            || layout::payload_at(capacity, slot_bytes, i) + slot_bytes <= at) ==> (
        #[trigger] w.slots[i]).payload == v.slots[i].payload
    &&& forall|i: int|
        0 <= i < capacity ==> layout::header_len(capacity) <= #[trigger] layout::payload_at(
            capacity,
            slot_bytes,
            i,
        )
}

proof fn lemma_write_frame(
    mem: Seq<u8>,
    at: int,
    data: Seq<u8>,
    capacity: int,
    slot_bytes: int,
)
    requires
        mem.len() == layout::region_len(capacity, slot_bytes),
        0 < capacity,
        0 < slot_bytes,
        0 <= at,
        at + data.len() <= mem.len(),
    ensures
        bytes::spliced(mem, at, data).subrange(at, at + data.len()) == data,
        same_elsewhere(
            mem,
            bytes::spliced(mem, at, data),
            at,
            data.len() as int,
            capacity,
            slot_bytes,
        ),
{
    bytes::lemma_splice_frame(mem, at, data);
    let now = bytes::spliced(mem, at, data);
    let v = layout::bus_view(mem, capacity, slot_bytes);
    let w = layout::bus_view(now, capacity, slot_bytes);
    assert(capacity * slot_bytes > 0) by (nonlinear_arith)
        requires
            0 < capacity,
            0 < slot_bytes,
    ;
    assert forall|i: int| 0 <= i < capacity implies layout::header_len(capacity)
        <= #[trigger] layout::payload_at(capacity, slot_bytes, i) && layout::payload_at(
        capacity,
        slot_bytes,
        i,
    ) + slot_bytes <= mem.len() by {
        layout::lemma_payload_areas(capacity, slot_bytes, i, i);
    }
    assert forall|i: int| 0 <= i < capacity implies #[trigger] w.slots[i] == layout::slot_view(
        now,
        capacity,
        slot_bytes,
        i,
    ) && v.slots[i] == layout::slot_view(mem, capacity, slot_bytes, i) by {}
}

impl Region {
    /// How many bytes the region has.
    pub closed spec fn size(&self) -> int {
        self.len as int
    }

    /// The region of the bytes of `buf`.
    pub fn from_slice(buf: &mut [u8]) -> (r: Result<Region, BusError>)
        ensures
            final(buf)@ == old(buf)@,
            old(buf)@.len() == 0 <==> r is Err,
            r matches Err(e) ==> e is InvalidArg,
            r matches Ok(region) ==> region.size() == old(buf)@.len(),
    {
        if buf.is_empty() {
            return Err(BusError::InvalidArg);
        }
        Ok(Region { len: buf.len() })
    }
}

/// Whether a ring of `desc_capacity` slots can share a slab of `slab_bytes` bytes evenly.
pub open spec fn divides(desc_capacity: int, slab_bytes: int) -> bool {
    &&& power2::is_pow2(desc_capacity)
    &&& slab_bytes > 0
    &&& slab_bytes % desc_capacity == 0
}

/// Whether `mem` holds a bus that was made with these numbers.
pub open spec fn opens(mem: Seq<u8>, desc_capacity: int, slab_bytes: int) -> bool {
    &&& divides(desc_capacity, slab_bytes)
    &&& bytes::le_at(mem, CAPACITY_AT as int, 8) == desc_capacity
    &&& bytes::le_at(mem, SLOT_BYTES_AT as int, 8) == slab_bytes / desc_capacity
}

/// A bus as it is when it was just made, in memory that held `was`.
pub open spec fn fresh(was: BusView, capacity: u64, slot_bytes: u64) -> BusView {
    BusView {
        write_seq: 0,
        claim_seq: 0,
        capacity,
        slot_bytes,
        n_subs: 0,
        read_seq: Seq::new(MAX_SUBSCRIBERS as nat, |i: int| 0u64),
        slots: Seq::new(
            was.slots.len(),
            |i: int| SlotView { seq: 0, len: 0, payload: was.slots[i].payload },
        ),
    }
}

impl BusHandle {
    /// How many slots the ring has.
    pub closed spec fn ring(&self) -> int {
        self.capacity as int
    }

    /// How many payload bytes a slot has.
    pub closed spec fn slot_size(&self) -> int {
        self.slot_bytes as int
    }

    /// What the bytes `mem` hold as this bus.
    pub closed spec fn view(&self, mem: Seq<u8>) -> BusView {
        layout::bus_view(mem, self.capacity as int, self.slot_bytes as int)
    }

    /// Whether `mem` has the size of the memory that this bus was placed in.
    spec fn sized(&self, mem: Seq<u8>) -> bool {
        &&& power2::is_pow2(self.capacity as int)
        &&& self.capacity > 0
        &&& self.slot_bytes > 0
        &&& self.header_bytes == layout::header_len(self.capacity as int)
        &&& self.region.len == layout::region_len(self.capacity as int, self.slot_bytes as int)
        &&& mem.len() == self.region.len
    }

    /// Whether `mem` is memory that this bus was placed in.
    pub closed spec fn maps(&self, mem: Seq<u8>) -> bool {
        &&& self.sized(mem)
        &&& self.view(mem).capacity == self.capacity
        &&& self.view(mem).slot_bytes == self.slot_bytes
    }

    spec fn written(&self, mem: Seq<u8>, now: Seq<u8>, at: int, n: int) -> bool {
        same_elsewhere(mem, now, at, n, self.capacity as int, self.slot_bytes as int)
    }

    /// What the memory of a bus holds has the shape and the sizes of the bus.
    pub proof fn lemma_shape(&self, mem: Seq<u8>)
        requires
            self.maps(mem),
        ensures
            self.view(mem).shaped(),
            self.view(mem).capacity == self.ring(),
            self.view(mem).slot_bytes == self.slot_size(),
    {
        let capacity = self.capacity as int;
        let slot_bytes = self.slot_bytes as int;
        assert forall|i: int| 0 <= i < capacity implies (#[trigger] self.view(
            mem,
        ).slots[i]).payload.len() == slot_bytes by {
            layout::lemma_payload_areas(capacity, slot_bytes, i, i);
        }
    }

    /// The memory of a bus states the numbers of the bus in its header, and holds what these
    /// numbers say that it holds.
    pub proof fn lemma_header(&self, mem: Seq<u8>)
        requires
            self.maps(mem),
        ensures
            bytes::le_at(mem, CAPACITY_AT as int, 8) == self.ring(),
            bytes::le_at(mem, SLOT_BYTES_AT as int, 8) == self.slot_size(),
            self.view(mem) == layout::bus_view(mem, self.ring(), self.slot_size()),
            power2::is_pow2(self.ring()),
            self.slot_size() > 0,
            mem.len() == layout::region_len(self.ring(), self.slot_size()),
    {
        assert(self.ring() * self.slot_size() > 0) by (nonlinear_arith)
            requires
                self.ring() > 0,
                self.slot_size() > 0,
        ;
        bytes::lemma_pow256_values();
        bytes::lemma_le_value_bound(mem.subrange(CAPACITY_AT as int, CAPACITY_AT + 8));
        bytes::lemma_le_value_bound(mem.subrange(SLOT_BYTES_AT as int, SLOT_BYTES_AT + 8));
    }

    /// Two handles with the same numbers see one bus in the same memory.
    pub proof fn lemma_handles_agree(&self, other: BusHandle, then: Seq<u8>, mem: Seq<u8>)
        requires
            self.maps(mem),
            other.maps(then),
            self.ring() == other.ring(),
            self.slot_size() == other.slot_size(),
        ensures
            other.maps(mem),
            other.view(mem) == self.view(mem),
    {
    }

    /// A bus is found in its memory by whoever gives the numbers that it was made with, and by
    /// nobody else. Here `mapped` is as much of the memory as the numbers ask for; it begins with
    /// the header of the bus.
    pub proof fn law_bus_is_found_by_its_numbers(
        &self,
        mem: Seq<u8>,
        mapped: Seq<u8>,
        desc_capacity: int,
        slab_bytes: int,
    )
        requires
            self.maps(mem),
            mapped.len() >= HEADER_BYTES,
            mapped.take(HEADER_BYTES as int) == mem.take(HEADER_BYTES as int),
            desc_capacity >= 0,
            slab_bytes >= 0,
        ensures
            opens(mapped, desc_capacity, slab_bytes) <==> desc_capacity == self.ring() && slab_bytes
                == self.ring() * self.slot_size(),
    {
        self.lemma_header(mem);
        let d = self.ring();
        let n = self.slot_size();
        vstd::arithmetic::div_mod::lemma_div_multiples_vanish(n, d);
        vstd::arithmetic::div_mod::lemma_mod_multiples_basic(n, d);
        assert(d * n == n * d && d * n > 0) by (nonlinear_arith)
            requires
                d > 0,
                n > 0,
        ;
        let header = mem.take(HEADER_BYTES as int);
        let c = CAPACITY_AT as int;
        let z = SLOT_BYTES_AT as int;
        assert(mapped.subrange(c, c + 8) =~= mapped.take(HEADER_BYTES as int).subrange(c, c + 8));
        assert(mapped.subrange(z, z + 8) =~= mapped.take(HEADER_BYTES as int).subrange(z, z + 8));
        assert(mem.subrange(c, c + 8) =~= header.subrange(c, c + 8));
        assert(mem.subrange(z, z + 8) =~= header.subrange(z, z + 8));
        if opens(mapped, desc_capacity, slab_bytes) {
            vstd::arithmetic::div_mod::lemma_fundamental_div_mod(slab_bytes, d);
        }
    }

    /// A handle that is opened on the memory of a bus sees the bus as it is: nothing is reset, what
    /// was published and not received is still to be received, and whoever was held back still is.
    /// What either handle does from then on, the other sees.
    pub proof fn law_opened_handle_sees_the_bus(
        &self,
        opened: BusHandle,
        mem: Seq<u8>,
        later: Seq<u8>,
    )
        requires
            self.maps(mem),
            opened.maps(mem),
            self.maps(later) || opened.maps(later),
        ensures
            opened.ring() == self.ring(),
            opened.slot_size() == self.slot_size(),
            opened.view(mem) == self.view(mem),
            self.maps(later),
            opened.maps(later),
            opened.view(later) == self.view(later),
    {
        self.lemma_header(mem);
        opened.lemma_header(mem);
    }

    /// Zeroing the header zeroes its numbers and leaves the payload areas alone.
    proof fn lemma_zeroed(&self, mem: Seq<u8>, now: Seq<u8>)
        requires
            self.sized(mem),
            now.len() == mem.len(),
            forall|i: int| 0 <= i < HEADER_BYTES ==> now[i] == 0,
            forall|i: int| HEADER_BYTES <= i < mem.len() ==> now[i] == mem[i],
        ensures
            self.view(now).write_seq == 0,
            self.view(now).claim_seq == 0,
            self.view(now).n_subs == 0,
            forall|s: int| 0 <= s < MAX_SUBSCRIBERS ==> self.view(now).read_seq[s] == 0,
            forall|j: int|
                0 <= j < self.capacity ==> (#[trigger] self.view(now).slots[j]).payload
                    == self.view(mem).slots[j].payload,
    {
        let capacity = self.capacity as int;
        let slot_bytes = self.slot_bytes as int;
        assert(capacity * slot_bytes > 0) by (nonlinear_arith)
            requires
                capacity > 0,
                slot_bytes > 0,
        ;
        bytes::lemma_le_value_zero(now.subrange(WRITE_SEQ_AT as int, WRITE_SEQ_AT + 8));
        bytes::lemma_le_value_zero(now.subrange(CLAIM_SEQ_AT as int, CLAIM_SEQ_AT + 8));
        bytes::lemma_le_value_zero(now.subrange(N_SUBS_AT as int, N_SUBS_AT + 4));
        assert forall|s: int| 0 <= s < MAX_SUBSCRIBERS implies self.view(now).read_seq[s] == 0 by {
            let at = layout::read_seq_at(s);
            bytes::lemma_le_value_zero(now.subrange(at, at + 8));
        }
        assert forall|j: int| 0 <= j < self.capacity implies (#[trigger] self.view(
            now,
        ).slots[j]).payload == self.view(mem).slots[j].payload by {
            layout::lemma_payload_areas(capacity, slot_bytes, j, j);
            assert(self.view(now).slots[j].payload =~= self.view(mem).slots[j].payload);
        }
    }

    proof fn lemma_filled(&self, mem: Seq<u8>, slot: int, data: Seq<u8>)
        requires
            self.maps(mem),
            0 <= slot < self.capacity,
            data.len() <= self.slot_bytes,
        ensures
            ({
                let at = layout::payload_at(self.capacity as int, self.slot_bytes as int, slot);
                self.view(bytes::spliced(mem, at, data)) == protocol::after(
                    self.view(mem),
                    Access::Fill { slot: slot as u64 },
                    data,
                )
            }),
    {
        let capacity = self.capacity as int;
        let slot_bytes = self.slot_bytes as int;
        let at = layout::payload_at(capacity, slot_bytes, slot);
        let now = bytes::spliced(mem, at, data);
        let v = self.view(mem);
        let w = self.view(now);
        layout::lemma_payload_areas(capacity, slot_bytes, slot, slot);
        lemma_write_frame(mem, at, data, capacity, slot_bytes);
        assert forall|i: int| 0 <= i < capacity && i != slot implies w.slots[i] == v.slots[i] by {
            layout::lemma_payload_areas(capacity, slot_bytes, i, slot);
        }
        assert(w.slots[slot].payload =~= protocol::overlaid(v.slots[slot].payload, data));
        assert(w =~= protocol::after(v, Access::Fill { slot: slot as u64 }, data));
    }

    fn slot_offset(&self, slot: u64) -> (at: usize)
        requires
            self.header_bytes == layout::header_len(self.capacity as int),
            slot < self.capacity,
        ensures
            at == layout::slot_at(slot as int),
    {
        layout::slot_offset(self.capacity, slot)
    }

    fn payload_offset(&self, slot: u64) -> (at: usize)
        requires
            self.region.len == layout::region_len(self.capacity as int, self.slot_bytes as int),
            slot < self.capacity,
        ensures
            at == layout::payload_at(self.capacity as int, self.slot_bytes as int, slot as int),
            at + self.slot_bytes <= self.region.len,
    {
        layout::payload_offset(self.capacity, self.slot_bytes, slot)
    }

    /// Reads a number of the header or of a slot.
    fn load(&self, mem: &[u8], a: Access) -> (x: u64)
        requires
            self.maps(mem@),
            protocol::in_bounds(self.view(mem@), a, seq![], 0),
        ensures
            protocol::reply_to(self.view(mem@), a) is Value ==> x == protocol::reply_to(
                self.view(mem@),
                a,
            )->Value_0,
    {
        proof {
            assert(mem.len() == self.region.len);
            assert(self.capacity * self.slot_bytes > 0) by (nonlinear_arith)
                requires
                    self.capacity > 0,
                    self.slot_bytes > 0,
            ;
            bytes::lemma_pow256_values();
        }
        match a {
            Access::LoadClaim | Access::AddClaim => {
                proof {
                    bytes::lemma_le_value_bound(mem@.subrange(CLAIM_SEQ_AT as int, CLAIM_SEQ_AT + 8));
                }
                bytes::read_le(mem, CLAIM_SEQ_AT, 8)
            },
            Access::LoadSubs | Access::AddSubs => {
                proof {
                    bytes::lemma_le_value_bound(mem@.subrange(N_SUBS_AT as int, N_SUBS_AT + 4));
                }
                bytes::read_le(mem, N_SUBS_AT, 4)
            },
            Access::LoadWrite => {
                proof {
                    bytes::lemma_le_value_bound(mem@.subrange(WRITE_SEQ_AT as int, WRITE_SEQ_AT + 8));
                }
                bytes::read_le(mem, WRITE_SEQ_AT, 8)
            },
            Access::LoadRead { sub } => {
                let at: usize = layout::read_seq_offset(sub);
                proof {
                    bytes::lemma_le_value_bound(mem@.subrange(at as int, at + 8));
                }
                bytes::read_le(mem, at, 8)
            },
            Access::LoadSeq { slot } => {
                let at = self.slot_offset(slot);
                proof {
                    bytes::lemma_le_value_bound(mem@.subrange(at as int, at + 8));
                }
                bytes::read_le(mem, at, 8)
            },
            Access::LoadLen { slot } => {
                let at: usize = self.slot_offset(slot) + SLOT_LEN_AT;
                proof {
                    bytes::lemma_le_value_bound(mem@.subrange(at as int, at + 4));
                }
                bytes::read_le(mem, at, 4)
            },
            _ => 0,
        }
    }

    /// Writes `x` into the `n` bytes at `at`.
    fn write_number(&self, mem: &mut [u8], at: usize, n: usize, x: u64)
        requires
            self.sized(old(mem)@),
            at + n <= old(mem)@.len(),
            n == 4 || n == 8,
            n == 4 ==> x <= u32::MAX,
        ensures
            final(mem)@ == bytes::spliced(
                old(mem)@,
                at as int,
                bytes::le_bytes(x as nat, n as nat),
            ),
            bytes::le_at(final(mem)@, at as int, n as nat) == x,
            bytes::le_bytes(x as nat, n as nat).len() == n,
            self.written(old(mem)@, final(mem)@, at as int, n as int),
    {
        bytes::write_le(mem, at, n, x);
        proof {
            let data = bytes::le_bytes(x as nat, n as nat);
            bytes::lemma_pow256_values();
            bytes::lemma_le_value_of_bytes(x as nat, n as nat);
            bytes::lemma_le_bytes_len(x as nat, n as nat);
            lemma_write_frame(
                old(mem)@,
                at as int,
                data,
                self.capacity as int,
                self.slot_bytes as int,
            );
        }
    }

    /// Copies `data` into `mem` at `at`.
    fn copy_in(mem: &mut [u8], at: usize, data: &[u8])
        requires
            at + data@.len() <= old(mem)@.len(),
        ensures
            final(mem)@ == bytes::spliced(old(mem)@, at as int, data@),
    {
        let n: usize = data.len();
        let mut k: usize = 0;
        assert(old(mem).len() == old(mem)@.len());
        assert(mem@ =~= bytes::spliced(old(mem)@, at as int, data@.take(0)));
        while k < n
            invariant
                k <= n == data@.len(),
                at + n <= old(mem)@.len() <= usize::MAX,
                mem@ == bytes::spliced(old(mem)@, at as int, data@.take(k as int)),
            decreases n - k,
        {
            mem[at + k] = data[k];
            k = k + 1;
            assert(mem@ =~= bytes::spliced(old(mem)@, at as int, data@.take(k as int)));
        }
        assert(data@.take(n as int) =~= data@);
    }

    /// Performs one access of the protocol on the bytes of the bus.
    pub fn perform(&self, mem: &mut [u8], a: Access, data: &[u8], out: &mut [u8]) -> (reply: Reply)
        requires
            self.maps(old(mem)@),
            protocol::in_bounds(self.view(old(mem)@), a, data@, old(out)@.len() as int),
        ensures
            self.maps(final(mem)@),
            self.view(final(mem)@) == protocol::after(self.view(old(mem)@), a, data@),
            reply == protocol::reply_to(self.view(old(mem)@), a),
            final(out)@ == protocol::buffer_after(self.view(old(mem)@), a, old(out)@),
            !protocol::writes(self.view(old(mem)@), a) ==> final(mem)@ == old(mem)@,
    {
        let ghost was = mem@;
        let ghost capacity = self.capacity as int;
        let ghost slot_bytes = self.slot_bytes as int;
        proof {
            self.lemma_shape(was);
            assert(mem.len() == self.region.len);
            assert(capacity * slot_bytes > 0) by (nonlinear_arith)
                requires
                    capacity > 0,
                    slot_bytes > 0,
            ;
        }
        match a {
            Access::LoadClaim
            | Access::LoadSubs
            | Access::LoadWrite
            | Access::LoadRead { .. }
            | Access::LoadSeq { .. }
            | Access::LoadLen { .. } => Reply::Value(self.load(mem, a)),
            Access::AddClaim => {
                let x: u64 = self.load(mem, a);
                self.write_number(mem, CLAIM_SEQ_AT, 8, x.wrapping_add(1));
                assert(self.view(mem@) =~= protocol::after(self.view(was), a, data@));
                Reply::Value(x)
            },
            Access::SwapClaim { expected } => {
                if self.load(mem, Access::LoadClaim) == expected {
                    self.write_number(mem, CLAIM_SEQ_AT, 8, expected.wrapping_add(1));
                    assert(self.view(mem@) =~= protocol::after(self.view(was), a, data@));
                    Reply::Swapped(true)
                } else {
                    Reply::Swapped(false)
                }
            },
            Access::AddSubs => {
                let x: u64 = self.load(mem, a);
                self.write_number(mem, N_SUBS_AT, 4, (x as u32).wrapping_add(1) as u64);
                assert(self.view(mem@) =~= protocol::after(self.view(was), a, data@));
                Reply::Value(x)
            },
            Access::SwapWrite { expected } => {
                if self.load(mem, Access::LoadWrite) == expected {
                    self.write_number(mem, WRITE_SEQ_AT, 8, expected.wrapping_add(1));
                    assert(self.view(mem@) =~= protocol::after(self.view(was), a, data@));
                    Reply::Swapped(true)
                } else {
                    Reply::Swapped(false)
                }
            },
            Access::StoreRead { sub, seq } => {
                self.write_number(mem, layout::read_seq_offset(sub), 8, seq);
                assert(self.view(mem@) =~= protocol::after(self.view(was), a, data@));
                Reply::Made
            },
            Access::StoreSeq { slot, seq } => {
                let at = self.slot_offset(slot);
                self.write_number(mem, at, 8, seq);
                assert(self.view(mem@) =~= protocol::after(self.view(was), a, data@));
                Reply::Made
            },
            Access::StoreLen { slot, len } => {
                let at = self.slot_offset(slot);
                self.write_number(mem, at + SLOT_LEN_AT, 4, len as u64);
                assert(self.view(mem@) =~= protocol::after(self.view(was), a, data@));
                Reply::Made
            },
            Access::Fill { slot } => {
                let at = self.payload_offset(slot);
                Self::copy_in(mem, at, data);
                proof {
                    lemma_write_frame(was, at as int, data@, capacity, slot_bytes);
                    self.lemma_filled(was, slot as int, data@);
                }
                Reply::Made
            },
            Access::Copy { slot, len } => {
                let at = self.payload_offset(slot);
                let end: usize = at + (len as usize);
                let part = vstd::slice::slice_subrange(mem, at, end);
                Self::copy_in(out, 0, part);
                proof {
                    assert(part@ =~= self.view(was).slots[slot as int].payload.take(len as int));
                    assert(out@ =~= protocol::overlaid(old(out)@, part@));
                }
                Reply::Made
            },
            Access::Yield | Access::Finish => Reply::Made,
        }
    }

    /// The bytes that a bus of `desc_capacity` slots sharing `slab_bytes` payload bytes takes.
    pub fn mapped_len(desc_capacity: usize, slab_bytes: usize) -> (r: Result<usize, BusError>)
        requires
            divides(desc_capacity as int, slab_bytes as int) ==> layout::header_len(
                desc_capacity as int,
            ) + (CACHELINE - 1) <= usize::MAX && layout::header_len(desc_capacity as int)
                + slab_bytes <= usize::MAX,
        ensures
            divides(desc_capacity as int, slab_bytes as int) <==> r is Ok,
            r matches Err(e) ==> e is InvalidArg,
            r matches Ok(n) ==> n == layout::region_len(
                desc_capacity as int,
                slab_bytes as int / desc_capacity as int,
            ),
    {
        if !pow2::is_pow2(desc_capacity) {
            return Err(BusError::InvalidArg);
        }
        proof {
            reveal(power2::is_pow2);
        }
        if slab_bytes == 0 || slab_bytes % desc_capacity != 0 {
            return Err(BusError::InvalidArg);
        }
        proof {
            vstd::arithmetic::div_mod::lemma_fundamental_div_mod(
                slab_bytes as int,
                desc_capacity as int,
            );
        }
        Ok(layout::header_layout_size(desc_capacity) + slab_bytes)
    }

    /// Makes a bus in `mem`, whatever it held before.
    fn init_in_region(
        mem: &mut [u8],
        region: Region,
        desc_capacity: usize,
        slot_bytes: usize,
        header_bytes: usize,
    ) -> (bus: BusHandle)
        requires
            power2::is_pow2(desc_capacity as int),
            slot_bytes > 0,
            header_bytes == layout::header_len(desc_capacity as int),
            region.len == layout::region_len(desc_capacity as int, slot_bytes as int),
            old(mem)@.len() == region.len,
        ensures
            bus.maps(final(mem)@),
            bus.ring() == desc_capacity,
            bus.slot_size() == slot_bytes,
            bus.view(final(mem)@) == fresh(
                bus.view(old(mem)@),
                desc_capacity as u64,
                slot_bytes as u64,
            ),
    {
        let ghost was = mem@;
        let ghost capacity = desc_capacity as int;
        let bus = BusHandle { region, capacity: desc_capacity, slot_bytes, header_bytes };
        proof {
            reveal(power2::is_pow2);
            assert(capacity * slot_bytes > 0) by (nonlinear_arith)
                requires
                    capacity > 0,
                    slot_bytes > 0,
            ;
        }
        let mut k: usize = 0;
        while k < HEADER_BYTES
            invariant
                k <= HEADER_BYTES <= was.len(),
                mem@.len() == was.len(),
                forall|i: int| 0 <= i < k ==> mem@[i] == 0,
                forall|i: int| k <= i < was.len() ==> mem@[i] == was[i],
            decreases HEADER_BYTES - k,
        {
            mem[k] = 0;
            k = k + 1;
        }
        proof {
            bus.lemma_zeroed(was, mem@);
        }
        bus.write_number(mem, CAPACITY_AT, 8, desc_capacity as u64);
        bus.write_number(mem, SLOT_BYTES_AT, 8, slot_bytes as u64);
        let mut i: usize = 0;
        while i < desc_capacity
            invariant
                i <= desc_capacity,
                bus.sized(mem@),
                bus.header_bytes == layout::header_len(bus.capacity as int),
                bus.capacity == desc_capacity,
                bus.slot_bytes == slot_bytes,
                bus.view(mem@).write_seq == 0,
                bus.view(mem@).claim_seq == 0,
                bus.view(mem@).capacity == desc_capacity,
                bus.view(mem@).slot_bytes == slot_bytes,
                bus.view(mem@).n_subs == 0,
                forall|s: int| 0 <= s < MAX_SUBSCRIBERS ==> bus.view(mem@).read_seq[s] == 0,
                forall|j: int|
                    0 <= j < i ==> (#[trigger] bus.view(mem@).slots[j]).seq == 0 && bus.view(
                        mem@,
                    ).slots[j].len == 0,
                forall|j: int|
                    0 <= j < desc_capacity ==> (#[trigger] bus.view(mem@).slots[j]).payload
                        == bus.view(was).slots[j].payload,
            decreases desc_capacity - i,
        {
            let at = bus.slot_offset(i as u64);
            proof {
                assert(bus.capacity * bus.slot_bytes > 0) by (nonlinear_arith)
                    requires
                        bus.capacity > 0,
                        bus.slot_bytes > 0,
                ;
            }
            bus.write_number(mem, at, 8, 0);
            bus.write_number(mem, at + SLOT_LEN_AT, 8, 0);
            proof {
                let a = at + SLOT_LEN_AT as int;
                bytes::lemma_le_bytes_zero(8);
                assert(bytes::le_at(mem@, a, 4) == 0) by {
                    bytes::lemma_le_value_zero(mem@.subrange(a, a + 4));
                }
            }
            i = i + 1;
        }
        assert(bus.view(mem@) =~= fresh(
            bus.view(was),
            desc_capacity as u64,
            slot_bytes as u64,
        ));
        bus
    }

    /// Carries a publication through, while nobody else touches the bus.
    fn run_publish(&self, mem: &mut [u8], data: &[u8], blocking: bool) -> (published: bool)
        requires
            self.maps(old(mem)@),
            self.view(old(mem)@).takes(data@.len() as int),
            self.view(old(mem)@).claim_seq < u64::MAX,
            blocking ==> self.view(old(mem)@).room(),
        ensures
            self.maps(final(mem)@),
            published == self.view(old(mem)@).room(),
            published ==> self.view(old(mem)@).published(data@, self.view(final(mem)@)),
            !published ==> final(mem)@ == old(mem)@,
    {
        let ghost was = self.view(mem@);
        proof {
            self.lemma_shape(mem@);
        }
        let mut p = Publish::new(blocking, self.capacity as u64, data.len() as u32);
        let mut nothing: [u8; 0] = [];
        let mut a = p.next();
        while !matches!(a, Access::Finish)
            invariant
                self.maps(mem@),
                was == self.view(old(mem)@),
                was.shaped(),
                was.capacity == self.capacity,
                was.takes(data@.len() as int),
                was.claim_seq < u64::MAX,
                blocking ==> was.room(),
                p.valid(),
                p.blocking == blocking,
                p.capacity == self.capacity,
                p.len == data@.len() as u32,
                a == p.access(),
                publication::publishing(p, was, self.view(mem@), data@),
                !blocking && !p.published && (p.phase is Claim || p.phase is Subs || p.phase is Write
                    || p.phase is Reads || p.phase is Swap || p.phase is Done) ==> mem@ == old(mem)@,
            decreases
                    publication::to_go(p, was, self.view(mem@)).0,
                    publication::to_go(p, was, self.view(mem@)).1,
        {
            proof {
                publication::lemma_step(p, was, self.view(mem@), data@);
            }
            let reply = self.perform(mem, a, data, &mut nothing);
            p.advance(reply);
            a = p.next();
        }
        p.published
    }

    /// Carries an attempt to receive through, while nobody else touches the bus.
    fn run_receive(&self, mem: &mut [u8], sub: u32, out: &mut [u8]) -> (receipt: Receipt)
        requires
            self.maps(old(mem)@),
            sub < MAX_SUBSCRIBERS,
            ({
                let v = self.view(old(mem)@);
                v.readable(v.read_seq[sub as int] as int, old(out)@.len() as int)
            }),
        ensures
            self.maps(final(mem)@),
            ({
                let v = self.view(old(mem)@);
                let seq = v.read_seq[sub as int] as int;
                let len = v.message_len(seq);
                if !v.committed(seq) {
                    &&& receipt is Nothing
                    &&& final(mem)@ == old(mem)@
                    &&& final(out)@ == old(out)@
                } else if len > old(out)@.len() {
                    &&& receipt is TooLarge
                    &&& final(mem)@ == old(mem)@
                    &&& final(out)@ == old(out)@
                } else {
                    &&& receipt == Receipt::Message(len as u32)
                    &&& self.view(final(mem)@) == v.passed(sub as int)
                    &&& final(out)@ == protocol::overlaid(old(out)@, v.message(seq))
                }
            }),
    {
        let ghost was = self.view(mem@);
        let ghost slot = was.slot_of(was.read_seq[sub as int] as int);
        proof {
            self.lemma_shape(mem@);
        }
        let mut r = Receive::new(sub, self.capacity as u64, out.len());
        let mut a = r.next();
        while !matches!(a, Access::Finish)
            invariant
                self.maps(mem@),
                was == self.view(old(mem)@),
                was.shaped(),
                was.readable(was.read_seq[sub as int] as int, old(out)@.len() as int),
                was.capacity == self.capacity,
                slot == was.slot_of(was.read_seq[sub as int] as int),
                sub < MAX_SUBSCRIBERS,
                r.valid(),
                r.sub == sub,
                r.capacity == self.capacity,
                r.room == old(out)@.len() == out@.len(),
                a == r.access(),
                r.phase !is Position ==> r.seq == was.read_seq[sub as int],
                r.phase is Length || r.phase is Copy || r.phase is Pass ==> was.committed(
                    r.seq as int,
                ),
                r.phase is Copy || r.phase is Pass ==> r.len == was.slots[slot].len,
                r.phase !is Done ==> mem@ == old(mem)@,
                r.phase !is Done && r.phase !is Pass ==> out@ == old(out)@,
                r.phase is Pass ==> out@ == protocol::overlaid(
                    old(out)@,
                    was.message(r.seq as int),
                ),
                r.phase is Done ==> match r.receipt {
                    Receipt::Nothing => !was.committed(r.seq as int) && mem@ == old(mem)@ && out@
                        == old(out)@,
                    Receipt::TooLarge => was.committed(r.seq as int) && was.slots[slot].len
                        > old(out)@.len() && mem@ == old(mem)@ && out@ == old(out)@,
                    Receipt::Message(len) => was.committed(r.seq as int) && len
                        == was.slots[slot].len <= old(out)@.len() && self.view(mem@) == was.passed(
                        sub as int,
                    ) && out@ == protocol::overlaid(old(out)@, was.message(r.seq as int)),
                },
            decreases
                    match r.phase {
                        ReceivePhase::Position => 5int,
                        ReceivePhase::Probe => 4,
                        ReceivePhase::Length => 3,
                        ReceivePhase::Copy => 2,
                        ReceivePhase::Pass => 1,
                        ReceivePhase::Done => 0,
                    },
        {
            let reply = self.perform(mem, a, &[], out);
            r.advance(reply);
            a = r.next();
        }
        r.receipt
    }

    /// Subscribes to the bus: of the messages published from now on, none will be missed.
    pub fn subscribe(&self, mem: &mut [u8]) -> (r: Result<Subscriber<'_>, BusError>)
        requires
            self.maps(old(mem)@),
        ensures
            self.maps(final(mem)@),
            self.view(final(mem)@) == self.view(old(mem)@).subscribed(),
            r is Err <==> self.view(old(mem)@).n_subs >= MAX_SUBSCRIBERS,
            r matches Err(e) ==> e is NoSubscriberSlots,
            r matches Ok(sub) ==> sub.well_formed() && sub.bus() == *self && sub.place()
                == self.view(old(mem)@).n_subs,
    {
        let ghost was = self.view(mem@);
        proof {
            self.lemma_shape(mem@);
        }
        let mut s = Subscribe::new();
        let mut nothing: [u8; 0] = [];
        let mut a = s.next();
        while !matches!(a, Access::Finish)
            invariant
                self.maps(mem@),
                was.shaped(),
                s.valid(),
                a == s.access(),
                s.phase !is Join ==> s.place == was.n_subs,
                match s.phase {
                    SubscribePhase::Join => self.view(mem@) == was,
                    SubscribePhase::Start => self.view(mem@) == (BusView {
                        n_subs: protocol::succ32(was.n_subs),
                        ..was
                    }),
                    SubscribePhase::Announce => self.view(mem@) == (BusView {
                        n_subs: protocol::succ32(was.n_subs),
                        ..was
                    }) && s.start == was.write_seq,
                    SubscribePhase::Done => self.view(mem@) == was.subscribed() && (s.joined
                        <==> was.n_subs < MAX_SUBSCRIBERS),
                },
                s.phase !is Done ==> !s.joined,
            decreases
                    match s.phase {
                        SubscribePhase::Join => 3int,
                        SubscribePhase::Start => 2,
                        SubscribePhase::Announce => 1,
                        SubscribePhase::Done => 0,
                    },
        {
            let reply = self.perform(mem, a, &[], &mut nothing);
            s.advance(reply);
            a = s.next();
        }
        let place = s.result()?;
        Ok(Subscriber { bus: self, sub_id: place })
    }

    /// A producer of messages for the bus.
    pub fn producer(&self) -> (p: Producer<'_>)
        ensures
            p.bus() == *self,
    {
        Producer { bus: self }
    }

    /// How many payload bytes a message can have.
    pub fn slot_bytes(&self) -> (n: usize)
        ensures
            n == self.slot_size(),
    {
        self.slot_bytes
    }

    /// Refuses the length of a message that no slot can hold.
    pub fn check_len(&self, len: usize) -> (r: Result<(), BusError>)
        ensures
            r is Ok <==> 0 < len <= self.slot_size(),
            r matches Err(e) ==> e is MsgTooLarge,
    {
        if len == 0 || len > self.slot_bytes {
            Err(BusError::MsgTooLarge)
        } else {
            Ok(())
        }
    }

    /// How many slots the ring has.
    pub fn desc_capacity(&self) -> (n: usize)
        ensures
            n == self.ring(),
    {
        self.capacity
    }

    /// Makes a bus in `mem`, whose `desc_capacity` slots share `slab_bytes` payload bytes.
    pub fn create(mem: &mut [u8], desc_capacity: usize, slab_bytes: usize) -> (r: Result<
        BusHandle,
        BusError,
    >)
        requires
            divides(desc_capacity as int, slab_bytes as int) ==> layout::header_len(
                desc_capacity as int,
            ) + (CACHELINE - 1) <= usize::MAX && old(mem)@.len() == layout::header_len(
                desc_capacity as int,
            ) + slab_bytes,
        ensures
            divides(desc_capacity as int, slab_bytes as int) <==> r is Ok,
            final(mem)@.len() == old(mem)@.len(),
            r matches Err(e) ==> e is InvalidArg && final(mem)@ == old(mem)@,
            r matches Ok(bus) ==> {
                &&& bus.maps(final(mem)@)
                &&& bus.ring() == desc_capacity
                &&& bus.slot_size() == slab_bytes as int / desc_capacity as int
                &&& bus.view(final(mem)@) == fresh(
                    bus.view(old(mem)@),
                    desc_capacity as u64,
                    bus.slot_size() as u64,
                )
            },
    {
        assert(mem.len() == mem@.len());
        let total = Self::mapped_len(desc_capacity, slab_bytes)?;
        let (slot_bytes, header_bytes) = Self::shares(desc_capacity, slab_bytes);
        let bus = Self::init_in_region(
            mem,
            Region { len: total },
            desc_capacity,
            slot_bytes,
            header_bytes,
        );
        Ok(bus)
    }

    /// The payload bytes of a slot, and the bytes of header and slots.
    fn shares(desc_capacity: usize, slab_bytes: usize) -> (r: (usize, usize))
        requires
            divides(desc_capacity as int, slab_bytes as int),
            layout::header_len(desc_capacity as int) + (CACHELINE - 1) <= usize::MAX,
        ensures
            r.0 == slab_bytes as int / desc_capacity as int,
            0 < r.0,
            desc_capacity * r.0 == slab_bytes,
            r.1 == layout::header_len(desc_capacity as int),
    {
        proof {
            reveal(power2::is_pow2);
            let s = slab_bytes as int;
            let d = desc_capacity as int;
            vstd::arithmetic::div_mod::lemma_fundamental_div_mod(s, d);
            assert(s / d > 0) by (nonlinear_arith)
                requires
                    s == d * (s / d),
                    s > 0,
                    d > 0,
            ;
        }
        (slab_bytes / desc_capacity, layout::header_layout_size(desc_capacity))
    }

    /// Attaches to the bus that `mem` already holds. The numbers must be those that it was made
    /// with.
    pub fn open(mem: &[u8], desc_capacity: usize, slab_bytes: usize) -> (r: Result<
        BusHandle,
        BusError,
    >)
        requires
            divides(desc_capacity as int, slab_bytes as int) ==> layout::header_len(
                desc_capacity as int,
            ) + (CACHELINE - 1) <= usize::MAX && mem@.len() == layout::header_len(
                desc_capacity as int,
            ) + slab_bytes,
        ensures
            r is Ok <==> opens(mem@, desc_capacity as int, slab_bytes as int),
            r matches Err(e) ==> e is InvalidArg,
            r matches Ok(bus) ==> {
                &&& bus.maps(mem@)
                &&& bus.ring() == desc_capacity
                &&& bus.slot_size() == slab_bytes as int / desc_capacity as int
                &&& bus.view(mem@) == layout::bus_view(mem@, bus.ring(), bus.slot_size())
            },
    {
        assert(mem.len() == mem@.len());
        let total = Self::mapped_len(desc_capacity, slab_bytes)?;
        let (slot_bytes, header_bytes) = Self::shares(desc_capacity, slab_bytes);
        Self::map_in_region(mem, Region { len: total }, desc_capacity, slot_bytes, header_bytes)
    }

    /// Attaches to a bus, if its header states these numbers.
    fn map_in_region(
        mem: &[u8],
        region: Region,
        desc_capacity: usize,
        slot_bytes: usize,
        header_bytes: usize,
    ) -> (r: Result<BusHandle, BusError>)
        requires
            power2::is_pow2(desc_capacity as int),
            slot_bytes > 0,
            header_bytes == layout::header_len(desc_capacity as int),
            region.len == layout::region_len(desc_capacity as int, slot_bytes as int),
            mem@.len() == region.len,
        ensures
            r is Ok <==> bytes::le_at(mem@, CAPACITY_AT as int, 8) == desc_capacity
                && bytes::le_at(mem@, SLOT_BYTES_AT as int, 8) == slot_bytes,
            r matches Err(e) ==> e is InvalidArg,
            r matches Ok(bus) ==> {
                &&& bus.maps(mem@)
                &&& bus.ring() == desc_capacity
                &&& bus.slot_size() == slot_bytes
                &&& bus.view(mem@) == layout::bus_view(mem@, bus.ring(), bus.slot_size())
            },
    {
        proof {
            reveal(power2::is_pow2);
            assert(desc_capacity * slot_bytes > 0) by (nonlinear_arith)
                requires
                    desc_capacity > 0,
                    slot_bytes > 0,
            ;
        }
        let hdr_desc: u64 = bytes::read_le(mem, CAPACITY_AT, 8);
        let hdr_slot: u64 = bytes::read_le(mem, SLOT_BYTES_AT, 8);
        if hdr_desc != desc_capacity as u64 || hdr_slot != slot_bytes as u64 {
            return Err(BusError::InvalidArg);
        }
        Ok(BusHandle { region, capacity: desc_capacity, slot_bytes, header_bytes })
    }

    /// Makes a bus of `desc_capacity` slots that fills the whole of `buf`. The bytes may lie at any
    /// address: they are read and written one by one.
    pub fn from_slice(buf: &mut [u8], desc_capacity: usize) -> (r: Result<BusHandle, BusError>)
        requires
            power2::is_pow2(desc_capacity as int) ==> layout::header_len(desc_capacity as int) + (
            CACHELINE - 1) <= usize::MAX,
        ensures
            r is Ok <==> divides(
                desc_capacity as int,
                old(buf)@.len() - layout::header_len(desc_capacity as int),
            ),
            final(buf)@.len() == old(buf)@.len(),
            r matches Err(e) ==> e is InvalidArg && final(buf)@ == old(buf)@,
            r matches Ok(bus) ==> {
                &&& bus.maps(final(buf)@)
                &&& bus.ring() == desc_capacity
                &&& bus.slot_size() == (old(buf)@.len() - layout::header_len(desc_capacity as int))
                    / desc_capacity as int
                &&& bus.view(final(buf)@) == fresh(
                    bus.view(old(buf)@),
                    desc_capacity as u64,
                    bus.slot_size() as u64,
                )
            },
    {
        if !pow2::is_pow2(desc_capacity) {
            return Err(BusError::InvalidArg);
        }
        proof {
            reveal(power2::is_pow2);
        }
        let header_bytes = layout::header_layout_size(desc_capacity);
        if buf.len() <= header_bytes {
            return Err(BusError::InvalidArg);
        }
        let slab_bytes: usize = buf.len() - header_bytes;
        if slab_bytes % desc_capacity != 0 {
            return Err(BusError::InvalidArg);
        }
        let (slot_bytes, header_bytes) = Self::shares(desc_capacity, slab_bytes);
        let region = Region::from_slice(buf)?;
        Ok(Self::init_in_region(buf, region, desc_capacity, slot_bytes, header_bytes))
    }
}

/// Publishes messages on a bus.
pub struct Producer<'a> {
    bus: &'a BusHandle,
}

/// Receives the messages of a bus, each once and in the order of their sequence numbers.
pub struct Subscriber<'a> {
    bus: &'a BusHandle,
    sub_id: u32,
}

impl<'a> Producer<'a> {
    /// The bus that is published on.
    pub closed spec fn bus(&self) -> BusHandle {
        *self.bus
    }

    /// Publishes `payload` unless the slowest subscriber is a whole ring behind.
    pub fn try_publish(&self, mem: &mut [u8], payload: &[u8]) -> (r: Result<bool, BusError>)
        requires
            self.bus().maps(old(mem)@),
            self.bus().view(old(mem)@).takes(payload@.len() as int) ==> self.bus().view(
                old(mem)@,
            ).claim_seq < u64::MAX,
        ensures
            self.bus().maps(final(mem)@),
            r is Err <==> !self.bus().view(old(mem)@).takes(payload@.len() as int),
            r matches Err(e) ==> e is MsgTooLarge,
            r matches Ok(done) ==> done == self.bus().view(old(mem)@).room(),
            r == Ok::<bool, BusError>(true) ==> self.bus().view(old(mem)@).published(
                payload@,
                self.bus().view(final(mem)@),
            ),
            r != Ok::<bool, BusError>(true) ==> final(mem)@ == old(mem)@,
    {
        proof {
            self.bus.lemma_shape(mem@);
        }
        self.bus.check_len(payload.len())?;
        Ok(self.bus.run_publish(mem, payload, false))
    }

    /// Publishes `payload`. While the slowest subscriber is a whole ring behind, this waits for
    /// it; since nobody else can touch `mem` meanwhile, it must not be.
    pub fn publish(&self, mem: &mut [u8], payload: &[u8]) -> (r: Result<(), BusError>)
        requires
            self.bus().maps(old(mem)@),
            self.bus().view(old(mem)@).takes(payload@.len() as int) ==> {
                &&& self.bus().view(old(mem)@).claim_seq < u64::MAX
                &&& self.bus().view(old(mem)@).room()
            },
        ensures
            self.bus().maps(final(mem)@),
            r is Err <==> !self.bus().view(old(mem)@).takes(payload@.len() as int),
            r matches Err(e) ==> e is MsgTooLarge && final(mem)@ == old(mem)@,
            r is Ok ==> self.bus().view(old(mem)@).published(
                payload@,
                self.bus().view(final(mem)@),
            ),
    {
        proof {
            self.bus.lemma_shape(mem@);
        }
        self.bus.check_len(payload.len())?;
        let _ = self.bus.run_publish(mem, payload, true);
        Ok(())
    }
}

/// What one turn of a blocking receipt comes to, when an attempt gave `received` and `elapsed_ns`
/// of `timeout_ns` nanoseconds have gone by: the result, or `None` for another turn.
pub fn recv_turn(
    received: Result<Option<usize>, BusError>,
    elapsed_ns: u128,
    timeout_ns: u128,
) -> (r: Option<Result<usize, BusError>>)
    ensures
        r == match received {
            Ok(Some(n)) => Some(Ok::<usize, BusError>(n)),
            Err(e) => Some(Err::<usize, BusError>(e)),
            Ok(None) => if elapsed_ns >= timeout_ns {
                Some(Err::<usize, BusError>(BusError::NotReady))
            } else {
                None
            },
        },
{
    match received {
        Ok(Some(n)) => Some(Ok(n)),
        Err(e) => Some(Err(e)),
        Ok(None) => if elapsed_ns >= timeout_ns {
            Some(Err(BusError::NotReady))
        } else {
            None
        },
    }
}

impl<'a> Subscriber<'a> {
    /// The bus that is received from.
    pub closed spec fn bus(&self) -> BusHandle {
        *self.bus
    }

    /// The place among the subscribers.
    pub closed spec fn place(&self) -> int {
        self.sub_id as int
    }

    pub closed spec fn well_formed(&self) -> bool {
        self.sub_id < MAX_SUBSCRIBERS
    }

    /// Whether the next message in `mem`, if it is there and fits into `room` bytes, lies inside
    /// its payload area.
    pub open spec fn readable(&self, mem: Seq<u8>, room: int) -> bool {
        let v = self.bus().view(mem);
        v.readable(v.read_seq[self.place()] as int, room)
    }

    /// What an attempt to receive from `mem` into `buf` comes to, and what `mem` and `buf` hold
    /// then.
    pub open spec fn receives(
        &self,
        mem: Seq<u8>,
        buf: Seq<u8>,
        r: Result<Option<usize>, BusError>,
        mem_after: Seq<u8>,
        buf_after: Seq<u8>,
    ) -> bool {
        let v = self.bus().view(mem);
        let seq = v.read_seq[self.place()] as int;
        let message = v.message(seq);
        if !v.committed(seq) {
            &&& r == Ok::<Option<usize>, BusError>(None)
            &&& mem_after == mem
            &&& buf_after == buf
        } else if v.message_len(seq) > buf.len() {
            &&& r == Err::<Option<usize>, BusError>(BusError::MsgTooLarge)
            &&& mem_after == mem
            &&& buf_after == buf
        } else {
            &&& r == Ok::<Option<usize>, BusError>(Some(message.len() as usize))
            &&& self.bus().view(mem_after) == v.passed(self.place())
            &&& buf_after == protocol::overlaid(buf, message)
        }
    }

    /// Receives the next message into `out`, if there is one. A message that `out` is too short
    /// for stays.
    pub fn try_recv(&self, mem: &mut [u8], out: &mut [u8]) -> (r: Result<Option<usize>, BusError>)
        requires
            self.well_formed(),
            self.bus().maps(old(mem)@),
            self.readable(old(mem)@, old(out)@.len() as int),
        ensures
            self.bus().maps(final(mem)@),
            self.receives(old(mem)@, old(out)@, r, final(mem)@, final(out)@),
    {
        assert(out.len() == out@.len());
        proof {
            self.bus.lemma_shape(mem@);
        }
        self.bus.run_receive(mem, self.sub_id, out).result()
    }

    /// One turn of a blocking receipt: an attempt, and the verdict of [`recv_turn`] on it.
    pub fn recv_blocking(
        &self,
        mem: &mut [u8],
        out: &mut [u8],
        elapsed_ns: u128,
        timeout_ns: u128,
    ) -> (r: Option<Result<usize, BusError>>)
        requires
            self.well_formed(),
            self.bus().maps(old(mem)@),
            self.readable(old(mem)@, old(out)@.len() as int),
        ensures
            self.bus().maps(final(mem)@),
            match r {
                Some(Ok(n)) => self.receives(
                    old(mem)@,
                    old(out)@,
                    Ok(Some(n)),
                    final(mem)@,
                    final(out)@,
                ),
                Some(Err(BusError::NotReady)) => elapsed_ns >= timeout_ns && self.receives(
                    old(mem)@,
                    old(out)@,
                    Ok(None),
                    final(mem)@,
                    final(out)@,
                ),
                Some(Err(e)) => self.receives(
                    old(mem)@,
                    old(out)@,
                    Err(e),
                    final(mem)@,
                    final(out)@,
                ),
                None => elapsed_ns < timeout_ns && self.receives(
                    old(mem)@,
                    old(out)@,
                    Ok(None),
                    final(mem)@,
                    final(out)@,
                ),
            },
    {
        let received = self.try_recv(mem, out);
        recv_turn(received, elapsed_ns, timeout_ns)
    }
}

/// What is to be passed on, after an attempt to receive gave `received`, to a bus with the handle
/// `dst`: the length of the message, nothing, or an error if `dst` cannot take it.
pub fn relay_turn(received: Result<Option<usize>, BusError>, dst: &BusHandle) -> (r: Result<
    Option<usize>,
    BusError,
>)
    ensures
        r == match received {
            Ok(Some(n)) => if 0 < n <= dst.slot_size() {
                Ok::<Option<usize>, BusError>(Some(n))
            } else {
                Err::<Option<usize>, BusError>(BusError::MsgTooLarge)
            },
            other => other,
        },
{
    match received {
        Ok(Some(n)) => match dst.check_len(n) {
            Ok(()) => Ok(Some(n)),
            Err(e) => Err(e),
        },
        other => other,
    }
}

/// The memory that a relay works on.
#[verifier::ext_equal]
pub struct RelayMemory {
    /// The memory of the bus that messages come from.
    pub src: Seq<u8>,
    /// The memory of the bus that they go to.
    pub dst: Seq<u8>,
    /// The buffer that they go through.
    pub scratch: Seq<u8>,
}

/// What an attempt to relay a message comes to, when the memory holds `m` before and `n` after.
pub open spec fn relays<'a>(
    src: &Subscriber<'a>,
    dst: &Producer<'a>,
    m: RelayMemory,
    r: Result<Option<usize>, BusError>,
    n: RelayMemory,
) -> bool {
    let v = src.bus().view(m.src);
    let seq = v.read_seq[src.place()] as int;
    let message = v.message(seq);
    let d = dst.bus().view(m.dst);
    &&& src.bus().maps(n.src)
    &&& dst.bus().maps(n.dst)
    &&& if !v.committed(seq) {
        &&& r == Ok::<Option<usize>, BusError>(None)
        &&& n == m
    } else if v.message_len(seq) > m.scratch.len() {
        &&& r == Err::<Option<usize>, BusError>(BusError::MsgTooLarge)
        &&& n == m
    } else {
        &&& src.bus().view(n.src) == v.passed(src.place())
        &&& n.scratch == protocol::overlaid(m.scratch, message)
        &&& if d.takes(message.len() as int) {
            &&& r == Ok::<Option<usize>, BusError>(Some(message.len() as usize))
            &&& d.published(message, dst.bus().view(n.dst))
        } else {
            &&& r == Err::<Option<usize>, BusError>(BusError::MsgTooLarge)
            &&& n.dst == m.dst
        }
    }
}

/// Passes the next message of `src` on to `dst`, by way of `scratch`. A message that `dst` cannot
/// take is dropped.
pub fn relay_once<'a>(
    src: &Subscriber<'a>,
    src_mem: &mut [u8],
    dst: &Producer<'a>,
    dst_mem: &mut [u8],
    scratch: &mut [u8],
) -> (r: Result<Option<usize>, BusError>)
    requires
        src.well_formed(),
        src.bus().maps(old(src_mem)@),
        src.readable(old(src_mem)@, old(scratch)@.len() as int),
        dst.bus().maps(old(dst_mem)@),
        ({
            let v = src.bus().view(old(src_mem)@);
            let seq = v.read_seq[src.place()] as int;
            let d = dst.bus().view(old(dst_mem)@);
            v.committed(seq) && v.message_len(seq) <= old(scratch)@.len() && d.takes(
                v.message_len(seq),
            ) ==> d.claim_seq < u64::MAX && d.room()
        }),
    ensures
        relays(
            src,
            dst,
            (RelayMemory { src: old(src_mem)@, dst: old(dst_mem)@, scratch: old(scratch)@ }),
            r,
            (RelayMemory { src: final(src_mem)@, dst: final(dst_mem)@, scratch: final(scratch)@ }),
        ),
{
    let ghost v = src.bus().view(src_mem@);
    let ghost seq = v.read_seq[src.place()] as int;
    proof {
        src.bus.lemma_shape(src_mem@);
        dst.bus.lemma_shape(dst_mem@);
    }
    let received = src.try_recv(src_mem, scratch);
    match relay_turn(received, dst.bus) {
        Err(e) => Err(e),
        Ok(None) => Ok(None),
        Ok(Some(n)) => {
            let message = vstd::slice::slice_subrange(scratch, 0, n);
            assert(message@ =~= v.message(seq));
            match dst.publish(dst_mem, message) {
                Ok(()) => Ok(Some(n)),
                Err(e) => Err(e),
            }
        },
    }
}

/// A region is as long as the bytes that it stands for, and there is none for no bytes.
pub proof fn law_region_covers_its_bytes(buf: &mut [u8], r: Result<Region, BusError>)
    requires
        call_ensures(Region::from_slice, (buf,), r),
    ensures
        final(buf)@ == old(buf)@,
        old(buf)@.len() == 0 ==> r is Err && r->Err_0 is InvalidArg,
        old(buf)@.len() > 0 ==> r is Ok && r->Ok_0.size() == old(buf)@.len(),
{
}

/// The bytes that a bus takes: 640, 64 for each slot, and the payload bytes. There is none unless
/// the number of slots is a power of two that divides the number of payload bytes, which is not 0.
pub proof fn law_mapped_bytes(desc_capacity: usize, slab_bytes: usize, r: Result<usize, BusError>)
    requires
        call_ensures(BusHandle::mapped_len, (desc_capacity, slab_bytes), r),
    ensures
        r is Ok <==> power2::is_pow2(desc_capacity as int) && slab_bytes > 0 && slab_bytes as int
            % desc_capacity as int == 0,
        r is Ok ==> r->Ok_0 == 640 + 64 * desc_capacity + slab_bytes,
        r is Err ==> r->Err_0 is InvalidArg,
{
    if r is Ok {
        reveal(power2::is_pow2);
        vstd::arithmetic::div_mod::lemma_fundamental_div_mod(
            slab_bytes as int,
            desc_capacity as int,
        );
    }
}

/// The bytes of a bus of `ring` slots of `size` bytes that was just made in memory that held `was`:
/// the two sequences, the subscribers and all slots are at 0, the numbers of the bus stand in the
/// header, and the payload areas are left as they were.
pub open spec fn blank(was: Seq<u8>, mem: Seq<u8>, ring: int, size: int) -> bool {
    &&& mem.len() == was.len() == 640 + 64 * ring + ring * size
    &&& layout::word(mem, 0) == 0
    &&& layout::word(mem, 8) == 0
    &&& layout::word(mem, 16) == ring
    &&& layout::word(mem, 24) == size
    &&& forall|i: int| 32 <= i < 36 ==> #[trigger] mem[i] == 0
    &&& forall|i: int| 0 <= i < 64 ==> #[trigger] layout::word(mem, 96 + 8 * i) == 0
    &&& forall|k: int|
        0 <= k < ring ==> #[trigger] layout::word(mem, 640 + 64 * k) == 0 && mem[640 + 64 * k + 8]
            == 0 && mem[640 + 64 * k + 9] == 0 && mem[640 + 64 * k + 10] == 0 && mem[640 + 64 * k
            + 11] == 0
    &&& forall|k: int, j: int|
        0 <= k < ring && 0 <= j < size ==> #[trigger] mem[640 + 64 * ring + k * size + j]
            == was[640 + 64 * ring + k * size + j]
}

proof fn lemma_blank(bus: BusHandle, was: Seq<u8>, mem: Seq<u8>)
    requires
        bus.maps(mem),
        was.len() == mem.len(),
        bus.view(mem) == fresh(bus.view(was), bus.ring() as u64, bus.slot_size() as u64),
    ensures
        blank(was, mem, bus.ring(), bus.slot_size()),
{
    let d = bus.ring();
    let n = bus.slot_size();
    let v = bus.view(mem);
    bus.lemma_header(mem);
    layout::law_view_is_read_off_the_bytes(mem, d, n, 0, 0);
    assert forall|i: int| 0 <= i < 64 implies #[trigger] layout::word(mem, 96 + 8 * i) == 0 by {
        layout::law_view_is_read_off_the_bytes(mem, d, n, i, 0);
        assert(v.read_seq[i] == 0);
    }
    assert forall|k: int| 0 <= k < d implies #[trigger] layout::word(mem, 640 + 64 * k) == 0
        && mem[640 + 64 * k + 8] == 0 && mem[640 + 64 * k + 9] == 0 && mem[640 + 64 * k + 10] == 0
        && mem[640 + 64 * k + 11] == 0 by {
        layout::law_view_is_read_off_the_bytes(mem, d, n, 0, k);
        assert(v.slots[k].seq == 0 && v.slots[k].len == 0);
    }
    assert forall|k: int, j: int| 0 <= k < d && 0 <= j < n implies #[trigger] mem[640 + 64 * d + k
        * n + j] == was[640 + 64 * d + k * n + j] by {
        layout::law_view_is_read_off_the_bytes(mem, d, n, 0, k);
        layout::law_view_is_read_off_the_bytes(was, d, n, 0, k);
        assert(v.slots[k].payload[j] == mem[640 + 64 * d + k * n + j]);
        assert(bus.view(was).slots[k].payload[j] == was[640 + 64 * d + k * n + j]);
        assert(v.slots[k].payload == bus.view(was).slots[k].payload);
    }
}

/// A bus is made in memory if its slots can share the payload bytes evenly, and is blank then; else
/// the memory is left as it was.
pub proof fn law_bus_is_made(
    mem: &mut [u8],
    desc_capacity: usize,
    slab_bytes: usize,
    r: Result<BusHandle, BusError>,
)
    requires
        call_ensures(BusHandle::create, (mem, desc_capacity, slab_bytes), r),
    ensures
        r is Ok <==> power2::is_pow2(desc_capacity as int) && slab_bytes > 0 && slab_bytes as int
            % desc_capacity as int == 0,
        r is Err ==> r->Err_0 is InvalidArg && final(mem)@ == old(mem)@,
        r is Ok ==> {
            &&& r->Ok_0.maps(final(mem)@)
            &&& r->Ok_0.ring() == desc_capacity
            &&& r->Ok_0.ring() * r->Ok_0.slot_size() == slab_bytes
            &&& blank(old(mem)@, final(mem)@, desc_capacity as int, r->Ok_0.slot_size())
        },
{
    if r is Ok {
        reveal(power2::is_pow2);
        vstd::arithmetic::div_mod::lemma_fundamental_div_mod(
            slab_bytes as int,
            desc_capacity as int,
        );
        lemma_blank(r->Ok_0, old(mem)@, final(mem)@);
    }
}

/// A bus is made in the whole of a buffer if what is left beside header and slots can be shared
/// evenly, and is blank then; else the buffer is left as it was.
pub proof fn law_bus_fills_the_buffer(
    buf: &mut [u8],
    desc_capacity: usize,
    r: Result<BusHandle, BusError>,
)
    requires
        call_ensures(BusHandle::from_slice, (buf, desc_capacity), r),
    ensures
        ({
            let slab = old(buf)@.len() - 640 - 64 * desc_capacity;
            &&& r is Ok <==> power2::is_pow2(desc_capacity as int) && slab > 0 && slab
                % desc_capacity as int == 0
            &&& r is Err ==> r->Err_0 is InvalidArg && final(buf)@ == old(buf)@
            &&& r is Ok ==> {
                &&& r->Ok_0.maps(final(buf)@)
                &&& r->Ok_0.ring() == desc_capacity
                &&& r->Ok_0.ring() * r->Ok_0.slot_size() == slab
                &&& blank(old(buf)@, final(buf)@, desc_capacity as int, r->Ok_0.slot_size())
            }
        }),
{
    if r is Ok {
        reveal(power2::is_pow2);
        vstd::arithmetic::div_mod::lemma_fundamental_div_mod(
            old(buf)@.len() - 640 - 64 * desc_capacity,
            desc_capacity as int,
        );
        lemma_blank(r->Ok_0, old(buf)@, final(buf)@);
    }
}

/// A bus is opened by the numbers that stand in its header, and by no others. The handle then has
/// these numbers, and the memory is its memory.
pub proof fn law_bus_is_opened(
    mem: &[u8],
    desc_capacity: usize,
    slab_bytes: usize,
    r: Result<BusHandle, BusError>,
)
    requires
        call_ensures(BusHandle::open, (mem, desc_capacity, slab_bytes), r),
        mem@.len() >= 640,
    ensures
        r is Ok <==> power2::is_pow2(desc_capacity as int) && slab_bytes > 0 && layout::word(
            mem@,
            16,
        ) == desc_capacity && layout::word(mem@, 16) * layout::word(mem@, 24) == slab_bytes,
        r is Err ==> r->Err_0 is InvalidArg,
        r is Ok ==> {
            &&& r->Ok_0.maps(mem@)
            &&& r->Ok_0.ring() == layout::word(mem@, 16)
            &&& r->Ok_0.slot_size() == layout::word(mem@, 24)
        },
{
    let d = desc_capacity as int;
    let s = slab_bytes as int;
    let n = layout::word(mem@, 24);
    bytes::lemma_le_bytes_listed(mem@, 16, 8);
    bytes::lemma_le_bytes_listed(mem@, 24, 8);
    if power2::is_pow2(d) {
        reveal(power2::is_pow2);
        vstd::arithmetic::div_mod::lemma_fundamental_div_mod(s, d);
        if s == d * n {
            vstd::arithmetic::div_mod::lemma_div_multiples_vanish(n, d);
            vstd::arithmetic::div_mod::lemma_mod_multiples_basic(n, d);
            assert(d * n == n * d) by (nonlinear_arith);
        }
    }
}

/// Whoever opens the memory of a bus with the numbers that it was made with gets a handle to it, and
/// nobody does with others.
pub proof fn law_made_bus_is_opened(
    mem: &mut [u8],
    desc_capacity: usize,
    slab_bytes: usize,
    made: Result<BusHandle, BusError>,
    seen: &[u8],
    d: usize,
    s: usize,
    opened: Result<BusHandle, BusError>,
)
    requires
        call_ensures(BusHandle::create, (mem, desc_capacity, slab_bytes), made),
        made is Ok,
        seen@.len() >= 640,
        seen@.take(640) == final(mem)@.take(640),
        call_ensures(BusHandle::open, (seen, d, s), opened),
    ensures
        opened is Ok <==> d == desc_capacity && s == slab_bytes,
        opened is Ok && seen@ == final(mem)@ ==> opened->Ok_0.ring() == made->Ok_0.ring()
            && opened->Ok_0.slot_size() == made->Ok_0.slot_size() && opened->Ok_0.view(seen@)
            == made->Ok_0.view(seen@),
{
    law_bus_is_made(mem, desc_capacity, slab_bytes, made);
    law_bus_is_opened(seen, d, s, opened);
    let m = final(mem)@;
    assert(m.len() >= 640) by {
        made->Ok_0.lemma_header(m);
        assert(made->Ok_0.ring() * made->Ok_0.slot_size() == slab_bytes);
    }
    assert forall|i: int| 0 <= i < 640 implies #[trigger] seen@[i] == m[i] by {
        assert(seen@.take(640)[i] == m.take(640)[i]);
    }
    assert(layout::word(seen@, 16) == layout::word(m, 16));
    assert(layout::word(seen@, 24) == layout::word(m, 24));
    if opened is Ok && seen@ == m {
        made->Ok_0.lemma_header(m);
        opened->Ok_0.lemma_header(m);
    }
}

/// A producer publishes on its bus, and a bus tells its numbers.
pub proof fn law_numbers_are_told<'a>(
    bus: &'a BusHandle,
    mem: Seq<u8>,
    p: Producer<'a>,
    n: usize,
    d: usize,
)
    requires
        bus.maps(mem),
        call_ensures(BusHandle::producer, (bus,), p),
        call_ensures(BusHandle::slot_bytes, (bus,), n),
        call_ensures(BusHandle::desc_capacity, (bus,), d),
    ensures
        p.bus() == *bus,
        n == layout::word(mem, 24),
        d == layout::word(mem, 16),
        mem.len() == 640 + 64 * d + d * n,
{
    bus.lemma_header(mem);
    reveal(power2::is_pow2);
    layout::law_view_is_read_off_the_bytes(mem, bus.ring(), bus.slot_size(), 0, 0);
}

/// A message is refused if it is empty, or longer than a slot.
pub proof fn law_lengths_are_checked(
    bus: &BusHandle,
    mem: Seq<u8>,
    len: usize,
    r: Result<(), BusError>,
)
    requires
        bus.maps(mem),
        call_ensures(BusHandle::check_len, (bus, len), r),
    ensures
        len == 0 || len > layout::word(mem, 24) ==> r is Err && r->Err_0 is MsgTooLarge,
        0 < len <= layout::word(mem, 24) ==> r is Ok,
{
    bus.lemma_header(mem);
    reveal(power2::is_pow2);
    layout::law_view_is_read_off_the_bytes(mem, bus.ring(), bus.slot_size(), 0, 0);
}

/// A subscription takes the place that the count of subscriptions names, and begins at the write
/// sequence. It is refused if there is no such place. The count goes up by one either way, and
/// nothing else changes.
pub proof fn law_subscription_takes_a_place<'a>(
    bus: &'a BusHandle,
    mem: &mut [u8],
    r: Result<Subscriber<'a>, BusError>,
)
    requires
        bus.maps(mem@),
        call_ensures(BusHandle::subscribe, (bus, mem), r),
    ensures
        ({
            let v = bus.view(old(mem)@);
            let w = bus.view(final(mem)@);
            &&& bus.maps(final(mem)@)
            &&& w.n_subs == (v.n_subs + 1) % 0x1_0000_0000
            &&& w.write_seq == v.write_seq
            &&& w.claim_seq == v.claim_seq
            &&& w.capacity == v.capacity
            &&& w.slot_bytes == v.slot_bytes
            &&& w.slots == v.slots
            &&& w.read_seq.len() == v.read_seq.len() == 64
            &&& v.n_subs >= 64 ==> r is Err && r->Err_0 is NoSubscriberSlots && w.read_seq
                == v.read_seq
            &&& v.n_subs < 64 ==> {
                &&& r is Ok
                &&& r->Ok_0.well_formed()
                &&& r->Ok_0.bus() == *bus
                &&& r->Ok_0.place() == v.n_subs
                &&& w.read_seq[v.n_subs as int] == v.write_seq
                &&& forall|i: int|
                    0 <= i < 64 && i != v.n_subs ==> #[trigger] w.read_seq[i] == v.read_seq[i]
            }
        }),
{
    bus.lemma_shape(mem@);
}

/// Whether a subscriber that has a place has fallen a ring or more behind the next sequence number,
/// or the write sequence has.
pub open spec fn held_back(v: BusView) -> bool {
    ||| v.claim_seq >= v.write_seq + v.capacity
    ||| exists|i: int|
        0 <= i < v.n_subs && i < 64 && v.claim_seq >= #[trigger] v.read_seq[i] + v.capacity
}

proof fn lemma_held_back(v: BusView)
    ensures
        v.room() <==> !held_back(v),
{
    crate::fanout::lemma_least(v.read_seq, v.active(), v.write_seq);
}

/// Whether `w` is what a bus that held `v` holds when `data` was published on it: the slot of the
/// next sequence number holds the message and says so, that number goes up by one, the write
/// sequence goes on to the first message that is not there, and nothing else changes.
pub open spec fn appended(v: BusView, data: Seq<u8>, w: BusView) -> bool {
    let at = v.claim_seq as int % v.capacity as int;
    &&& w.claim_seq == v.claim_seq + 1
    &&& w.capacity == v.capacity
    &&& w.slot_bytes == v.slot_bytes
    &&& w.n_subs == v.n_subs
    &&& w.read_seq == v.read_seq
    &&& w.slots.len() == v.slots.len()
    &&& w.slots[at].seq == v.claim_seq + 1
    &&& data.len() <= u32::MAX ==> w.slots[at].len == data.len()
    &&& w.slots[at].payload.len() == v.slots[at].payload.len()
    &&& forall|i: int| 0 <= i < data.len() ==> #[trigger] w.slots[at].payload[i] == data[i]
    &&& forall|i: int|
        data.len() <= i < v.slots[at].payload.len() ==> #[trigger] w.slots[at].payload[i]
            == v.slots[at].payload[i]
    &&& forall|k: int|
        0 <= k < v.slots.len() && k != at ==> #[trigger] w.slots[k] == v.slots[k]
    &&& v.write_seq <= w.write_seq
    &&& forall|s: int|
        v.write_seq <= s < w.write_seq ==> (#[trigger] w.slots[s % v.capacity as int]).seq == s + 1
    &&& w.slots[w.write_seq as int % v.capacity as int].seq != w.write_seq + 1
}

proof fn lemma_appended(v: BusView, data: Seq<u8>, w: BusView)
    requires
        v.shaped(),
        data.len() <= v.slot_bytes,
        v.claim_seq < u64::MAX,
        v.published(data, w),
    ensures
        appended(v, data, w),
{
    let at = v.slot_of(v.claim_seq as int);
    assert(0 <= at < v.slots.len());
    assert(v.slots[at].payload.len() == v.slot_bytes);
    assert forall|s: int| v.write_seq <= s < w.write_seq implies (#[trigger] w.slots[s
        % v.capacity as int]).seq == s + 1 by {
        assert(v.filled(data).committed(s));
    }
}

/// An attempt to publish is refused for good if the message is empty or longer than a slot, and for
/// now if someone is a ring behind; either way the memory stays as it is. Else the message is
/// published.
pub proof fn law_attempt_publishes_or_changes_nothing<'a>(
    p: &Producer<'a>,
    mem: &mut [u8],
    payload: &[u8],
    r: Result<bool, BusError>,
)
    requires
        p.bus().maps(mem@),
        p.bus().view(mem@).claim_seq < u64::MAX,
        call_ensures(Producer::<'a>::try_publish, (p, mem, payload), r),
    ensures
        ({
            let v = p.bus().view(old(mem)@);
            let w = p.bus().view(final(mem)@);
            &&& p.bus().maps(final(mem)@)
            &&& if payload@.len() == 0 || payload@.len() > v.slot_bytes {
                r is Err && r->Err_0 is MsgTooLarge && final(mem)@ == old(mem)@
            } else if held_back(v) {
                r == Ok::<bool, BusError>(false) && final(mem)@ == old(mem)@
            } else {
                r == Ok::<bool, BusError>(true) && appended(v, payload@, w)
            }
        }),
{
    let v = p.bus().view(mem@);
    p.bus().lemma_shape(mem@);
    lemma_held_back(v);
    if r == Ok::<bool, BusError>(true) {
        lemma_appended(v, payload@, p.bus().view(final(mem)@));
    }
}

/// A message is published unless it is empty or longer than a slot; then the memory stays as it is.
pub proof fn law_publication_appends<'a>(
    p: &Producer<'a>,
    mem: &mut [u8],
    payload: &[u8],
    r: Result<(), BusError>,
)
    requires
        p.bus().maps(mem@),
        p.bus().view(mem@).claim_seq < u64::MAX,
        call_ensures(Producer::<'a>::publish, (p, mem, payload), r),
    ensures
        ({
            let v = p.bus().view(old(mem)@);
            let w = p.bus().view(final(mem)@);
            &&& p.bus().maps(final(mem)@)
            &&& if payload@.len() == 0 || payload@.len() > v.slot_bytes {
                r is Err && r->Err_0 is MsgTooLarge && final(mem)@ == old(mem)@
            } else {
                r is Ok && appended(v, payload@, w)
            }
        }),
{
    let v = p.bus().view(mem@);
    p.bus().lemma_shape(mem@);
    if r is Ok {
        lemma_appended(v, payload@, p.bus().view(final(mem)@));
    }
}

/// An attempt to receive looks at the slot of the read sequence of the subscriber. If that slot was
/// not committed for it, there is nothing; if the length that it states is more than the buffer
/// holds, the message stays. Else the buffer begins with that many bytes of the slot, the rest of
/// it stays, and the read sequence goes up by one; nothing else changes.
pub proof fn law_receipt_reads_the_slot<'a>(
    s: &Subscriber<'a>,
    mem: &mut [u8],
    out: &mut [u8],
    r: Result<Option<usize>, BusError>,
)
    requires
        s.well_formed(),
        s.bus().maps(mem@),
        s.readable(mem@, out@.len() as int),
        call_ensures(Subscriber::<'a>::try_recv, (s, mem, out), r),
    ensures
        ({
            let v = s.bus().view(old(mem)@);
            let w = s.bus().view(final(mem)@);
            let read = v.read_seq[s.place()];
            let slot = v.slots[read as int % v.capacity as int];
            &&& s.bus().maps(final(mem)@)
            &&& final(out)@.len() == old(out)@.len()
            &&& if slot.seq != read + 1 {
                &&& r == Ok::<Option<usize>, BusError>(None)
                &&& final(mem)@ == old(mem)@
                &&& final(out)@ == old(out)@
            } else if slot.len > old(out)@.len() {
                &&& r == Err::<Option<usize>, BusError>(BusError::MsgTooLarge)
                &&& final(mem)@ == old(mem)@
                &&& final(out)@ == old(out)@
            } else {
                &&& r == Ok::<Option<usize>, BusError>(Some(slot.len as usize))
                &&& forall|i: int|
                    0 <= i < slot.len ==> #[trigger] final(out)@[i] == slot.payload[i]
                &&& forall|i: int|
                    slot.len <= i < old(out)@.len() ==> #[trigger] final(out)@[i] == old(out)@[i]
                &&& w.read_seq.len() == v.read_seq.len()
                &&& w.read_seq[s.place()] == read + 1
                &&& forall|i: int|
                    0 <= i < v.read_seq.len() && i != s.place() ==> #[trigger] w.read_seq[i]
                        == v.read_seq[i]
                &&& w.write_seq == v.write_seq
                &&& w.claim_seq == v.claim_seq
                &&& w.n_subs == v.n_subs
                &&& w.capacity == v.capacity
                &&& w.slot_bytes == v.slot_bytes
                &&& w.slots == v.slots
            }
        }),
{
    let v = s.bus().view(mem@);
    let read = v.read_seq[s.place()] as int;
    s.bus().lemma_shape(mem@);
    assert(v.slots[v.slot_of(read)].payload.len() == v.slot_bytes);
    assert(out.len() == out@.len());
}

/// One turn of a blocking receipt does what an attempt does. What the attempt gave, a message or an
/// error, is the end; if it gave nothing, the end is an error once the time is up.
pub proof fn law_blocking_receipt_is_an_attempt<'a>(
    s: &Subscriber<'a>,
    mem: &mut [u8],
    out: &mut [u8],
    elapsed_ns: u128,
    timeout_ns: u128,
    r: Option<Result<usize, BusError>>,
    mem2: &mut [u8],
    out2: &mut [u8],
    r2: Result<Option<usize>, BusError>,
)
    requires
        s.well_formed(),
        s.bus().maps(mem@),
        s.readable(mem@, out@.len() as int),
        call_ensures(
            Subscriber::<'a>::recv_blocking,
            (s, mem, out, elapsed_ns, timeout_ns),
            r,
        ),
        mem2@ == mem@,
        out2@ == out@,
        call_ensures(Subscriber::<'a>::try_recv, (s, mem2, out2), r2),
    ensures
        final(out)@ == final(out2)@,
        s.bus().view(final(mem)@) == s.bus().view(final(mem2)@),
        r2 is Err ==> r == Some(Err::<usize, BusError>(r2->Err_0)),
        r2 is Ok && r2->Ok_0 is Some ==> r == Some(Ok::<usize, BusError>(r2->Ok_0->0)),
        r2 is Ok && r2->Ok_0 is None && elapsed_ns >= timeout_ns ==> r == Some(
            Err::<usize, BusError>(BusError::NotReady),
        ),
        r2 is Ok && r2->Ok_0 is None && elapsed_ns < timeout_ns ==> r is None,
{
}

/// What a turn of a blocking receipt comes to: what was received, or an error, is the end; nothing
/// is the end once the time is up.
pub proof fn law_turn_ends_with_a_message_or_the_time(
    received: Result<Option<usize>, BusError>,
    elapsed_ns: u128,
    timeout_ns: u128,
    r: Option<Result<usize, BusError>>,
)
    requires
        call_ensures(recv_turn, (received, elapsed_ns, timeout_ns), r),
    ensures
        received is Err ==> r == Some(Err::<usize, BusError>(received->Err_0)),
        received is Ok && received->Ok_0 is Some ==> r == Some(
            Ok::<usize, BusError>(received->Ok_0->0),
        ),
        received is Ok && received->Ok_0 is None && elapsed_ns >= timeout_ns ==> r == Some(
            Err::<usize, BusError>(BusError::NotReady),
        ),
        received is Ok && received->Ok_0 is None && elapsed_ns < timeout_ns ==> r is None,
{
}

/// What is received is passed on whole, with its length, or not at all, if it is empty or longer
/// than a slot of the destination. Nothing and errors are passed on as they are.
pub proof fn law_relay_passes_whole_messages(
    received: Result<Option<usize>, BusError>,
    dst: &BusHandle,
    mem: Seq<u8>,
    r: Result<Option<usize>, BusError>,
)
    requires
        dst.maps(mem),
        call_ensures(relay_turn, (received, dst), r),
    ensures
        received is Err ==> r == received,
        received is Ok && received->Ok_0 is None ==> r == received,
        received is Ok && received->Ok_0 is Some ==> {
            let n = received->Ok_0->0;
            if n == 0 || n > layout::word(mem, 24) {
                r is Err && r->Err_0 is MsgTooLarge
            } else {
                r == received
            }
        },
{
    dst.lemma_header(mem);
    reveal(power2::is_pow2);
    layout::law_view_is_read_off_the_bytes(mem, dst.ring(), dst.slot_size(), 0, 0);
}

/// A relay is an attempt to receive, and the publication of the message that was received, if one
/// was. The result is that of the attempt, unless the publication is refused.
pub proof fn law_relay_receives_and_publishes<'a>(
    src: &Subscriber<'a>,
    src_mem: &mut [u8],
    dst: &Producer<'a>,
    dst_mem: &mut [u8],
    scratch: &mut [u8],
    r: Result<Option<usize>, BusError>,
    src_mem2: &mut [u8],
    scratch2: &mut [u8],
    received: Result<Option<usize>, BusError>,
    dst_mem2: &mut [u8],
    message: &[u8],
    sent: Result<(), BusError>,
)
    requires
        src.well_formed(),
        src.bus().maps(src_mem@),
        src.readable(src_mem@, scratch@.len() as int),
        dst.bus().maps(dst_mem@),
        dst.bus().view(dst_mem@).claim_seq < u64::MAX,
        call_ensures(relay_once, (src, src_mem, dst, dst_mem, scratch), r),
        src_mem2@ == src_mem@,
        scratch2@ == scratch@,
        call_ensures(Subscriber::<'a>::try_recv, (src, src_mem2, scratch2), received),
        dst_mem2@ == dst_mem@,
        received is Ok && received->Ok_0 is Some ==> message@ == final(scratch2)@.take(
            received->Ok_0->0 as int,
        ) && call_ensures(Producer::<'a>::publish, (dst, dst_mem2, message), sent),
    ensures
        src.bus().maps(final(src_mem)@),
        dst.bus().maps(final(dst_mem)@),
        src.bus().view(final(src_mem)@) == src.bus().view(final(src_mem2)@),
        final(scratch)@ == final(scratch2)@,
        received is Err || received->Ok_0 is None ==> r == received && final(dst_mem)@ == old(
            dst_mem)@,
        received is Ok && received->Ok_0 is Some ==> {
            &&& sent is Ok ==> r == received && dst.bus().view(final(dst_mem)@) == dst.bus().view(
                final(dst_mem2)@,
            )
            &&& sent is Err ==> r == Err::<Option<usize>, BusError>(sent->Err_0) && final(dst_mem)@
                == old(dst_mem)@
        },
{
    let v = src.bus().view(src_mem@);
    let d = dst.bus().view(dst_mem@);
    let seq = v.read_seq[src.place()] as int;
    src.bus().lemma_shape(src_mem@);
    dst.bus().lemma_shape(dst_mem@);
    assert(v.slots[v.slot_of(seq)].payload.len() == v.slot_bytes);
    assert(scratch.len() == scratch@.len());
    if received is Ok && received->Ok_0 is Some {
        assert(message@ =~= v.message(seq));
        if sent is Ok {
            let x = dst.bus().view(final(dst_mem)@);
            let y = dst.bus().view(final(dst_mem2)@);
            assert(d.published(message@, x));
            assert(d.published(message@, y));
            if x.write_seq < y.write_seq {
                assert(d.filled(message@).committed(x.write_seq as int));
            } else if y.write_seq < x.write_seq {
                assert(d.filled(message@).committed(y.write_seq as int));
            }
        }
    }
}

/// What an access finds and changes in the memory of a bus: each loads, stores, adds to or exchanges
/// the number that it names, or copies to or from the payload area that it names, and changes
/// nothing else.
pub proof fn law_access_is_performed(
    bus: &BusHandle,
    mem: &mut [u8],
    a: Access,
    data: &[u8],
    out: &mut [u8],
    reply: Reply,
)
    requires
        bus.maps(mem@),
        protocol::in_bounds(bus.view(mem@), a, data@, out@.len() as int),
        call_ensures(BusHandle::perform, (bus, mem, a, data, out), reply),
    ensures
        ({
            let v = bus.view(old(mem)@);
            let w = bus.view(final(mem)@);
            &&& bus.maps(final(mem)@)
            &&& w.capacity == v.capacity
            &&& w.slot_bytes == v.slot_bytes
            &&& final(out)@ != old(out)@ ==> a is Copy
            &&& match a {
                Access::LoadClaim => final(mem)@ == old(mem)@ && reply == Reply::Value(v.claim_seq),
                Access::LoadSubs => final(mem)@ == old(mem)@ && reply == Reply::Value(
                    v.n_subs as u64,
                ),
                Access::LoadWrite => final(mem)@ == old(mem)@ && reply == Reply::Value(v.write_seq),
                Access::LoadRead { sub } => final(mem)@ == old(mem)@ && reply == Reply::Value(
                    v.read_seq[sub as int],
                ),
                Access::LoadSeq { slot } => final(mem)@ == old(mem)@ && reply == Reply::Value(
                    v.slots[slot as int].seq,
                ),
                Access::LoadLen { slot } => final(mem)@ == old(mem)@ && reply == Reply::Value(
                    v.slots[slot as int].len as u64,
                ),
                Access::AddClaim => {
                    &&& reply == Reply::Value(v.claim_seq)
                    &&& w.claim_seq == (v.claim_seq + 1) % 0x1_0000_0000_0000_0000
                    &&& w == (BusView { claim_seq: w.claim_seq, ..v })
                },
                Access::AddSubs => {
                    &&& reply == Reply::Value(v.n_subs as u64)
                    &&& w.n_subs == (v.n_subs + 1) % 0x1_0000_0000
                    &&& w == (BusView { n_subs: w.n_subs, ..v })
                },
                Access::SwapClaim { expected } => if v.claim_seq == expected {
                    &&& reply == Reply::Swapped(true)
                    &&& w.claim_seq == (expected + 1) % 0x1_0000_0000_0000_0000
                    &&& w == (BusView { claim_seq: w.claim_seq, ..v })
                } else {
                    reply == Reply::Swapped(false) && final(mem)@ == old(mem)@
                },
                Access::SwapWrite { expected } => if v.write_seq == expected {
                    &&& reply == Reply::Swapped(true)
                    &&& w.write_seq == (expected + 1) % 0x1_0000_0000_0000_0000
                    &&& w == (BusView { write_seq: w.write_seq, ..v })
                } else {
                    reply == Reply::Swapped(false) && final(mem)@ == old(mem)@
                },
                Access::StoreRead { sub, seq } => {
                    &&& reply is Made
                    &&& w == (BusView { read_seq: v.read_seq.update(sub as int, seq), ..v })
                },
                Access::StoreSeq { slot, seq } => {
                    let s = SlotView { seq, ..v.slots[slot as int] };
                    &&& reply is Made
                    &&& w == (BusView { slots: v.slots.update(slot as int, s), ..v })
                },
                Access::StoreLen { slot, len } => {
                    let s = SlotView { len, ..v.slots[slot as int] };
                    &&& reply is Made
                    &&& w == (BusView { slots: v.slots.update(slot as int, s), ..v })
                },
                Access::Fill { slot } => {
                    let s = w.slots[slot as int];
                    let was = v.slots[slot as int];
                    &&& reply is Made
                    &&& w == (BusView { slots: v.slots.update(slot as int, s), ..v })
                    &&& s.seq == was.seq
                    &&& s.len == was.len
                    &&& s.payload.len() == was.payload.len()
                    &&& forall|i: int|
                        0 <= i < data@.len() ==> #[trigger] s.payload[i] == data@[i]
                    &&& forall|i: int|
                        data@.len() <= i < was.payload.len() ==> #[trigger] s.payload[i]
                            == was.payload[i]
                },
                Access::Copy { slot, len } => {
                    &&& reply is Made
                    &&& final(mem)@ == old(mem)@
                    &&& final(out)@.len() == old(out)@.len()
                    &&& forall|i: int|
                        0 <= i < len ==> #[trigger] final(out)@[i]
                            == v.slots[slot as int].payload[i]
                    &&& forall|i: int|
                        len <= i < old(out)@.len() ==> #[trigger] final(out)@[i] == old(out)@[i]
                },
                Access::Yield => reply is Made && final(mem)@ == old(mem)@,
                Access::Finish => reply is Made && final(mem)@ == old(mem)@,
            }
        }),
{
    let v = bus.view(mem@);
    bus.lemma_shape(mem@);
    bus.lemma_shape(final(mem)@);
    match a {
        Access::Fill { slot } => {
            assert(v.slots[slot as int].payload.len() == v.slot_bytes);
        },
        Access::Copy { slot, len } => {
            assert(v.slots[slot as int].payload.len() == v.slot_bytes);
        },
        _ => {},
    }
}

} // verus!
