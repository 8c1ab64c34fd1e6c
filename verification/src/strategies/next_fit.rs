//! Next fit: a request goes into the first free span that can hold it,
//! searching onwards from where the last request was placed.

use std::collections::VecDeque;
use vstd::prelude::*;
use crate::strategies::{MemAllocator, MemoryRegion, MemoryRequest, Pid, FINAL_MEM_REGION_PID};
use crate::strategies::engine::{
    drain_queue,
    empty_regions,
    lemma_dealloc_valid,
    lemma_drain_settles,
    lemma_drain_valid,
    lemma_tick_leaves_no_room,
    lemma_tick_valid,
    queue_to_vec,
    settle,
    AllocatorState,
    Policy,
};
use crate::strategies::region_list::{
    age_regions,
    fits,
    has_room,
    is_well_formed,
    lemma_spans_fill_capacity,
    no_adjacent_duplicates,
    total_span_size,
    well_formed,
};

verus! {

/// How many spans the circular scan visits before span `i`, when it starts
/// just behind `cursor` and there are `spans` spans: the span after the
/// cursor comes first, the span at the cursor last.
pub open spec fn scan_rank(cursor: int, spans: int, i: int) -> int {
    if i > cursor {
        i - cursor - 1
    } else {
        i + spans - cursor - 1
    }
}

/// Span `i` is the next fit for `size`: it fits, and the scan meets no
/// fitting span before it.
pub open spec fn is_next_fit(r: Seq<MemoryRegion>, cursor: int, size: u32, i: int) -> bool {
    &&& fits(r, i, size)
    &&& forall|j: int|
        fits(r, j, size) ==> scan_rank(cursor, r.len() - 1, i) <= scan_rank(
            cursor,
            r.len() - 1,
            j,
        )
}

/// The span that next fit chooses for `size` with the cursor at `cursor`, if
/// any span fits.
pub open spec fn next_fit(r: Seq<MemoryRegion>, cursor: int, size: u32) -> Option<int> {
    if exists|i: int| is_next_fit(r, cursor, size, i) {
        Some(choose|i: int| is_next_fit(r, cursor, size, i))
    } else {
        None
    }
}

/// At most one span is the next fit.
pub proof fn lemma_next_fit_unique(r: Seq<MemoryRegion>, cursor: int, size: u32, i: int, j: int)
    requires
        0 <= cursor < r.len() - 1,
        is_next_fit(r, cursor, size, i),
        is_next_fit(r, cursor, size, j),
    ensures
        i == j,
{
}

/// The first fitting span among those that the scan visits in its first `k`
/// steps, given that one of them fits.
proof fn lemma_first_among(r: Seq<MemoryRegion>, cursor: int, size: u32, k: int) -> (first: int)
    requires
        0 <= cursor < r.len() - 1,
        0 <= k <= r.len() - 1,
        exists|j: int| fits(r, j, size) && scan_rank(cursor, r.len() - 1, j) < k,
    ensures
        fits(r, first, size),
        scan_rank(cursor, r.len() - 1, first) < k,
        forall|j: int|
            fits(r, j, size) && scan_rank(cursor, r.len() - 1, j) < k ==> scan_rank(
                cursor,
                r.len() - 1,
                first,
            ) <= scan_rank(cursor, r.len() - 1, j),
    decreases k,
{
    if exists|j: int| fits(r, j, size) && scan_rank(cursor, r.len() - 1, j) < k - 1 {
        lemma_first_among(r, cursor, size, k - 1)
    } else {
        choose|j: int| fits(r, j, size) && scan_rank(cursor, r.len() - 1, j) < k
    }
}

/// Next fit finds a span exactly when some span fits.
pub proof fn lemma_next_fit_decides(r: Seq<MemoryRegion>, cursor: int, size: u32)
    requires
        0 <= cursor < r.len() - 1,
    ensures
        next_fit(r, cursor, size) is Some <==> has_room(r, size),
        next_fit(r, cursor, size) matches Some(i) ==> is_next_fit(r, cursor, size, i),
{
    if has_room(r, size) {
        let j = choose|j: int| fits(r, j, size);
        assert(fits(r, j, size) && scan_rank(cursor, r.len() - 1, j) < r.len() - 1);
        let first = lemma_first_among(r, cursor, size, r.len() - 1);
        assert(is_next_fit(r, cursor, size, first));
    }
}

/// Next fit follows the scan: whenever it places a request, the span it
/// chose is the first span that fits on the way round from just behind the
/// cursor.
pub proof fn lemma_next_fit_first(r: Seq<MemoryRegion>, cursor: int, size: u32, other: int)
    requires
        0 <= cursor < r.len() - 1,
        next_fit(r, cursor, size) is Some,
        fits(r, other, size),
    ensures
        scan_rank(cursor, r.len() - 1, next_fit(r, cursor, size)->0) <= scan_rank(
            cursor,
            r.len() - 1,
            other,
        ),
        other != next_fit(r, cursor, size)->0 ==> scan_rank(
            cursor,
            r.len() - 1,
            next_fit(r, cursor, size)->0,
        ) < scan_rank(cursor, r.len() - 1, other),
{
    lemma_next_fit_decides(r, cursor, size);
}

/// Searches the free spans for one that holds `size` units, starting with
/// the span behind the cursor, wrapping round at the end of the list, and
/// ending with the span at the cursor.
pub fn find_next_fit(mem: &Vec<MemoryRegion>, cursor: usize, size: u32) -> (found: Option<usize>)
    requires
        well_formed(mem@),
        cursor < mem.len() - 1,
    ensures
        found is Some <==> has_room(mem@, size),
        found matches Some(i) ==> is_next_fit(mem@, cursor as int, size, i as int),
        found matches Some(i) ==> next_fit(mem@, cursor as int, size) == Some(i as int),
        found is None ==> next_fit(mem@, cursor as int, size) is None,
{
    let mut i: usize = cursor + 1;
    while i < mem.len() - 1
        invariant
            well_formed(mem@),
            cursor < i <= mem.len() - 1,
            forall|j: int| cursor < j < i ==> !fits(mem@, j, size),
        decreases mem.len() - i,
    {
        assert(mem@[i as int].1 <= mem@[i as int + 1].1);
        if mem[i].0.is_none() && size <= mem[i + 1].1 - mem[i].1 {
            proof {
                assert(is_next_fit(mem@, cursor as int, size, i as int));
                lemma_next_fit_unique(
                    mem@,
                    cursor as int,
                    size,
                    i as int,
                    choose|j: int| is_next_fit(mem@, cursor as int, size, j),
                );
            }
            return Some(i);
        }
        i += 1;
    }
    let mut i: usize = 0;
    while i <= cursor
        invariant
            well_formed(mem@),
            cursor < mem.len() - 1,
            i <= cursor + 1,
            forall|j: int| cursor < j < mem.len() - 1 ==> !fits(mem@, j, size),
            forall|j: int| 0 <= j < i ==> !fits(mem@, j, size),
        decreases cursor + 1 - i,
    {
        assert(mem@[i as int].1 <= mem@[i as int + 1].1);
        if mem[i].0.is_none() && size <= mem[i + 1].1 - mem[i].1 {
            proof {
                assert(is_next_fit(mem@, cursor as int, size, i as int));
                lemma_next_fit_unique(
                    mem@,
                    cursor as int,
                    size,
                    i as int,
                    choose|j: int| is_next_fit(mem@, cursor as int, size, j),
                );
            }
            return Some(i);
        }
        i += 1;
    }
    proof {
        assert forall|j: int| !fits(mem@, j, size) by {}
        assert forall|j: int| !is_next_fit(mem@, cursor as int, size, j) by {}
    }
    None
}

/// Marker `c` is where a cursor that stood at address `addr` belongs: the
/// first marker that opens a span exactly at `addr`, or, where no span
/// starts there, the last marker that opens a span before `addr`.
pub open spec fn covers(r: Seq<MemoryRegion>, addr: u32, c: int) -> bool {
    &&& 0 <= c < r.len() - 1
    &&& r[c].1 <= addr
    &&& if r[c].1 == addr {
        forall|j: int| 0 <= j < c ==> r[j].1 < addr
    } else {
        forall|j: int| c < j < r.len() - 1 ==> r[j].1 > addr
    }
}

/// The index of the marker that covers `addr`.
pub open spec fn cursor_at(r: Seq<MemoryRegion>, addr: u32) -> int {
    choose|c: int| covers(r, addr, c)
}

/// At most one marker covers an address.
pub proof fn lemma_covers_unique(r: Seq<MemoryRegion>, addr: u32, c: int, d: int)
    requires
        well_formed(r),
        covers(r, addr, c),
        covers(r, addr, d),
    ensures
        c == d,
{
    if c < d {
        assert(r[c].1 <= r[d].1);
    } else if d < c {
        assert(r[d].1 <= r[c].1);
    }
}

/// The first of the first `k` markers that stands at `addr` or behind it,
/// or `k` if they all stand before it.
proof fn lemma_first_at_or_behind(r: Seq<MemoryRegion>, addr: u32, k: int) -> (first: int)
    requires
        0 <= k <= r.len(),
    ensures
        0 <= first <= k,
        first < k ==> r[first].1 >= addr,
        forall|j: int| 0 <= j < first ==> r[j].1 < addr,
    decreases k,
{
    if k == 0 {
        0
    } else {
        let before = lemma_first_at_or_behind(r, addr, k - 1);
        if before < k - 1 || r[k - 1].1 >= addr {
            before
        } else {
            k
        }
    }
}

/// Every address has its marker: in a well-formed list a cursor can always
/// be found again.
pub proof fn lemma_cursor_exists(r: Seq<MemoryRegion>, addr: u32)
    requires
        well_formed(r),
    ensures
        covers(r, addr, cursor_at(r, addr)),
{
    let first = lemma_first_at_or_behind(r, addr, r.len() - 1);
    if first == r.len() - 1 {
        assert(covers(r, addr, r.len() - 2));
    } else if r[first].1 == addr {
        assert(covers(r, addr, first));
    } else {
        assert forall|j: int| first - 1 < j < r.len() - 1 implies r[j].1 > addr by {
            assert(r[first].1 <= r[j].1);
        }
        assert(covers(r, addr, first - 1));
    }
}

/// Finds the marker that a cursor belongs to after the list has changed
/// under it: the marker that now opens the span at the address the cursor
/// stood at, or the marker before that address if no span starts there.
pub fn locate(mem: &Vec<MemoryRegion>, addr: u32) -> (cursor: usize)
    requires
        well_formed(mem@),
    ensures
        covers(mem@, addr, cursor as int),
        cursor == cursor_at(mem@, addr),
        cursor < mem.len() - 1,
{
    let mut i: usize = 0;
    while i < mem.len() - 1 && mem[i].1 < addr
        invariant
            well_formed(mem@),
            i <= mem.len() - 1,
            forall|j: int| 0 <= j < i ==> mem@[j].1 < addr,
        decreases mem.len() - i,
    {
        i += 1;
    }
    let cursor = if i == mem.len() - 1 {
        mem.len() - 2
    } else if mem[i].1 == addr {
        i
    } else {
        assert(i > 0);
        assert forall|j: int| i - 1 < j < mem.len() - 1 implies mem@[j].1 > addr by {
            assert(mem@[i as int].1 <= mem@[j].1);
        }
        i - 1
    };
    proof {
        assert(covers(mem@, addr, cursor as int));
        lemma_covers_unique(mem@, addr, cursor as int, cursor_at(mem@, addr));
    }
    cursor
}

/// An allocator that places every request by next fit.
#[derive(Debug, Hash, Eq, PartialEq)]
pub struct NextFit {
    reqs: VecDeque<MemoryRequest>,
    mem: Vec<MemoryRegion>,
    // offset into the memory, which is where it's
    // last gone and placed a request.
    offset: usize,
    time: u32,
}

impl NextFit {
    #[verifier::type_invariant]
    spec fn inv(self) -> bool {
        &&& well_formed(self.mem@)
        &&& self.offset < self.mem@.len() - 1
    }

    /// An allocator over `mem_size` units of free memory, with nothing
    /// waiting and the cursor at the start.
    pub fn new(mem_size: u32) -> (out: Self)
        ensures
            out.state() == (AllocatorState {
                regions: empty_regions(mem_size),
                pending: Seq::empty(),
                ticks: 0,
                policy: Policy::NextFit { cursor: 0 },
            }),
            out.state().valid(),
            total_span_size(out.state().regions) == mem_size,
    {
        let mut mem: Vec<MemoryRegion> = Vec::new();
        mem.push(MemoryRegion(None, 0));
        mem.push(MemoryRegion(Some((Pid(FINAL_MEM_REGION_PID), -1)), mem_size));
        assert(mem@ == empty_regions(mem_size));
        proof {
            lemma_spans_fill_capacity(mem@);
        }
        Self { reqs: VecDeque::new(), mem, offset: 0, time: 0 }
    }

    /// An allocator that starts from the region list `mem`, with nothing
    /// waiting and the cursor at the start. A list that is not well formed
    /// is turned down.
    pub fn from_regions(mem: Vec<MemoryRegion>) -> (out: Option<Self>)
        ensures
            out is Some <==> well_formed(mem@),
            out matches Some(allocator) ==> allocator.state() == (AllocatorState {
                regions: mem@,
                pending: Seq::empty(),
                ticks: 0,
                policy: Policy::NextFit { cursor: 0 },
            }) && allocator.state().valid(),
    {
        if is_well_formed(&mem) {
            Some(Self { reqs: VecDeque::new(), mem, offset: 0, time: 0 })
        } else {
            None
        }
    }

    /// An allocator that starts from the region list `mem` with the cursor
    /// at the marker `cursor`, and with nothing waiting. It is turned down if
    /// the list is not well formed or the cursor points at no span.
    pub fn from_regions_at(mem: Vec<MemoryRegion>, cursor: usize) -> (out: Option<Self>)
        ensures
            out is Some <==> well_formed(mem@) && cursor < mem@.len() - 1,
            out matches Some(allocator) ==> allocator.state() == (AllocatorState {
                regions: mem@,
                pending: Seq::empty(),
                ticks: 0,
                policy: Policy::NextFit { cursor },
            }) && allocator.state().valid(),
    {
        if is_well_formed(&mem) && cursor < mem.len() - 1 {
            Some(Self { reqs: VecDeque::new(), mem, offset: cursor, time: 0 })
        } else {
            None
        }
    }

    /// How many ticks this allocator has been through.
    pub fn ticks(&self) -> (n: u32)
        ensures
            n == self.state().ticks,
    {
        self.time
    }

    /// The index of the marker where the last request was placed.
    pub fn cursor(&self) -> (at: usize)
        ensures
            self.state().policy == (Policy::NextFit { cursor: at }),
            at < self.state().regions.len() - 1,
    {
        proof {
            use_type_invariant(self);
        }
        self.offset
    }

    /// Goes through the waiting requests once, in arrival order, and places
    /// each one that next fit finds a span for, moving the cursor to where
    /// it went. The others keep waiting, in their old order.
    pub fn fullfill_reqs(self) -> (out: Self)
        ensures
            out.state() == self.state().fulfill(),
            out.state().valid(),
            out.state().fulfill() == out.state(),
            total_span_size(out.state().regions) == total_span_size(self.state().regions),
    {
        proof {
            use_type_invariant(&self);
            lemma_drain_valid(Policy::NextFit { cursor: self.offset }, self.mem@, self.reqs@);
            lemma_drain_settles(Policy::NextFit { cursor: self.offset }, self.mem@, self.reqs@);
        }
        let mut mem = self.mem;
        let (policy, reqs) = drain_queue(Policy::NextFit { cursor: self.offset }, &mut mem, &self.reqs);
        let offset = match policy {
            Policy::NextFit { cursor } => cursor,
            _ => 0,
        };
        Self { reqs, mem, offset, time: self.time }
    }

    /// Frees the spans whose occupants have lifetime 0, merges neighbouring
    /// spans with the same tag, and moves the cursor to the marker that now
    /// covers the address it stood at.
    pub fn dealloc(&self) -> (out: Self)
        ensures
            out.state() == self.state().dealloc(),
            out.state().valid(),
            no_adjacent_duplicates(out.state().regions),
            total_span_size(out.state().regions) == total_span_size(self.state().regions),
    {
        proof {
            use_type_invariant(self);
            lemma_dealloc_valid(self.state());
        }
        let (policy, mem) = settle(Policy::NextFit { cursor: self.offset }, &self.mem);
        let offset = match policy {
            Policy::NextFit { cursor } => cursor,
            _ => 0,
        };
        Self { reqs: self.reqs.clone(), mem, offset, time: self.time }
    }
}

impl Clone for NextFit {
    fn clone(&self) -> (out: Self)
        ensures
            out.state() == self.state(),
    {
        proof {
            use_type_invariant(self);
        }
        Self { reqs: self.reqs.clone(), mem: self.mem.clone(), offset: self.offset, time: self.time }
    }
}

impl MemAllocator for NextFit {
    closed spec fn state(&self) -> AllocatorState {
        AllocatorState {
            regions: self.mem@,
            pending: self.reqs@,
            ticks: self.time as nat,
            policy: Policy::NextFit { cursor: self.offset },
        }
    }

    fn request(&self, req: MemoryRequest) -> (out: Self) {
        proof {
            use_type_invariant(self);
        }
        let mut reqs = self.reqs.clone();
        reqs.push_back(req);
        Self { reqs, mem: self.mem.clone(), offset: self.offset, time: self.time }
    }

    fn tick(&self) -> (out: (Vec<MemoryRegion>, Vec<MemoryRequest>, Self)) {
        proof {
            use_type_invariant(self);
            lemma_tick_valid(self.state());
            lemma_tick_leaves_no_room(self.state());
        }
        let mut mem = self.mem.clone();
        age_regions(&mut mem);
        let aged = Self { reqs: self.reqs.clone(), mem, offset: self.offset, time: self.time + 1 };
        let out = aged.dealloc().fullfill_reqs();
        (out.mem.clone(), queue_to_vec(&out.reqs), out)
    }
}

} // verus!
