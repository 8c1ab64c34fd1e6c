//! Worst fit: a request goes into the largest free span.

use std::collections::VecDeque;
use vstd::prelude::*;
use crate::strategies::{MemAllocator, MemoryRegion, MemoryRequest, Pid, FINAL_MEM_REGION_PID};
use crate::strategies::engine::{
    drain_queue,
    empty_regions,
    lemma_dealloc_valid,
    lemma_drain_settles,
    lemma_drain_valid,
    lemma_tick_leaves_no_room,
    lemma_tick_valid,
    queue_to_vec,
    settle,
    AllocatorState,
    Policy,
};
use crate::strategies::region_list::{
    age_regions,
    fits,
    has_room,
    is_well_formed,
    lemma_spans_fill_capacity,
    no_adjacent_duplicates,
    span_size,
    total_span_size,
    well_formed,
};

verus! {

/// Span `i` is the worst fit for `size`: it fits, no fitting span is
/// larger, and among the fitting spans of its own size it comes first.
pub open spec fn is_worst_fit(r: Seq<MemoryRegion>, size: u32, i: int) -> bool {
    &&& fits(r, i, size)
    &&& forall|j: int|
        fits(r, j, size) ==> span_size(r, i) > span_size(r, j) || (span_size(r, i) == span_size(
            r,
            j,
        ) && i <= j)
}

/// The span that worst fit chooses for `size`, if any span fits.
pub open spec fn worst_fit(r: Seq<MemoryRegion>, size: u32) -> Option<int> {
    if exists|i: int| is_worst_fit(r, size, i) {
        Some(choose|i: int| is_worst_fit(r, size, i))
    } else {
        None
    }
}

/// At most one span is the worst fit.
pub proof fn lemma_worst_fit_unique(r: Seq<MemoryRegion>, size: u32, i: int, j: int)
    requires
        is_worst_fit(r, size, i),
        is_worst_fit(r, size, j),
    ensures
        i == j,
{
}

/// The worst fit among the first `k` spans, given that one of them fits.
proof fn lemma_worst_among(r: Seq<MemoryRegion>, size: u32, k: int) -> (worst: int)
    requires
        0 <= k <= r.len() - 1,
        exists|j: int| 0 <= j < k && fits(r, j, size),
    ensures
        0 <= worst < k,
        fits(r, worst, size),
        forall|j: int|
            0 <= j < k && fits(r, j, size) ==> span_size(r, worst) > span_size(r, j) || (span_size(
                r,
                worst,
            ) == span_size(r, j) && worst <= j),
    decreases k,
{
    if exists|j: int| 0 <= j < k - 1 && fits(r, j, size) {
        let before = lemma_worst_among(r, size, k - 1);
        if fits(r, k - 1, size) && span_size(r, k - 1) > span_size(r, before) {
            k - 1
        } else {
            before
        }
    } else {
        k - 1
    }
}

/// Worst fit finds a span exactly when some span fits.
pub proof fn lemma_worst_fit_decides(r: Seq<MemoryRegion>, size: u32)
    ensures
        worst_fit(r, size) is Some <==> has_room(r, size),
        worst_fit(r, size) matches Some(i) ==> is_worst_fit(r, size, i),
{
    if has_room(r, size) {
        let j = choose|j: int| fits(r, j, size);
        assert(0 <= j < r.len() - 1 && fits(r, j, size));
        let worst = lemma_worst_among(r, size, r.len() - 1);
        assert(is_worst_fit(r, size, worst));
    }
}

/// Worst fit is maximal: whenever it places a request, no other span that
/// could have held the request is larger than the one it chose, and none of
/// the same size comes before it.
pub proof fn lemma_worst_fit_maximal(r: Seq<MemoryRegion>, size: u32, other: int)
    requires
        worst_fit(r, size) is Some,
        fits(r, other, size),
    ensures
        span_size(r, worst_fit(r, size)->0) >= span_size(r, other),
        span_size(r, worst_fit(r, size)->0) == span_size(r, other) ==> worst_fit(r, size)->0
            <= other,
{
    lemma_worst_fit_decides(r, size);
}

/// Searches the free spans for the largest one, provided it holds `size`
/// units, taking the first of several equally large ones.
pub fn find_worst_fit(mem: &Vec<MemoryRegion>, size: u32) -> (found: Option<usize>)
    requires
        well_formed(mem@),
    ensures
        found is Some <==> has_room(mem@, size),
        found matches Some(i) ==> is_worst_fit(mem@, size, i as int),
        found matches Some(i) ==> worst_fit(mem@, size) == Some(i as int),
        found is None ==> worst_fit(mem@, size) is None,
{
    let mut found: Option<usize> = None;
    let mut largest: u32 = 0;
    let mut i: usize = 0;
    while i < mem.len() - 1
        invariant
            well_formed(mem@),
            i <= mem.len() - 1,
            found is None ==> forall|j: int| 0 <= j < i ==> !fits(mem@, j, size),
            found matches Some(k) ==> {
                &&& k < i
                &&& fits(mem@, k as int, size)
                &&& largest == span_size(mem@, k as int)
                &&& forall|j: int|
                    0 <= j < i && fits(mem@, j, size) ==> largest > span_size(mem@, j) || (largest
                        == span_size(mem@, j) && k <= j)
            },
        decreases mem.len() - i,
    {
        assert(mem@[i as int].1 <= mem@[i as int + 1].1);
        if mem[i].0.is_none() {
            let room = mem[i + 1].1 - mem[i].1;
            if size <= room {
                let better = match found {
                    Some(_) => room > largest,
                    None => true,
                };
                if better {
                    found = Some(i);
                    largest = room;
                }
            }
        }
        i += 1;
    }
    proof {
        match found {
            Some(k) => {
                assert(is_worst_fit(mem@, size, k as int));
                lemma_worst_fit_unique(
                    mem@,
                    size,
                    k as int,
                    choose|j: int| is_worst_fit(mem@, size, j),
                );
            },
            None => {
                assert forall|j: int| !is_worst_fit(mem@, size, j) by {}
            },
        }
    }
    found
}

/// An allocator that places every request by worst fit.
#[derive(Debug, Hash, Eq, PartialEq)]
pub struct WorstFit {
    reqs: VecDeque<MemoryRequest>,
    mem: Vec<MemoryRegion>,
    time: u32,
}

impl WorstFit {
    #[verifier::type_invariant]
    spec fn inv(self) -> bool {
        well_formed(self.mem@)
    }

    /// An allocator over `mem_size` units of free memory, with nothing
    /// waiting.
    pub fn new(mem_size: u32) -> (out: Self)
        ensures
            out.state() == (AllocatorState {
                regions: empty_regions(mem_size),
                pending: Seq::empty(),
                ticks: 0,
                policy: Policy::WorstFit,
            }),
            out.state().valid(),
            total_span_size(out.state().regions) == mem_size,
    {
        let mut mem: Vec<MemoryRegion> = Vec::new();
        mem.push(MemoryRegion(None, 0));
        mem.push(MemoryRegion(Some((Pid(FINAL_MEM_REGION_PID), -1)), mem_size));
        assert(mem@ == empty_regions(mem_size));
        proof {
            lemma_spans_fill_capacity(mem@);
        }
        Self { reqs: VecDeque::new(), mem, time: 0 }
    }

    /// An allocator that starts from the region list `mem`, with nothing
    /// waiting. A list that is not well formed is turned down.
    pub fn from_regions(mem: Vec<MemoryRegion>) -> (out: Option<Self>)
        ensures
            out is Some <==> well_formed(mem@),
            out matches Some(allocator) ==> allocator.state() == (AllocatorState {
                regions: mem@,
                pending: Seq::empty(),
                ticks: 0,
                policy: Policy::WorstFit,
            }) && allocator.state().valid(),
    {
        if is_well_formed(&mem) {
            Some(Self { reqs: VecDeque::new(), mem, time: 0 })
        } else {
            None
        }
    }

    /// How many ticks this allocator has been through.
    pub fn ticks(&self) -> (n: u32)
        ensures
            n == self.state().ticks,
    {
        self.time
    }

    /// Goes through the waiting requests once, in arrival order, and places
    /// each one that worst fit finds a span for. The others keep waiting, in
    /// their old order.
    pub fn fullfill_reqs(self) -> (out: Self)
        ensures
            out.state() == self.state().fulfill(),
            out.state().valid(),
            out.state().fulfill() == out.state(),
            total_span_size(out.state().regions) == total_span_size(self.state().regions),
    {
        proof {
            use_type_invariant(&self);
            lemma_drain_valid(Policy::WorstFit, self.mem@, self.reqs@);
            lemma_drain_settles(Policy::WorstFit, self.mem@, self.reqs@);
        }
        let mut mem = self.mem;
        let (_, reqs) = drain_queue(Policy::WorstFit, &mut mem, &self.reqs);
        Self { reqs, mem, time: self.time }
    }

    /// Frees the spans whose occupants have lifetime 0 and merges
    /// neighbouring spans with the same tag.
    pub fn dealloc(&self) -> (out: Self)
        ensures
            out.state() == self.state().dealloc(),
            out.state().valid(),
            no_adjacent_duplicates(out.state().regions),
            total_span_size(out.state().regions) == total_span_size(self.state().regions),
    {
        proof {
            use_type_invariant(self);
            lemma_dealloc_valid(self.state());
        }
        let (_, mem) = settle(Policy::WorstFit, &self.mem);
        Self { reqs: self.reqs.clone(), mem, time: self.time }
    }
}

impl Clone for WorstFit {
    fn clone(&self) -> (out: Self)
        ensures
            out.state() == self.state(),
    {
        proof {
            use_type_invariant(self);
        }
        Self { reqs: self.reqs.clone(), mem: self.mem.clone(), time: self.time }
    }
}

impl MemAllocator for WorstFit {
    closed spec fn state(&self) -> AllocatorState {
        AllocatorState {
            regions: self.mem@,
            pending: self.reqs@,
            ticks: self.time as nat,
            policy: Policy::WorstFit,
        }
    }

    fn request(&self, req: MemoryRequest) -> (out: Self) {
        proof {
            use_type_invariant(self);
        }
        let mut reqs = self.reqs.clone();
        reqs.push_back(req);
        Self { reqs, mem: self.mem.clone(), time: self.time }
    }

    fn tick(&self) -> (out: (Vec<MemoryRegion>, Vec<MemoryRequest>, Self)) {
        proof {
            use_type_invariant(self);
            lemma_tick_valid(self.state());
            lemma_tick_leaves_no_room(self.state());
        }
        let mut mem = self.mem.clone();
        age_regions(&mut mem);
        let aged = Self { reqs: self.reqs.clone(), mem, time: self.time + 1 };
        let out = aged.dealloc().fullfill_reqs();
        (out.mem.clone(), queue_to_vec(&out.reqs), out)
    }
}


} // verus!
