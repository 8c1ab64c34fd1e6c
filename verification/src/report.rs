//! What playback shows of a region list: its spans as (owner, size) pairs,
//! and a few figures on how much of the memory is free.

use vstd::prelude::*;
use crate::strategies::{MemoryRegion, Pid};
use crate::strategies::region_list::{capacity, span_size, well_formed};

verus! {

/// Who holds a span: a process with the ticks it has left, or nobody.
#[derive(PartialEq, Eq, Clone, Copy, Debug)]
pub enum ProcessOrFree {
    Process(Pid, i32),
    Free,
}

/// Free and used memory in figures.
#[derive(PartialEq, Eq, Clone, Copy, Debug)]
pub struct Usage {
    /// The units of memory that are free.
    pub total_free: u32,
    /// The free units as a percentage of all units, rounded down.
    pub percent_free: u32,
    /// The number of free spans.
    pub holes: usize,
}

/// The owner that a marker's tag names.
pub open spec fn owner_of(m: MemoryRegion) -> ProcessOrFree {
    match m.0 {
        Some((pid, left)) => ProcessOrFree::Process(pid, left),
        None => ProcessOrFree::Free,
    }
}

/// The spans of a region list in address order, each with its owner and its
/// size. The sentinel contributes no span.
pub open spec fn frames_of(r: Seq<MemoryRegion>) -> Seq<(ProcessOrFree, u32)> {
    Seq::new((r.len() - 1) as nat, |i: int| (owner_of(r[i]), span_size(r, i) as u32))
}

/// The sizes of all frames, added up.
pub open spec fn size_total(frames: Seq<(ProcessOrFree, u32)>) -> int
    decreases frames.len(),
{
    if frames.len() == 0 {
        0
    } else {
        size_total(frames.drop_last()) + frames.last().1
    }
}

/// The sizes of the free frames, added up.
pub open spec fn free_total(frames: Seq<(ProcessOrFree, u32)>) -> int
    decreases frames.len(),
{
    if frames.len() == 0 {
        0
    } else if frames.last().0 is Free {
        free_total(frames.drop_last()) + frames.last().1
    } else {
        free_total(frames.drop_last())
    }
}

/// The number of free frames.
pub open spec fn hole_count(frames: Seq<(ProcessOrFree, u32)>) -> int
    decreases frames.len(),
{
    if frames.len() == 0 {
        0
    } else if frames.last().0 is Free {
        hole_count(frames.drop_last()) + 1
    } else {
        hole_count(frames.drop_last())
    }
}

/// Free frames are frames: what is free is no more than what there is, and
/// there are no more holes than frames.
pub proof fn lemma_free_within_total(frames: Seq<(ProcessOrFree, u32)>)
    ensures
        0 <= free_total(frames) <= size_total(frames),
        0 <= hole_count(frames) <= frames.len(),
    decreases frames.len(),
{
    if frames.len() > 0 {
        lemma_free_within_total(frames.drop_last());
    }
}

/// The frames of the first `k + 1` markers add up to the address of
/// marker `k`.
proof fn lemma_frames_prefix(r: Seq<MemoryRegion>, k: int)
    requires
        well_formed(r),
        0 <= k < r.len(),
    ensures
        size_total(frames_of(r.take(k + 1))) == r[k].1,
    decreases k,
{
    let f = frames_of(r.take(k + 1));
    if k > 0 {
        lemma_frames_prefix(r, k - 1);
        assert(r[k - 1].1 <= r[k].1);
        assert(f.drop_last() == frames_of(r.take(k)));
    }
}

/// The frames of a well-formed region list cover its address space: their
/// sizes add up to its capacity.
pub proof fn lemma_frames_fill_capacity(r: Seq<MemoryRegion>)
    requires
        well_formed(r),
    ensures
        size_total(frames_of(r)) == capacity(r),
{
    lemma_frames_prefix(r, r.len() - 1);
    assert(r.take(r.len() as int) == r);
}

/// Renders a region list as its spans: who owns each, and how large it is.
pub fn frames(mem: &Vec<MemoryRegion>) -> (out: Vec<(ProcessOrFree, u32)>)
    requires
        well_formed(mem@),
    ensures
        out@ == frames_of(mem@),
        size_total(out@) == capacity(mem@),
{
    let mut out: Vec<(ProcessOrFree, u32)> = Vec::with_capacity(mem.len() - 1);
    let mut i: usize = 0;
    while i < mem.len() - 1
        invariant
            well_formed(mem@),
            i <= mem.len() - 1,
            out.len() == i,
            forall|k: int| 0 <= k < i ==> out@[k] == frames_of(mem@)[k],
        decreases mem.len() - i,
    {
        assert(mem@[i as int].1 <= mem@[i as int + 1].1);
        let region = mem[i];
        let size = mem[i + 1].1 - region.1;
        let owner = match region.0 {
            Some((pid, lifetime)) => ProcessOrFree::Process(pid, lifetime),
            None => ProcessOrFree::Free,
        };
        out.push((owner, size));
        i += 1;
    }
    proof {
        assert(out@ == frames_of(mem@));
        lemma_frames_fill_capacity(mem@);
    }
    out
}

/// Adds up the sizes of all frames. Gives nothing if the sum does not fit.
pub fn total_size(info: &Vec<(ProcessOrFree, u32)>) -> (out: Option<u32>)
    ensures
        out matches Some(total) ==> total == size_total(info@),
        out is None ==> size_total(info@) > u32::MAX,
{
    let mut total: u32 = 0;
    let mut i: usize = 0;
    while i < info.len()
        invariant
            i <= info.len(),
            total == size_total(info@.take(i as int)),
        decreases info.len() - i,
    {
        proof {
            assert(info@.take(i as int + 1).drop_last() == info@.take(i as int));
            lemma_size_total_grows(info@, i as int + 1);
        }
        match total.checked_add(info[i].1) {
            Some(sum) => {
                total = sum;
            },
            None => {
                return None;
            },
        }
        i += 1;
    }
    assert(info@.take(info.len() as int) == info@);
    Some(total)
}

/// Adds up how much of the memory is free, in units and as a percentage,
/// and counts the free spans.
pub fn stats(info: &Vec<(ProcessOrFree, u32)>) -> (out: Usage)
    requires
        0 < size_total(info@) <= u32::MAX,
    ensures
        out.total_free == free_total(info@),
        out.percent_free == free_total(info@) * 100 / size_total(info@),
        out.holes == hole_count(info@),
{
    let mut total_free: u32 = 0;
    let mut total_full: u32 = 0;
    let mut holes: usize = 0;
    let mut i: usize = 0;
    while i < info.len()
        invariant
            i <= info.len(),
            size_total(info@) <= u32::MAX,
            total_free == free_total(info@.take(i as int)),
            total_full == size_total(info@.take(i as int)),
            holes == hole_count(info@.take(i as int)),
        decreases info.len() - i,
    {
        proof {
            assert(info@.take(i as int + 1).drop_last() == info@.take(i as int));
            lemma_size_total_grows(info@, i as int + 1);
            lemma_free_within_total(info@.take(i as int + 1));
        }
        let (owner, size) = info[i];
        total_full += size;
        match owner {
            ProcessOrFree::Free => {
                total_free += size;
                holes += 1;
            },
            ProcessOrFree::Process(_, _) => {},
        }
        i += 1;
    }
    proof {
        assert(info@.take(info.len() as int) == info@);
        lemma_free_within_total(info@);
        assert(total_free as int * 100 / (total_full as int) <= 100) by (nonlinear_arith)
            requires
                0 <= total_free <= total_full,
                0 < total_full,
        ;
    }
    let percent = (total_free as u64 * 100) / (total_full as u64);
    Usage { total_free, percent_free: percent as u32, holes }
}

/// The first `k` frames add up to no more than all of them.
proof fn lemma_size_total_grows(frames: Seq<(ProcessOrFree, u32)>, k: int)
    requires
        0 <= k <= frames.len(),
    ensures
        size_total(frames.take(k)) <= size_total(frames),
    decreases frames.len() - k,
{
    if k < frames.len() {
        lemma_size_total_grows(frames, k + 1);
        assert(frames.take(k + 1).drop_last() == frames.take(k));
    } else {
        assert(frames.take(k) == frames);
    }
}

} // verus!
