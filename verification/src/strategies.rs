//! The data model shared by every placement strategy, and the interface each
//! strategy offers.

use vstd::prelude::*;
use crate::strategies::engine::AllocatorState;
use crate::strategies::region_list::{has_room, total_span_size};

pub mod best_fit;
pub mod engine;
pub mod next_fit;
pub mod region_list;
pub mod worst_fit;

pub use best_fit::BestFit;
pub use next_fit::NextFit;
pub use worst_fit::WorstFit;

verus! {

type Addr = u32;

type Lifetime = i32;

/// The number a process goes by.
#[derive(PartialEq, Eq, Debug, Hash, Clone, Copy)]
pub struct Pid(pub u32);

/// This PID is special, it means that
/// following address space isn't accessible (e.g.
/// it's the final address in your address space).
pub const FINAL_MEM_REGION_PID: u32 = 999;

/// A Memory Region in the Memory.
/// The first field represents a process that owns
/// the region, if any, together with the ticks it has left.
/// The second field represents where it starts.
/// In order to know where it ends, check the next
/// memory regions start field (exclusive).
#[derive(PartialEq, Eq, Debug, Hash, Clone, Copy)]
pub struct MemoryRegion(pub Option<(Pid, Lifetime)>, pub Addr);

/// A Memory Request that needs to be served by the Memory
/// allocator. It holds a PID that's requesting the memory,
/// the size it's requesting in KB, and the number of ticks it
/// wants to keep the memory for.
#[derive(PartialEq, Eq, Debug, Hash, Clone, Copy)]
pub struct MemoryRequest {
    pub process: Pid,
    pub size: u32,
    pub lifetime: u32,
}

/// This MemAllocator API is an immutable API. When working with
/// a MemAllocator, (e.g. doing an allocation) - it returns a new
/// instance of the allocator with the modifications applied.
/// Although from a performance and real-world perspective this API
/// doesn't actually make much sense (your computer isn't storing
/// the current copy of memory, along with previous copies of memory),
/// it makes sense from a simulation perspective since it allows you
/// to step back and fourth, and reason about the changes over time.
pub trait MemAllocator where Self: Sized {
    /// What the allocator holds: its region list, its queue, its tick
    /// count and its placement policy.
    spec fn state(&self) -> AllocatorState;

    /// initializes a memory request, which returns a new
    /// instance of the allocator with the request logged.
    /// Nothing is placed yet.
    fn request(&self, req: MemoryRequest) -> (out: Self)
        ensures
            out.state() == self.state().enqueue(req),
            out.state().valid(),
    ;

    /// returns a new instance of the memory allocator after
    /// the tick, as well as a copy of the inner working
    /// memory and of the requests that still wait.
    fn tick(&self) -> (out: (Vec<MemoryRegion>, Vec<MemoryRequest>, Self))
        requires
            self.state().ticks < u32::MAX,
        ensures
            out.2.state() == self.state().tick(),
            out.2.state().valid(),
            out.0@ == out.2.state().regions,
            out.1@ == out.2.state().pending,
            total_span_size(out.0@) == total_span_size(self.state().regions),
            self.state().proper() ==> out.2.state().proper(),
            forall|k: int| 0 <= k < out.1@.len() ==> !has_room(out.0@, (#[trigger] out.1@[k]).size),
    ;
}

} // verus!
