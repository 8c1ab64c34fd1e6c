//! The workload: a random stream of requests, drawn once before the
//! simulation starts.

use rand::Rng;
use rand::rngs::ThreadRng;
use vstd::prelude::*;
use crate::strategies::{MemoryRequest, Pid};

verus! {

/// `rand::rngs::ThreadRng`, the handle to a thread's random number
/// generator. It is carried from where it is made to where numbers are
/// drawn; nothing is known of what it holds.
#[verifier::external_type_specification]
#[verifier::external_body]
pub struct ExThreadRng(rand::rngs::ThreadRng);

/// `rand::thread_rng`: a handle to this thread's random number generator,
/// which the system seeds on first use. Nothing is claimed of the handle.
/// The call panics if the operating system gives no entropy for the seed.
#[verifier::external_body]
fn thread_generator() -> ThreadRng {
    rand::thread_rng()
}

/// `Rng::gen_range` on the range from 0 up to, not including, `bound`. The
/// range must not be empty; the number that comes back lies in it. Which
/// number it is, is left open. The generator seeds itself again from time to
/// time, and the call panics if the operating system then gives no entropy.
#[verifier::external_body]
fn draw_below(rng: &mut ThreadRng, bound: u32) -> (drawn: u32)
    requires
        bound > 0,
    ensures
        drawn < bound,
{
    rng.gen_range(0..bound)
}

/// The workload that the draws `draws` stand for: process `i` asks for
/// `draws[i].0` units for `draws[i].1` ticks.
pub open spec fn workload_of(draws: Seq<(u32, u32)>) -> Seq<MemoryRequest> {
    Seq::new(
        draws.len(),
        |i: int| MemoryRequest { process: Pid(i as u32), size: draws[i].0, lifetime: draws[i].1 },
    )
}

/// Turns a list of (size, lifetime) pairs into requests, numbering the
/// processes from 0 in the order of the list.
pub fn workload_from(draws: &Vec<(u32, u32)>) -> (out: Vec<MemoryRequest>)
    requires
        draws.len() <= u32::MAX,
    ensures
        out@ == workload_of(draws@),
{
    let mut out: Vec<MemoryRequest> = Vec::with_capacity(draws.len());
    let mut i: usize = 0;
    while i < draws.len()
        invariant
            i <= draws.len() <= u32::MAX,
            out.len() == i,
            forall|k: int| 0 <= k < i ==> out@[k] == workload_of(draws@)[k],
        decreases draws.len() - i,
    {
        let (size, lifetime) = draws[i];
        out.push(MemoryRequest { process: Pid(i as u32), size, lifetime });
        i += 1;
    }
    out
}

/// Draws a workload of `num_processes` requests. Process `i` asks for fewer
/// than `max_size` units, for fewer ticks than `lifetime` holds thousands.
/// A workload of at least one request needs room to draw from: a positive
/// `max_size`, and a `lifetime` of a thousand or more.
pub fn gen_processes(num_processes: u32, max_size: u32, lifetime: u32) -> (out: Vec<MemoryRequest>)
    requires
        num_processes > 0 ==> max_size > 0 && lifetime >= 1000,
    ensures
        out.len() == num_processes,
        forall|i: int|
            0 <= i < out.len() ==> {
                &&& (#[trigger] out@[i]).process == Pid(i as u32)
                &&& out@[i].size < max_size
                &&& out@[i].lifetime < lifetime / 1000
            },
{
    let mut draws: Vec<(u32, u32)> = Vec::new();
    if num_processes > 0 {
        let mut rng = thread_generator();
        let mut i: u32 = 0;
        while i < num_processes
            invariant
                i <= num_processes,
                max_size > 0,
                lifetime >= 1000,
                draws.len() == i,
                forall|k: int|
                    0 <= k < i ==> (#[trigger] draws@[k]).0 < max_size && draws@[k].1 < lifetime
                        / 1000,
            decreases num_processes - i,
        {
            let size = draw_below(&mut rng, max_size);
            let ticks = draw_below(&mut rng, lifetime / 1000);
            draws.push((size, ticks));
            i += 1;
        }
    }
    workload_from(&draws)
}

} // verus!
