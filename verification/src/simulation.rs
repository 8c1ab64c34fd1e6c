//! Running one strategy over a whole workload and keeping what each tick
//! left behind.

use vstd::prelude::*;
use crate::strategies::{MemAllocator, MemoryRegion, MemoryRequest};
use crate::strategies::engine::{
    all_can_be_served,
    bound_after_drain,
    empty_regions,
    lemma_dealloc_valid,
    lemma_drain_expiring,
    lemma_drain_places_first,
    lemma_drain_valid,
    lemma_tick_keeps_sentinel,
    lemma_tick_valid,
    lemma_ticks_asked_positive,
    ticks_asked,
    AllocatorState,
    Policy,
};
use crate::strategies::region_list::{
    age,
    capacity,
    expiring_within,
    fits,
    lemma_age_reclaim_expiring,
    lemma_age_reclaim_keep_addresses,
    lemma_coalesce_all_free,
    lemma_coalesce_expiring,
    reclaim,
    total_span_size,
    well_formed,
};

verus! {

/// The state with all of `requests` queued behind what already waits.
pub open spec fn seeded(s: AllocatorState, requests: Seq<MemoryRequest>) -> AllocatorState {
    AllocatorState { pending: s.pending + requests, ..s }
}

/// The state `n` ticks on.
pub open spec fn after_ticks(s: AllocatorState, n: nat) -> AllocatorState
    decreases n,
{
    if n == 0 {
        s
    } else {
        after_ticks(s, (n - 1) as nat).tick()
    }
}

/// The run has come to rest: the whole address space is one free span, and
/// no request waits.
pub open spec fn at_rest(s: AllocatorState) -> bool {
    &&& s.regions.len() == 2
    &&& s.regions[0].0 is None
    &&& s.pending.len() == 0
}

/// However many ticks pass, the state stays valid and the spans add up to
/// the capacity the run began with. If at the start no span was empty and no
/// waiting request asked for nothing, no span is ever empty.
pub proof fn lemma_after_ticks_valid(s: AllocatorState, n: nat)
    requires
        s.valid(),
    ensures
        after_ticks(s, n).valid(),
        total_span_size(after_ticks(s, n).regions) == total_span_size(s.regions),
        after_ticks(s, n).ticks == s.ticks + n,
        s.proper() ==> after_ticks(s, n).proper(),
    decreases n,
{
    if n > 0 {
        lemma_after_ticks_valid(s, (n - 1) as nat);
        lemma_tick_valid(after_ticks(s, (n - 1) as nat));
    }
}

/// However many ticks pass, a sentinel that is free, or that carries a
/// lifetime below 0 as the reserved one does, stays as it is.
pub proof fn lemma_after_ticks_keeps_sentinel(s: AllocatorState, n: nat)
    requires
        s.valid(),
        s.regions.last().0 matches Some((_, left)) ==> left < 0,
    ensures
        after_ticks(s, n).regions.last() == s.regions.last(),
    decreases n,
{
    if n > 0 {
        lemma_after_ticks_keeps_sentinel(s, (n - 1) as nat);
        lemma_after_ticks_valid(s, (n - 1) as nat);
        lemma_tick_keeps_sentinel(after_ticks(s, (n - 1) as nat));
    }
}

/// A run from this state is bound to come to rest: no occupant holds its
/// span for more than `bound` ticks or for ever, and no waiting request asks
/// for more memory than there is or for a lifetime that never runs down.
pub open spec fn will_settle(s: AllocatorState, bound: int) -> bool {
    &&& s.valid()
    &&& 0 <= bound
    &&& expiring_within(s.regions, bound)
    &&& all_can_be_served(s.pending, capacity(s.regions))
}

/// Ticking once and then `n` times is ticking `n + 1` times.
pub proof fn lemma_after_ticks_shift(s: AllocatorState, n: nat)
    ensures
        after_ticks(s.tick(), n) == after_ticks(s, n + 1),
    decreases n,
{
    if n > 0 {
        lemma_after_ticks_shift(s, (n - 1) as nat);
    } else {
        assert(after_ticks(s, 1) == after_ticks(s, 0).tick());
    }
}

/// A tick takes a state that will settle to one that will settle, with a
/// new bound on what its occupants have left.
proof fn lemma_tick_will_settle(s: AllocatorState, bound: int) -> (next: int)
    requires
        will_settle(s, bound),
    ensures
        will_settle(s.tick(), next),
        !at_rest(s.tick()) ==> ticks_asked(s.tick().pending) + next < ticks_asked(s.pending)
            + bound,
{
    let aged = s.age();
    let settled = aged.dealloc();
    let closer = if bound > 0 {
        bound - 1
    } else {
        0
    };
    lemma_tick_valid(s);
    lemma_age_reclaim_keep_addresses(s.regions);
    lemma_age_reclaim_keep_addresses(age(s.regions));
    lemma_dealloc_valid(aged);
    lemma_age_reclaim_expiring(s.regions, bound);
    lemma_coalesce_expiring(reclaim(age(s.regions)), closer);
    assert(capacity(settled.regions) == capacity(s.regions));
    lemma_drain_valid(settled.policy, settled.regions, s.pending);
    lemma_drain_expiring(settled.policy, settled.regions, s.pending, closer);
    let next = bound_after_drain(settled.policy, settled.regions, s.pending, closer);
    let after = s.tick();
    if !at_rest(after) && bound == 0 && after.pending.len() == s.pending.len() {
        lemma_coalesce_all_free(reclaim(age(s.regions)));
        assert(settled.regions.len() == 2 && settled.regions[0].0 is None);
        if s.pending.len() > 0 {
            assert(fits(settled.regions, 0, s.pending[0].size));
            lemma_drain_places_first(settled.policy, settled.regions, s.pending);
        } else {
            assert(after.regions == settled.regions);
        }
    }
    next
}

/// Every run that can come to rest does. From a state in which every
/// occupant expires and every waiting request can be served, some number of
/// ticks leaves the whole memory free and nobody waiting, whatever the
/// strategy: no more ticks than the occupants have left and the waiting
/// requests ask for, and one more.
pub proof fn lemma_run_comes_to_rest(s: AllocatorState, bound: int) -> (n: nat)
    requires
        will_settle(s, bound),
    ensures
        1 <= n <= ticks_asked(s.pending) + bound + 1,
        at_rest(after_ticks(s, n)),
        forall|k: nat| 1 <= k < n ==> !at_rest(#[trigger] after_ticks(s, k)),
    decreases ticks_asked(s.pending) + bound,
{
    let next = lemma_tick_will_settle(s, bound);
    lemma_ticks_asked_positive(s.tick().pending);
    lemma_ticks_asked_positive(s.pending);
    assert(after_ticks(s, 1) == after_ticks(s, 0).tick());
    if at_rest(s.tick()) {
        1
    } else {
        let more = lemma_run_comes_to_rest(s.tick(), next);
        lemma_after_ticks_shift(s, more);
        assert forall|k: nat| 1 <= k < more + 1 implies !at_rest(#[trigger] after_ticks(s, k)) by {
            if k > 1 {
                lemma_after_ticks_shift(s, (k - 1) as nat);
                assert(!at_rest(after_ticks(s.tick(), (k - 1) as nat)));
            }
        }
        more + 1
    }
}

/// A run over fresh memory comes to rest if no request asks for more than
/// the whole memory or for a lifetime that never runs down: after some
/// number of ticks, and not before, the memory is as it was at the start,
/// one free span and the sentinel, and nobody waits.
pub proof fn lemma_fresh_run_comes_to_rest(
    policy: Policy,
    mem_size: u32,
    requests: Seq<MemoryRequest>,
) -> (n: nat)
    requires
        policy matches Policy::NextFit { cursor } ==> cursor == 0,
        all_can_be_served(requests, mem_size as int),
    ensures
        1 <= n <= ticks_asked(requests) + 1,
        after_ticks(
            AllocatorState { regions: empty_regions(mem_size), pending: requests, ticks: 0, policy },
            n,
        ).regions == empty_regions(mem_size),
        after_ticks(
            AllocatorState { regions: empty_regions(mem_size), pending: requests, ticks: 0, policy },
            n,
        ).pending.len() == 0,
        at_rest(
            after_ticks(
                AllocatorState {
                    regions: empty_regions(mem_size),
                    pending: requests,
                    ticks: 0,
                    policy,
                },
                n,
            ),
        ),
        forall|k: nat|
            1 <= k < n ==> !at_rest(
                #[trigger] after_ticks(
                    AllocatorState {
                        regions: empty_regions(mem_size),
                        pending: requests,
                        ticks: 0,
                        policy,
                    },
                    k,
                ),
            ),
{
    let s = AllocatorState { regions: empty_regions(mem_size), pending: requests, ticks: 0, policy };
    let n = lemma_run_comes_to_rest(s, 0);
    lemma_after_ticks_valid(s, n);
    lemma_after_ticks_keeps_sentinel(s, n);
    assert(after_ticks(s, n).regions =~= empty_regions(mem_size));
    n
}

/// Hands all of `requests` to the allocator, then ticks until a tick leaves
/// the memory at rest, with every request placed and expired, or until
/// `max_ticks` ticks have been made. A run with a request that never fits,
/// or with an occupant that never expires, ends at the limit only; every
/// other run comes to rest. Returns what each tick left behind, the last one
/// too: the region list and the requests still waiting.
pub fn driver<T: MemAllocator>(alloc: T, requests: &Vec<MemoryRequest>, max_ticks: u32) -> (history:
    Vec<(Vec<MemoryRegion>, Vec<MemoryRequest>)>)
    requires
        alloc.state().ticks + max_ticks <= u32::MAX,
    ensures
        history.len() <= max_ticks,
        // tick by tick, what the allocator held
        forall|k: int|
            0 <= k < history.len() ==> {
                &&& (#[trigger] history@[k]).0@ == after_ticks(
                    seeded(alloc.state(), requests@),
                    (k + 1) as nat,
                ).regions
                &&& history@[k].1@ == after_ticks(
                    seeded(alloc.state(), requests@),
                    (k + 1) as nat,
                ).pending
            },
        // every snapshot is a region list over the same address space
        forall|k: int|
            0 <= k < history.len() ==> well_formed((#[trigger] history@[k]).0@) && total_span_size(
                history@[k].0@,
            ) == total_span_size(alloc.state().regions),
        // a sentinel that does not expire closes every snapshot
        seeded(alloc.state(), requests@).valid() && (alloc.state().regions.last().0 matches Some(
            (_, left),
        ) ==> left < 0) ==> forall|k: int|
            0 <= k < history.len() ==> (#[trigger] history@[k]).0@.last()
                == alloc.state().regions.last(),
        // the run goes on until the memory is at rest
        forall|k: int|
            0 <= k < history.len() - 1 ==> !at_rest(
                #[trigger] after_ticks(seeded(alloc.state(), requests@), (k + 1) as nat),
            ),
        // and ends there, unless the limit comes first
        history.len() < max_ticks ==> history.len() > 0 && at_rest(
            after_ticks(seeded(alloc.state(), requests@), history.len() as nat),
        ),
        forall|k: nat|
            1 <= k <= max_ticks && at_rest(
                #[trigger] after_ticks(seeded(alloc.state(), requests@), k),
            ) ==> history.len() <= k,
        // a run that can come to rest does, given ticks enough
        forall|bound: int|
            #[trigger] will_settle(seeded(alloc.state(), requests@), bound) && ticks_asked(
                seeded(alloc.state(), requests@).pending,
            ) + bound < max_ticks ==> history.len() > 0 && at_rest(
                after_ticks(seeded(alloc.state(), requests@), history.len() as nat),
            ),
{
    let ghost given = alloc.state();
    let ghost start = seeded(given, requests@);
    let mut alloc = alloc;
    let mut i: usize = 0;
    while i < requests.len()
        invariant
            i <= requests.len(),
            alloc.state() == seeded(given, requests@.take(i as int)),
        decreases requests.len() - i,
    {
        alloc = alloc.request(requests[i]);
        proof {
            assert(requests@.take(i as int + 1) == requests@.take(i as int).push(requests@[i as int]));
            assert(given.pending + requests@.take(i as int).push(requests@[i as int]) == (
            given.pending + requests@.take(i as int)).push(requests@[i as int]));
        }
        i += 1;
    }
    assert(requests@.take(requests.len() as int) == requests@);
    let mut history: Vec<(Vec<MemoryRegion>, Vec<MemoryRequest>)> = Vec::new();
    let mut done: u32 = 0;
    let mut resting = false;
    while done < max_ticks && !resting
        invariant
            done <= max_ticks,
            history.len() == done,
            start.ticks + max_ticks <= u32::MAX,
            start.regions == given.regions,
            alloc.state() == after_ticks(start, done as nat),
            alloc.state().ticks == start.ticks + done,
            total_span_size(alloc.state().regions) == total_span_size(given.regions),
            resting ==> done > 0 && at_rest(after_ticks(start, done as nat)),
            forall|k: int|
                0 <= k < done ==> {
                    &&& (#[trigger] history@[k]).0@ == after_ticks(start, (k + 1) as nat).regions
                    &&& history@[k].1@ == after_ticks(start, (k + 1) as nat).pending
                },
            forall|k: int|
                0 <= k < done ==> well_formed((#[trigger] history@[k]).0@) && total_span_size(
                    history@[k].0@,
                ) == total_span_size(given.regions),
            forall|k: int|
                0 <= k < done - 1 ==> !at_rest(#[trigger] after_ticks(start, (k + 1) as nat)),
            !resting ==> forall|k: int|
                0 <= k < done ==> !at_rest(#[trigger] after_ticks(start, (k + 1) as nat)),
        decreases max_ticks - done + (if resting { 0int } else { 1int }),
    {
        let (mem, waiting, next) = alloc.tick();
        alloc = next;
        resting = mem.len() == 2 && mem[0].0.is_none() && waiting.len() == 0;
        history.push((mem, waiting));
        done += 1;
    }
    proof {
        assert forall|k: nat|
            1 <= k <= max_ticks && at_rest(#[trigger] after_ticks(start, k)) implies history.len()
            <= k by {
            if k < history.len() {
                assert(!at_rest(after_ticks(start, ((k - 1) + 1) as nat)));
            }
        }
        if start.valid() && (given.regions.last().0 matches Some((_, left)) ==> left < 0) {
            assert forall|k: int| 0 <= k < history.len() implies (#[trigger] history@[k]).0@.last()
                == given.regions.last() by {
                lemma_after_ticks_keeps_sentinel(start, (k + 1) as nat);
            }
        }
        assert forall|bound: int|
            #[trigger] will_settle(start, bound) && ticks_asked(start.pending) + bound
                < max_ticks implies history.len() > 0 && at_rest(
            after_ticks(start, history.len() as nat),
        ) by {
            let n = lemma_run_comes_to_rest(start, bound);
            assert(history.len() <= n);
        }
    }
    history
}

} // verus!
