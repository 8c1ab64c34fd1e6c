//! The tick engine that the three strategies share: a strategy differs from
//! the others only in how it picks a free span.

use std::collections::VecDeque;
use vstd::prelude::*;
use crate::strategies::{MemoryRegion, MemoryRequest, Pid, FINAL_MEM_REGION_PID};
use crate::strategies::best_fit::{best_fit, find_best_fit, lemma_best_fit_decides};
use crate::strategies::next_fit::{
    cursor_at,
    find_next_fit,
    lemma_cursor_exists,
    lemma_next_fit_decides,
    locate,
    next_fit,
};
use crate::strategies::region_list::{
    age,
    capacity,
    coalesce,
    coalesce_regions,
    expiring_within,
    fits,
    has_room,
    lemma_age_reclaim_keep_addresses,
    lemma_coalesce_no_adjacent_duplicates,
    lemma_coalesce_well_formed,
    lemma_place_expiring,
    lemma_place_makes_no_room,
    lemma_place_well_formed,
    lemma_spans_fill_capacity,
    no_adjacent_duplicates,
    place,
    place_request,
    reclaim,
    reclaim_regions,
    strictly_increasing,
    total_span_size,
    well_formed,
};
use crate::strategies::worst_fit::{find_worst_fit, lemma_worst_fit_decides, worst_fit};

verus! {

/// How a free span is picked. Next fit remembers the index of the marker
/// where it last placed a request.
#[derive(Clone, Copy, Debug, PartialEq, Eq, Hash)]
pub enum Policy {
    BestFit,
    WorstFit,
    NextFit { cursor: usize },
}

/// A next-fit cursor points at a marker that opens a span.
pub open spec fn policy_valid(policy: Policy, r: Seq<MemoryRegion>) -> bool {
    policy matches Policy::NextFit { cursor } ==> cursor < r.len() - 1
}

/// The span that `policy` picks for a request of `size` units, if any span
/// fits.
pub open spec fn choice(policy: Policy, r: Seq<MemoryRegion>, size: u32) -> Option<int> {
    match policy {
        Policy::BestFit => best_fit(r, size),
        Policy::WorstFit => worst_fit(r, size),
        Policy::NextFit { cursor } => next_fit(r, cursor as int, size),
    }
}

/// The policy after a request went into span `i`: next fit moves its cursor
/// there.
pub open spec fn moved_to(policy: Policy, i: int) -> Policy {
    match policy {
        Policy::NextFit { cursor } => Policy::NextFit { cursor: i as usize },
        other => other,
    }
}

/// Every policy finds a span exactly when some span fits, and the span it
/// finds does fit.
pub proof fn lemma_choice_fits(policy: Policy, r: Seq<MemoryRegion>, size: u32)
    requires
        policy_valid(policy, r),
    ensures
        choice(policy, r, size) is Some <==> has_room(r, size),
        choice(policy, r, size) matches Some(i) ==> fits(r, i, size),
{
    match policy {
        Policy::BestFit => lemma_best_fit_decides(r, size),
        Policy::WorstFit => lemma_worst_fit_decides(r, size),
        Policy::NextFit { cursor } => lemma_next_fit_decides(r, cursor as int, size),
    }
}

/// Picks the span for a request of `size` units as `policy` says.
pub fn choose_span(policy: Policy, mem: &Vec<MemoryRegion>, size: u32) -> (found: Option<usize>)
    requires
        well_formed(mem@),
        policy_valid(policy, mem@),
    ensures
        found is Some <==> has_room(mem@, size),
        found matches Some(i) ==> fits(mem@, i as int, size) && choice(policy, mem@, size) == Some(
            i as int,
        ),
        found is None ==> choice(policy, mem@, size) is None,
{
    match policy {
        Policy::BestFit => find_best_fit(mem, size),
        Policy::WorstFit => find_worst_fit(mem, size),
        Policy::NextFit { cursor } => find_next_fit(mem, cursor, size),
    }
}

// ---------------------------------------------------------------------
// Draining the pending queue
// ---------------------------------------------------------------------

/// What one pass over the pending queue leaves behind.
pub struct Drained {
    /// The region list with every request that fitted placed in it.
    pub regions: Seq<MemoryRegion>,
    /// The policy, with the cursor where the last request was placed.
    pub policy: Policy,
    /// The requests that did not fit, in arrival order.
    pub deferred: Seq<MemoryRequest>,
}

/// One pass over the queue `q` in arrival order. Each request is tried
/// against the list as the requests before it have left it: it is placed
/// where the policy says, or, where nothing fits, deferred. A deferred
/// request does not hold up the ones behind it.
pub open spec fn drain(policy: Policy, r: Seq<MemoryRegion>, q: Seq<MemoryRequest>) -> Drained
    decreases q.len(),
{
    if q.len() == 0 {
        Drained { regions: r, policy, deferred: Seq::empty() }
    } else {
        let before = drain(policy, r, q.drop_last());
        let req = q.last();
        match choice(before.policy, before.regions, req.size) {
            Some(i) => Drained {
                regions: place(before.regions, i, req),
                policy: moved_to(before.policy, i),
                deferred: before.deferred,
            },
            None => Drained {
                regions: before.regions,
                policy: before.policy,
                deferred: before.deferred.push(req),
            },
        }
    }
}

/// Every request of the queue asks for at least one unit.
pub open spec fn all_positive(q: Seq<MemoryRequest>) -> bool {
    forall|k: int| 0 <= k < q.len() ==> (#[trigger] q[k]).size > 0
}

/// A pass over the queue keeps the region list well formed, the cursor on a
/// span and the capacity unchanged, and defers no more than it was given.
/// Where no request is empty, a list without empty spans stays without them.
pub proof fn lemma_drain_valid(policy: Policy, r: Seq<MemoryRegion>, q: Seq<MemoryRequest>)
    requires
        well_formed(r),
        policy_valid(policy, r),
    ensures
        well_formed(drain(policy, r, q).regions),
        policy_valid(drain(policy, r, q).policy, drain(policy, r, q).regions),
        capacity(drain(policy, r, q).regions) == capacity(r),
        total_span_size(drain(policy, r, q).regions) == total_span_size(r),
        drain(policy, r, q).regions.last() == r.last(),
        drain(policy, r, q).deferred.len() <= q.len(),
        forall|k: int|
            0 <= k < drain(policy, r, q).deferred.len() ==> q.contains(
                #[trigger] drain(policy, r, q).deferred[k],
            ),
        strictly_increasing(r) && all_positive(q) ==> strictly_increasing(
            drain(policy, r, q).regions,
        ),
        policy is BestFit ==> drain(policy, r, q).policy is BestFit,
        policy is WorstFit ==> drain(policy, r, q).policy is WorstFit,
        policy is NextFit ==> drain(policy, r, q).policy is NextFit,
    decreases q.len(),
{
    if q.len() > 0 {
        let before = drain(policy, r, q.drop_last());
        let after = drain(policy, r, q);
        let req = q.last();
        lemma_drain_valid(policy, r, q.drop_last());
        lemma_choice_fits(before.policy, before.regions, req.size);
        assert(all_positive(q) ==> all_positive(q.drop_last())) by {
            if all_positive(q) {
                assert forall|k: int| 0 <= k < q.drop_last().len() implies (
                #[trigger] q.drop_last()[k]).size > 0 by {
                    assert(q.drop_last()[k] == q[k]);
                }
            }
        }
        assert forall|k: int| 0 <= k < after.deferred.len() implies q.contains(
            #[trigger] after.deferred[k],
        ) by {
            if k < before.deferred.len() {
                let at = choose|at: int|
                    0 <= at < q.drop_last().len() && q.drop_last()[at] == before.deferred[k];
                assert(q[at] == after.deferred[k]);
            } else {
                assert(q[q.len() - 1] == after.deferred[k]);
            }
        }
        match choice(before.policy, before.regions, req.size) {
            Some(i) => {
                lemma_place_well_formed(before.regions, i, req);
                assert(req == q[q.len() - 1]);
            },
            None => {},
        }
    }
}

/// One pass over the pending queue: each request, in arrival order, is
/// placed if the policy finds a span for it, and kept for later if not.
/// Returns the policy with its cursor brought up to date, and the requests
/// that were kept, in their old order.
pub fn drain_queue(policy: Policy, mem: &mut Vec<MemoryRegion>, reqs: &VecDeque<MemoryRequest>) -> (out:
    (Policy, VecDeque<MemoryRequest>))
    requires
        well_formed(old(mem)@),
        policy_valid(policy, old(mem)@),
    ensures
        final(mem)@ == drain(policy, old(mem)@, reqs@).regions,
        out.0 == drain(policy, old(mem)@, reqs@).policy,
        out.1@ == drain(policy, old(mem)@, reqs@).deferred,
        well_formed(final(mem)@),
        policy_valid(out.0, final(mem)@),
        capacity(final(mem)@) == capacity(old(mem)@),
{
    let mut policy = policy;
    let mut deferred: VecDeque<MemoryRequest> = VecDeque::new();
    let ghost start = mem@;
    let ghost first = policy;
    let mut k: usize = 0;
    while k < reqs.len()
        invariant
            k <= reqs.len(),
            well_formed(start),
            policy_valid(first, start),
            mem@ == drain(first, start, reqs@.take(k as int)).regions,
            policy == drain(first, start, reqs@.take(k as int)).policy,
            deferred@ == drain(first, start, reqs@.take(k as int)).deferred,
        decreases reqs.len() - k,
    {
        let req = reqs[k];
        proof {
            lemma_drain_valid(first, start, reqs@.take(k as int));
            assert(reqs@.take(k as int + 1).drop_last() == reqs@.take(k as int));
            assert(reqs@.take(k as int + 1).last() == req);
        }
        match choose_span(policy, mem, req.size) {
            Some(i) => {
                place_request(mem, i, req);
                policy =
                match policy {
                    Policy::NextFit { cursor } => Policy::NextFit { cursor: i },
                    other => other,
                };
            },
            None => {
                deferred.push_back(req);
            },
        }
        k += 1;
    }
    proof {
        assert(reqs@.take(reqs.len() as int) == reqs@);
        lemma_drain_valid(first, start, reqs@);
    }
    (policy, deferred)
}

/// A pass over a queue of which nothing fits places nothing and defers it
/// all.
pub proof fn lemma_drain_without_room(policy: Policy, r: Seq<MemoryRegion>, q: Seq<MemoryRequest>)
    requires
        policy_valid(policy, r),
        forall|k: int| 0 <= k < q.len() ==> !has_room(r, (#[trigger] q[k]).size),
    ensures
        drain(policy, r, q) == (Drained { regions: r, policy, deferred: q }),
    decreases q.len(),
{
    if q.len() > 0 {
        assert forall|k: int| 0 <= k < q.drop_last().len() implies !has_room(
            r,
            (#[trigger] q.drop_last()[k]).size,
        ) by {
            assert(q.drop_last()[k] == q[k]);
        }
        lemma_drain_without_room(policy, r, q.drop_last());
        assert(q.last() == q[q.len() - 1]);
        lemma_choice_fits(policy, r, q.last().size);
        assert(q.drop_last().push(q.last()) == q);
    } else {
        assert(q == Seq::<MemoryRequest>::empty());
    }
}

/// After a pass, nothing that was deferred fits anywhere: a request is left
/// waiting only when no free span can hold it.
pub proof fn lemma_drain_leaves_no_room(policy: Policy, r: Seq<MemoryRegion>, q: Seq<MemoryRequest>)
    requires
        well_formed(r),
        policy_valid(policy, r),
    ensures
        forall|k: int|
            0 <= k < drain(policy, r, q).deferred.len() ==> !has_room(
                drain(policy, r, q).regions,
                (#[trigger] drain(policy, r, q).deferred[k]).size,
            ),
    decreases q.len(),
{
    if q.len() > 0 {
        let before = drain(policy, r, q.drop_last());
        let after = drain(policy, r, q);
        let req = q.last();
        lemma_drain_leaves_no_room(policy, r, q.drop_last());
        lemma_drain_valid(policy, r, q.drop_last());
        lemma_choice_fits(before.policy, before.regions, req.size);
        assert forall|k: int| 0 <= k < after.deferred.len() implies !has_room(
            after.regions,
            (#[trigger] after.deferred[k]).size,
        ) by {
            match choice(before.policy, before.regions, req.size) {
                Some(i) => {
                    assert(after.deferred[k] == before.deferred[k]);
                    if has_room(after.regions, after.deferred[k].size) {
                        lemma_place_makes_no_room(
                            before.regions,
                            i,
                            req,
                            after.deferred[k].size,
                        );
                    }
                },
                None => {
                    if k < before.deferred.len() {
                        assert(after.deferred[k] == before.deferred[k]);
                    }
                },
            }
        }
    }
}

/// Draining settles in one pass: a second pass over what the first one
/// deferred places nothing more.
pub proof fn lemma_drain_settles(policy: Policy, r: Seq<MemoryRegion>, q: Seq<MemoryRequest>)
    requires
        well_formed(r),
        policy_valid(policy, r),
    ensures
        drain(
            drain(policy, r, q).policy,
            drain(policy, r, q).regions,
            drain(policy, r, q).deferred,
        ) == drain(policy, r, q),
{
    let once = drain(policy, r, q);
    lemma_drain_valid(policy, r, q);
    lemma_drain_leaves_no_room(policy, r, q);
    lemma_drain_without_room(once.policy, once.regions, once.deferred);
}

/// The places in the queue `q` of the requests that a pass defers: those
/// for which, at their turn, no free span was large enough.
pub open spec fn deferred_origins(policy: Policy, r: Seq<MemoryRegion>, q: Seq<MemoryRequest>) -> Seq<
    int,
>
    decreases q.len(),
{
    if q.len() == 0 {
        Seq::empty()
    } else if has_room(drain(policy, r, q.drop_last()).regions, q.last().size) {
        deferred_origins(policy, r, q.drop_last())
    } else {
        deferred_origins(policy, r, q.drop_last()).push(q.len() - 1)
    }
}

/// Draining is fair. What a pass defers is exactly the requests that found
/// no room at their turn, when only requests that arrived before them had
/// been placed; they stay in arrival order. So no later request is ever
/// placed ahead of an earlier one that could have been placed instead.
pub proof fn lemma_drain_fair(policy: Policy, r: Seq<MemoryRegion>, q: Seq<MemoryRequest>)
    requires
        well_formed(r),
        policy_valid(policy, r),
    ensures
        deferred_origins(policy, r, q).len() == drain(policy, r, q).deferred.len(),
        forall|a: int|
            0 <= a < deferred_origins(policy, r, q).len() ==> {
                &&& 0 <= #[trigger] deferred_origins(policy, r, q)[a] < q.len()
                &&& drain(policy, r, q).deferred[a] == q[deferred_origins(policy, r, q)[a]]
            },
        forall|a: int, b: int|
            0 <= a < b < deferred_origins(policy, r, q).len() ==> deferred_origins(policy, r, q)[a]
                < deferred_origins(policy, r, q)[b],
        forall|k: int|
            0 <= k < q.len() ==> (deferred_origins(policy, r, q).contains(k) <==> !has_room(
                #[trigger] drain(policy, r, q.take(k)).regions,
                q[k].size,
            )),
    decreases q.len(),
{
    if q.len() > 0 {
        let shorter = q.drop_last();
        let before = drain(policy, r, shorter);
        let origins = deferred_origins(policy, r, q);
        let earlier = deferred_origins(policy, r, shorter);
        lemma_drain_fair(policy, r, shorter);
        lemma_drain_valid(policy, r, shorter);
        lemma_choice_fits(before.policy, before.regions, q.last().size);
        assert(q.take(q.len() - 1) == shorter);
        assert forall|k: int| 0 <= k < q.len() implies (origins.contains(k) <==> !has_room(
            #[trigger] drain(policy, r, q.take(k)).regions,
            q[k].size,
        )) by {
            if k < q.len() - 1 {
                assert(shorter.take(k) == q.take(k));
                assert(shorter[k] == q[k]);
                if earlier.contains(k) {
                    let a = choose|a: int| 0 <= a < earlier.len() && earlier[a] == k;
                    assert(origins[a] == k);
                }
                if origins.contains(k) {
                    let a = choose|a: int| 0 <= a < origins.len() && origins[a] == k;
                    assert(earlier[a] == k);
                }
            } else {
                if origins.contains(k) {
                    let a = choose|a: int| 0 <= a < origins.len() && origins[a] == k;
                    if a < earlier.len() {
                        assert(earlier[a] < shorter.len());
                    }
                }
                if !has_room(before.regions, q[k].size) {
                    assert(origins[origins.len() - 1] == k);
                }
            }
        }
    }
}

/// The ticks that the requests of a queue still have before them: for each
/// request its lifetime, and one tick more for the tick that places it.
pub open spec fn ticks_asked(q: Seq<MemoryRequest>) -> int
    decreases q.len(),
{
    if q.len() == 0 {
        0
    } else {
        ticks_asked(q.drop_last()) + q.last().lifetime + 1
    }
}

/// Every request of the queue asks for a lifetime that runs down, and for
/// no more memory than there is.
pub open spec fn all_can_be_served(q: Seq<MemoryRequest>, room: int) -> bool {
    forall|k: int|
        0 <= k < q.len() ==> (#[trigger] q[k]).size <= room && q[k].lifetime <= i32::MAX
}

/// A queue asks for at least one tick for each of its requests.
pub proof fn lemma_ticks_asked_positive(q: Seq<MemoryRequest>)
    ensures
        ticks_asked(q) >= q.len(),
    decreases q.len(),
{
    if q.len() > 0 {
        lemma_ticks_asked_positive(q.drop_last());
    }
}

/// A pass places the first request of the queue if there is room for it.
pub proof fn lemma_drain_places_first(policy: Policy, r: Seq<MemoryRegion>, q: Seq<MemoryRequest>)
    requires
        well_formed(r),
        policy_valid(policy, r),
        q.len() > 0,
        has_room(r, q[0].size),
    ensures
        drain(policy, r, q).deferred.len() < q.len(),
    decreases q.len(),
{
    if q.len() == 1 {
        assert(q.drop_last() == Seq::<MemoryRequest>::empty());
        assert(drain(policy, r, q.drop_last()).regions == r);
        lemma_choice_fits(policy, r, q.last().size);
    } else {
        assert(q.drop_last()[0] == q[0]);
        lemma_drain_places_first(policy, r, q.drop_last());
    }
}

/// A pass brings in no occupant but the requests it places. If every
/// occupant had at most `bound` ticks left before the pass, then after it
/// every occupant has at most `bound` ticks and the lifetimes of the placed
/// requests left; and each placed request leaves the queue with the ticks it
/// asked for.
pub proof fn lemma_drain_expiring(
    policy: Policy,
    r: Seq<MemoryRegion>,
    q: Seq<MemoryRequest>,
    bound: int,
)
    requires
        well_formed(r),
        policy_valid(policy, r),
        0 <= bound,
        expiring_within(r, bound),
        all_can_be_served(q, capacity(r)),
    ensures
        all_can_be_served(drain(policy, r, q).deferred, capacity(r)),
        bound <= bound_after_drain(policy, r, q, bound),
        expiring_within(drain(policy, r, q).regions, bound_after_drain(policy, r, q, bound)),
    decreases q.len(),
{
    let after = drain(policy, r, q);
    if q.len() > 0 {
        let shorter = q.drop_last();
        let before = drain(policy, r, shorter);
        let req = q.last();
        assert(all_can_be_served(shorter, capacity(r))) by {
            assert forall|k: int| 0 <= k < shorter.len() implies (#[trigger] shorter[k]).size
                <= capacity(r) && shorter[k].lifetime <= i32::MAX by {
                assert(shorter[k] == q[k]);
            }
        }
        assert(req == q[q.len() - 1]);
        lemma_drain_expiring(policy, r, shorter, bound);
        lemma_drain_valid(policy, r, shorter);
        lemma_choice_fits(before.policy, before.regions, req.size);
        let had = bound_after_drain(policy, r, shorter, bound);
        match choice(before.policy, before.regions, req.size) {
            Some(i) => {
                lemma_place_expiring(before.regions, i, req, had);
                assert(bound_after_drain(policy, r, q, bound) == had + req.lifetime);
                assert(expiring_within(after.regions, had + req.lifetime));
            },
            None => {
                assert(after.deferred.drop_last() == before.deferred);
                assert(bound_after_drain(policy, r, q, bound) == had);
                assert forall|k: int| 0 <= k < after.deferred.len() implies (
                #[trigger] after.deferred[k]).size <= capacity(r) && after.deferred[k].lifetime
                    <= i32::MAX by {
                    if k < before.deferred.len() {
                        assert(after.deferred[k] == before.deferred[k]);
                    }
                }
            },
        }
    }
}

/// A bound on the ticks that any occupant has left after a pass, given such
/// a bound from before the pass: each request that was placed may add its
/// lifetime.
pub open spec fn bound_after_drain(
    policy: Policy,
    r: Seq<MemoryRegion>,
    q: Seq<MemoryRequest>,
    bound: int,
) -> int {
    bound + ticks_asked(q) - ticks_asked(drain(policy, r, q).deferred) - (q.len() - drain(
        policy,
        r,
        q,
    ).deferred.len())
}

// ---------------------------------------------------------------------
// Reclaiming and coalescing under a policy
// ---------------------------------------------------------------------

/// The policy after the list below it changed from `before` to `after`:
/// next fit moves its cursor to the marker that now covers the address the
/// cursor stood at.
pub open spec fn remapped(policy: Policy, before: Seq<MemoryRegion>, after: Seq<MemoryRegion>) -> Policy {
    match policy {
        Policy::NextFit { cursor } => Policy::NextFit {
            cursor: cursor_at(after, before[cursor as int].1) as usize,
        },
        other => other,
    }
}

/// Frees the spans whose occupants have expired and merges neighbouring
/// spans with the same tag. Returns the new list, and the policy with its
/// cursor moved to where it belongs in the new list.
pub fn settle(policy: Policy, mem: &Vec<MemoryRegion>) -> (out: (Policy, Vec<MemoryRegion>))
    requires
        well_formed(mem@),
        policy_valid(policy, mem@),
    ensures
        out.1@ == coalesce(reclaim(mem@)),
        out.0 == remapped(policy, mem@, out.1@),
        well_formed(out.1@),
        policy_valid(out.0, out.1@),
        no_adjacent_duplicates(out.1@),
        capacity(out.1@) == capacity(mem@),
{
    proof {
        lemma_age_reclaim_keep_addresses(mem@);
    }
    let freed = reclaim_regions(mem);
    let merged = coalesce_regions(&freed);
    let policy = match policy {
        Policy::NextFit { cursor } => Policy::NextFit { cursor: locate(&merged, mem[cursor].1) },
        other => other,
    };
    (policy, merged)
}

// ---------------------------------------------------------------------
// The state of an allocator, and what a tick does to it
// ---------------------------------------------------------------------

/// What an allocator holds, as plain values.
pub struct AllocatorState {
    /// The region list.
    pub regions: Seq<MemoryRegion>,
    /// The requests that wait for memory, in arrival order.
    pub pending: Seq<MemoryRequest>,
    /// How many ticks have passed.
    pub ticks: nat,
    /// How free spans are picked.
    pub policy: Policy,
}

/// The region list of an address space of `mem_size` units nobody has asked
/// for yet: one free span, closed by a sentinel that carries the reserved
/// PID and a lifetime that never runs down.
pub open spec fn empty_regions(mem_size: u32) -> Seq<MemoryRegion> {
    seq![
        MemoryRegion(None, 0),
        MemoryRegion(Some((Pid(FINAL_MEM_REGION_PID), -1i32)), mem_size),
    ]
}

impl AllocatorState {
    /// The region list is well formed, and a cursor, if there is one,
    /// points at a span.
    pub open spec fn valid(self) -> bool {
        &&& well_formed(self.regions)
        &&& policy_valid(self.policy, self.regions)
    }

    /// No span is empty and no waiting request asks for nothing.
    pub open spec fn proper(self) -> bool {
        &&& strictly_increasing(self.regions)
        &&& all_positive(self.pending)
    }

    /// The state with `req` added at the back of the queue.
    pub open spec fn enqueue(self, req: MemoryRequest) -> AllocatorState {
        AllocatorState { pending: self.pending.push(req), ..self }
    }

    /// The state after one more tick has been counted and every occupant
    /// has aged by it.
    pub open spec fn age(self) -> AllocatorState {
        AllocatorState { regions: age(self.regions), ticks: self.ticks + 1, ..self }
    }

    /// The state after expired occupants have been reclaimed and equal
    /// neighbours merged.
    pub open spec fn dealloc(self) -> AllocatorState {
        let merged = coalesce(reclaim(self.regions));
        AllocatorState {
            regions: merged,
            policy: remapped(self.policy, self.regions, merged),
            ..self
        }
    }

    /// The state after one pass over the pending queue.
    pub open spec fn fulfill(self) -> AllocatorState {
        let drained = drain(self.policy, self.regions, self.pending);
        AllocatorState {
            regions: drained.regions,
            pending: drained.deferred,
            policy: drained.policy,
            ..self
        }
    }

    /// The state after one tick: occupants age, expired ones are reclaimed,
    /// free space is coalesced, and the queue is drained.
    pub open spec fn tick(self) -> AllocatorState {
        self.age().dealloc().fulfill()
    }
}

/// Reclaiming and coalescing keep a state valid and its capacity unchanged,
/// and leave no two neighbouring spans with the same tag. A list without
/// empty spans stays without them.
pub proof fn lemma_dealloc_valid(s: AllocatorState)
    requires
        s.valid(),
    ensures
        s.dealloc().valid(),
        capacity(s.dealloc().regions) == capacity(s.regions),
        total_span_size(s.dealloc().regions) == total_span_size(s.regions),
        no_adjacent_duplicates(s.dealloc().regions),
        strictly_increasing(s.regions) ==> strictly_increasing(s.dealloc().regions),
{
    lemma_age_reclaim_keep_addresses(s.regions);
    lemma_coalesce_well_formed(reclaim(s.regions));
    lemma_coalesce_no_adjacent_duplicates(reclaim(s.regions));
    let merged = coalesce(reclaim(s.regions));
    lemma_spans_fill_capacity(s.regions);
    lemma_spans_fill_capacity(merged);
    match s.policy {
        Policy::NextFit { cursor } => {
            lemma_cursor_exists(merged, s.regions[cursor as int].1);
        },
        _ => {},
    }
}

/// A tick keeps a state valid and its address space as large as it was: the
/// sizes of all spans add up to the same capacity before and after. The
/// markers stay in address order; where no span was empty and no waiting
/// request asks for nothing, no span is empty afterwards either. What is
/// left waiting was waiting before.
pub proof fn lemma_tick_valid(s: AllocatorState)
    requires
        s.valid(),
    ensures
        s.tick().valid(),
        capacity(s.tick().regions) == capacity(s.regions),
        total_span_size(s.tick().regions) == total_span_size(s.regions),
        s.tick().ticks == s.ticks + 1,
        s.tick().pending.len() <= s.pending.len(),
        s.proper() ==> s.tick().proper(),
        s.policy is BestFit ==> s.tick().policy is BestFit,
        s.policy is WorstFit ==> s.tick().policy is WorstFit,
        s.policy is NextFit ==> s.tick().policy is NextFit,
{
    lemma_age_reclaim_keep_addresses(s.regions);
    lemma_dealloc_valid(s.age());
    let settled = s.age().dealloc();
    lemma_drain_valid(settled.policy, settled.regions, settled.pending);
    lemma_spans_fill_capacity(s.regions);
    lemma_spans_fill_capacity(s.tick().regions);
    let left = s.tick().pending;
    if s.proper() {
        assert forall|k: int| 0 <= k < left.len() implies (#[trigger] left[k]).size > 0 by {
            let at = choose|at: int| 0 <= at < s.pending.len() && s.pending[at] == left[k];
            assert(s.pending[at].size > 0);
        }
    }
}

/// A sentinel that is free, or that carries a lifetime below 0 as the
/// reserved one does, comes through a tick as it is.
pub proof fn lemma_tick_keeps_sentinel(s: AllocatorState)
    requires
        s.valid(),
        s.regions.last().0 matches Some((_, left)) ==> left < 0,
    ensures
        s.tick().regions.last() == s.regions.last(),
{
    lemma_age_reclaim_keep_addresses(s.regions);
    lemma_age_reclaim_keep_addresses(age(s.regions));
    lemma_coalesce_well_formed(reclaim(age(s.regions)));
    lemma_dealloc_valid(s.age());
    let settled = s.age().dealloc();
    lemma_drain_valid(settled.policy, settled.regions, settled.pending);
}

/// After a tick, no request that is still waiting fits into any free span.
pub proof fn lemma_tick_leaves_no_room(s: AllocatorState)
    requires
        s.valid(),
    ensures
        forall|k: int|
            0 <= k < s.tick().pending.len() ==> !has_room(
                s.tick().regions,
                (#[trigger] s.tick().pending[k]).size,
            ),
{
    lemma_age_reclaim_keep_addresses(s.regions);
    lemma_dealloc_valid(s.age());
    let settled = s.age().dealloc();
    lemma_drain_leaves_no_room(settled.policy, settled.regions, settled.pending);
}

/// A tick is fair to the queue. The requests that still wait after it are
/// exactly those that found no room at their turn, when of the requests of
/// this tick only earlier arrivals had been placed, and they wait in the
/// order they arrived in.
pub proof fn lemma_tick_fair(s: AllocatorState)
    requires
        s.valid(),
    ensures
        ({
            let settled = s.age().dealloc();
            let origins = deferred_origins(settled.policy, settled.regions, s.pending);
            &&& origins.len() == s.tick().pending.len()
            &&& forall|a: int|
                0 <= a < origins.len() ==> 0 <= #[trigger] origins[a] < s.pending.len()
                    && s.tick().pending[a] == s.pending[origins[a]]
            &&& forall|a: int, b: int| 0 <= a < b < origins.len() ==> origins[a] < origins[b]
            &&& forall|k: int|
                0 <= k < s.pending.len() ==> (origins.contains(k) <==> !has_room(
                    #[trigger] drain(settled.policy, settled.regions, s.pending.take(k)).regions,
                    s.pending[k].size,
                ))
        }),
{
    lemma_age_reclaim_keep_addresses(s.regions);
    lemma_dealloc_valid(s.age());
    let settled = s.age().dealloc();
    lemma_drain_fair(settled.policy, settled.regions, settled.pending);
}

/// The requests of a queue, front first.
pub fn queue_to_vec(reqs: &VecDeque<MemoryRequest>) -> (out: Vec<MemoryRequest>)
    ensures
        out@ == reqs@,
{
    let mut out: Vec<MemoryRequest> = Vec::with_capacity(reqs.len());
    let mut k: usize = 0;
    while k < reqs.len()
        invariant
            k <= reqs.len(),
            out@ == reqs@.take(k as int),
        decreases reqs.len() - k,
    {
        out.push(reqs[k]);
        k += 1;
    }
    out
}

} // verus!
