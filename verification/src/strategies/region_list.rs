//! The region list: address space as an ordered sequence of boundary
//! markers, the last of which is a sentinel that closes the final span.
//!
//! Marker `i` opens the span that runs from its start address to the start
//! address of marker `i + 1`. The sentinel opens no span; its tag is carried
//! along but never decides anything.

use vstd::prelude::*;
use crate::strategies::{MemoryRegion, MemoryRequest};

verus! {

/// A region list has a first marker at address 0, a closing sentinel, and
/// start addresses that never decrease.
pub open spec fn well_formed(r: Seq<MemoryRegion>) -> bool {
    &&& r.len() >= 2
    &&& r[0].1 == 0
    &&& forall|i: int, j: int| 0 <= i <= j < r.len() ==> r[i].1 <= r[j].1
}

/// No two markers share a start address, so no span is empty.
pub open spec fn strictly_increasing(r: Seq<MemoryRegion>) -> bool {
    forall|i: int, j: int| 0 <= i < j < r.len() ==> r[i].1 < r[j].1
}

/// The number of address units between marker `i` and the marker after it.
pub open spec fn span_size(r: Seq<MemoryRegion>, i: int) -> int {
    r[i + 1].1 - r[i].1
}

/// The sizes of all spans, added up.
pub open spec fn total_span_size(r: Seq<MemoryRegion>) -> int
    decreases r.len(),
{
    if r.len() < 2 {
        0
    } else {
        total_span_size(r.drop_last()) + span_size(r, r.len() - 2)
    }
}

/// The size of the address space that the list describes: where the sentinel
/// stands.
pub open spec fn capacity(r: Seq<MemoryRegion>) -> int {
    r.last().1 as int
}

/// Span `i` exists, is free, and is at least `size` units long.
pub open spec fn fits(r: Seq<MemoryRegion>, i: int, size: u32) -> bool {
    &&& 0 <= i < r.len() - 1
    &&& r[i].0 is None
    &&& span_size(r, i) >= size
}

/// Some free span is at least `size` units long.
pub open spec fn has_room(r: Seq<MemoryRegion>, size: u32) -> bool {
    exists|i: int| fits(r, i, size)
}

/// Address `x` lies in span `i`.
pub open spec fn span_holds(r: Seq<MemoryRegion>, i: int, x: int) -> bool {
    &&& 0 <= i < r.len() - 1
    &&& r[i].1 <= x < r[i + 1].1
}

/// Every address below the capacity lies in exactly one span.
pub proof fn lemma_address_has_span(r: Seq<MemoryRegion>, x: int)
    requires
        well_formed(r),
        0 <= x < capacity(r),
    ensures
        exists|i: int| span_holds(r, i, x),
        forall|i: int, j: int| span_holds(r, i, x) && span_holds(r, j, x) ==> i == j,
{
    let i = lemma_last_at_or_before(r, x, r.len() - 1);
    assert(span_holds(r, i, x));
    assert forall|a: int, b: int| span_holds(r, a, x) && span_holds(r, b, x) implies a == b by {
        if a < b {
            assert(r[a + 1].1 <= r[b].1);
        } else if b < a {
            assert(r[b + 1].1 <= r[a].1);
        }
    }
}

/// Among the markers up to index `k`, the last one that stands at `x` or
/// before it, given that marker `k` stands behind `x`.
proof fn lemma_last_at_or_before(r: Seq<MemoryRegion>, x: int, k: int) -> (i: int)
    requires
        well_formed(r),
        0 <= x,
        0 < k < r.len(),
        x < r[k].1,
    ensures
        0 <= i < k,
        r[i].1 <= x < r[i + 1].1,
    decreases k,
{
    if r[k - 1].1 <= x {
        k - 1
    } else {
        lemma_last_at_or_before(r, x, k - 1)
    }
}

/// Span sizes telescope: together they cover the distance from the first
/// marker to the sentinel.
pub proof fn lemma_total_span_size(r: Seq<MemoryRegion>)
    requires
        r.len() >= 1,
    ensures
        total_span_size(r) == r.last().1 - r[0].1,
    decreases r.len(),
{
    if r.len() >= 2 {
        lemma_total_span_size(r.drop_last());
    }
}

/// In a well-formed list the spans add up to the capacity.
pub proof fn lemma_spans_fill_capacity(r: Seq<MemoryRegion>)
    requires
        well_formed(r),
    ensures
        total_span_size(r) == capacity(r),
{
    lemma_total_span_size(r);
}

/// Decides whether a region list is well formed.
pub fn is_well_formed(mem: &Vec<MemoryRegion>) -> (ok: bool)
    ensures
        ok == well_formed(mem@),
{
    if mem.len() < 2 || mem[0].1 != 0 {
        return false;
    }
    let mut i: usize = 1;
    while i < mem.len()
        invariant
            1 <= i <= mem.len(),
            forall|a: int, b: int| 0 <= a <= b < i ==> mem@[a].1 <= mem@[b].1,
        decreases mem.len() - i,
    {
        if mem[i - 1].1 > mem[i].1 {
            return false;
        }
        i += 1;
    }
    true
}

/// Whether two markers carry exactly the same ownership tag: both free, or
/// the same process with the same remaining lifetime.
pub fn same_tag(a: &MemoryRegion, b: &MemoryRegion) -> (same: bool)
    ensures
        same == (a.0 == b.0),
{
    match (a.0, b.0) {
        (None, None) => true,
        (Some((p, left)), Some((q, other))) => p.0 == q.0 && left == other,
        _ => false,
    }
}

// ---------------------------------------------------------------------
// Ageing
// ---------------------------------------------------------------------

/// One tick passes for a marker: an occupant with time left loses one unit.
/// Lifetime 0 stays 0 (ready to be reclaimed), and a negative lifetime never
/// runs down.
pub open spec fn aged(m: MemoryRegion) -> MemoryRegion {
    match m.0 {
        Some((pid, left)) => if left > 0 {
            MemoryRegion(Some((pid, (left - 1) as i32)), m.1)
        } else {
            m
        },
        None => m,
    }
}

/// Every marker of the list aged by one tick.
pub open spec fn age(r: Seq<MemoryRegion>) -> Seq<MemoryRegion> {
    Seq::new(r.len(), |i: int| aged(r[i]))
}

/// Ages every occupant of the list by one tick, in place.
pub fn age_regions(mem: &mut Vec<MemoryRegion>)
    ensures
        final(mem)@ == age(old(mem)@),
{
    let mut i: usize = 0;
    while i < mem.len()
        invariant
            i <= mem.len(),
            mem.len() == old(mem).len(),
            forall|k: int| 0 <= k < i ==> mem@[k] == aged(old(mem)@[k]),
            forall|k: int| i <= k < mem.len() ==> mem@[k] == old(mem)@[k],
        decreases mem.len() - i,
    {
        let m = mem[i];
        match m.0 {
            Some((pid, left)) => {
                if left > 0 {
                    mem[i] = MemoryRegion(Some((pid, left - 1)), m.1);
                }
            },
            None => {},
        }
        i += 1;
    }
}

// ---------------------------------------------------------------------
// Reclaiming
// ---------------------------------------------------------------------

/// A marker whose occupant has run down to exactly 0 becomes free; every
/// other marker is left alone.
pub open spec fn reclaimed(m: MemoryRegion) -> MemoryRegion {
    match m.0 {
        Some((_, left)) => if left == 0 {
            MemoryRegion(None, m.1)
        } else {
            m
        },
        None => m,
    }
}

/// Every expired occupant of the list turned into free space.
pub open spec fn reclaim(r: Seq<MemoryRegion>) -> Seq<MemoryRegion> {
    Seq::new(r.len(), |i: int| reclaimed(r[i]))
}

/// Frees every span whose occupant has lifetime 0.
pub fn reclaim_regions(mem: &Vec<MemoryRegion>) -> (out: Vec<MemoryRegion>)
    ensures
        out@ == reclaim(mem@),
{
    let mut out: Vec<MemoryRegion> = Vec::with_capacity(mem.len());
    let mut i: usize = 0;
    while i < mem.len()
        invariant
            i <= mem.len(),
            out.len() == i,
            forall|k: int| 0 <= k < i ==> out@[k] == reclaimed(mem@[k]),
        decreases mem.len() - i,
    {
        let m = mem[i];
        let freed = match m.0 {
            Some((_, left)) => if left == 0 {
                MemoryRegion(None, m.1)
            } else {
                m
            },
            None => m,
        };
        out.push(freed);
        i += 1;
    }
    out
}

/// Ageing and reclaiming touch tags only: every marker stays where it is.
pub proof fn lemma_age_reclaim_keep_addresses(r: Seq<MemoryRegion>)
    ensures
        age(r).len() == r.len(),
        reclaim(r).len() == r.len(),
        forall|i: int| 0 <= i < r.len() ==> #[trigger] age(r)[i].1 == r[i].1,
        forall|i: int| 0 <= i < r.len() ==> #[trigger] reclaim(r)[i].1 == r[i].1,
        well_formed(r) ==> well_formed(age(r)) && well_formed(reclaim(r)),
        strictly_increasing(r) ==> strictly_increasing(age(r)) && strictly_increasing(reclaim(r)),
        r.len() >= 1 ==> capacity(age(r)) == capacity(r) && capacity(reclaim(r)) == capacity(r),
{
}

// ---------------------------------------------------------------------
// Coalescing
// ---------------------------------------------------------------------

/// Whether coalescing keeps marker `i`: the marker at address 0 and the
/// sentinel always stay; any other marker stays only if its tag differs
/// from the tag of the marker before it.
pub open spec fn survives(r: Seq<MemoryRegion>, i: int) -> bool {
    i == 0 || i == r.len() - 1 || r[i].0 != r[i - 1].0
}

/// The surviving markers among the first `k`, in order.
pub open spec fn coalesce_prefix(r: Seq<MemoryRegion>, k: int) -> Seq<MemoryRegion>
    decreases k,
{
    if k <= 0 {
        Seq::empty()
    } else if survives(r, k - 1) {
        coalesce_prefix(r, k - 1).push(r[k - 1])
    } else {
        coalesce_prefix(r, k - 1)
    }
}

/// The list with every boundary between two equally tagged spans dropped.
pub open spec fn coalesce(r: Seq<MemoryRegion>) -> Seq<MemoryRegion> {
    coalesce_prefix(r, r.len() as int)
}

/// No two neighbouring spans carry the same tag. The sentinel opens no span
/// and is not compared.
pub open spec fn no_adjacent_duplicates(r: Seq<MemoryRegion>) -> bool {
    forall|i: int| 0 <= i < r.len() - 2 ==> r[i].0 != #[trigger] r[i + 1].0
}

/// What a prefix of the coalesced list looks like.
proof fn lemma_coalesce_prefix(r: Seq<MemoryRegion>, k: int)
    requires
        1 <= k <= r.len(),
    ensures
        1 <= coalesce_prefix(r, k).len() <= k,
        coalesce_prefix(r, k)[0] == r[0],
        coalesce_prefix(r, k).last().0 == r[k - 1].0,
        survives(r, k - 1) ==> coalesce_prefix(r, k).last() == r[k - 1],
        forall|a: int|
            0 <= a < coalesce_prefix(r, k).len() ==> exists|j: int|
                a <= j < k && #[trigger] coalesce_prefix(r, k)[a] == r[j],
        forall|a: int|
            0 <= a < coalesce_prefix(r, k).len() - 1 && k < r.len() ==> coalesce_prefix(
                r,
                k,
            )[a].0 != #[trigger] coalesce_prefix(r, k)[a + 1].0,
    decreases k,
{
    let c = coalesce_prefix(r, k);
    if k == 1 {
        assert(c =~= seq![r[0]]);
    } else {
        lemma_coalesce_prefix(r, k - 1);
        let b = coalesce_prefix(r, k - 1);
        assert forall|a: int| 0 <= a < c.len() implies exists|j: int|
            a <= j < k && #[trigger] c[a] == r[j] by {
            if a < b.len() {
                let j = choose|j: int| a <= j < k - 1 && b[a] == r[j];
                assert(c[a] == r[j]);
            } else {
                assert(c[a] == r[k - 1]);
            }
        }
    }
}

/// Where the markers of a coalesced prefix stand: in address order, and
/// never past the last marker considered.
proof fn lemma_coalesce_prefix_addresses(r: Seq<MemoryRegion>, k: int)
    requires
        1 <= k <= r.len(),
        forall|i: int, j: int| 0 <= i <= j < r.len() ==> r[i].1 <= r[j].1,
    ensures
        forall|a: int, b: int|
            0 <= a <= b < coalesce_prefix(r, k).len() ==> coalesce_prefix(r, k)[a].1
                <= coalesce_prefix(r, k)[b].1,
        forall|a: int|
            0 <= a < coalesce_prefix(r, k).len() ==> #[trigger] coalesce_prefix(r, k)[a].1 <= r[k
                - 1].1,
        strictly_increasing(r) ==> strictly_increasing(coalesce_prefix(r, k)),
    decreases k,
{
    let c = coalesce_prefix(r, k);
    lemma_coalesce_prefix(r, k);
    if k > 1 {
        lemma_coalesce_prefix_addresses(r, k - 1);
        lemma_coalesce_prefix(r, k - 1);
        let b = coalesce_prefix(r, k - 1);
        if strictly_increasing(r) {
            assert forall|x: int, y: int| 0 <= x < y < c.len() implies c[x].1 < c[y].1 by {
                if y == b.len() {
                    assert(b[x].1 <= r[k - 2].1);
                }
            }
        }
    }
}

/// Coalescing keeps a region list well formed and keeps its capacity; a list
/// without empty spans stays so.
pub proof fn lemma_coalesce_well_formed(r: Seq<MemoryRegion>)
    requires
        well_formed(r),
    ensures
        well_formed(coalesce(r)),
        coalesce(r).len() <= r.len(),
        coalesce(r).last() == r.last(),
        capacity(coalesce(r)) == capacity(r),
        total_span_size(coalesce(r)) == total_span_size(r),
        strictly_increasing(r) ==> strictly_increasing(coalesce(r)),
{
    let n = r.len() as int;
    lemma_coalesce_prefix(r, n - 1);
    lemma_coalesce_prefix(r, n);
    lemma_coalesce_prefix_addresses(r, n);
    lemma_spans_fill_capacity(r);
    lemma_spans_fill_capacity(coalesce(r));
}

/// After coalescing, no two neighbouring spans carry the same tag.
pub proof fn lemma_coalesce_no_adjacent_duplicates(r: Seq<MemoryRegion>)
    ensures
        no_adjacent_duplicates(coalesce(r)),
{
    let n = r.len() as int;
    if n >= 2 {
        lemma_coalesce_prefix(r, n - 1);
        let b = coalesce_prefix(r, n - 1);
        assert(coalesce(r) == b.push(r[n - 1]));
        assert forall|i: int| 0 <= i < coalesce(r).len() - 2 implies coalesce(r)[i].0
            != #[trigger] coalesce(r)[i + 1].0 by {
            assert(coalesce(r)[i] == b[i]);
            assert(coalesce(r)[i + 1] == b[i + 1]);
        }
    } else if n == 1 {
        lemma_coalesce_prefix(r, 1);
    }
}

/// Every marker among the first `k` has a marker in the coalesced prefix
/// that speaks for it: one with its tag, that stands no later, and whose
/// successor, if it has one, stands no earlier than the marker's own.
proof fn lemma_coalesce_prefix_speaks(r: Seq<MemoryRegion>, k: int, i: int) -> (j: int)
    requires
        well_formed(r),
        0 <= i < k <= r.len(),
    ensures
        0 <= j < coalesce_prefix(r, k).len(),
        coalesce_prefix(r, k)[j].0 == r[i].0,
        coalesce_prefix(r, k)[j].1 <= r[i].1,
        j + 1 < coalesce_prefix(r, k).len() && i + 1 < r.len() ==> coalesce_prefix(r, k)[j + 1].1
            >= r[i + 1].1,
    decreases k,
{
    lemma_coalesce_prefix(r, k);
    lemma_coalesce_prefix_addresses(r, k);
    let c = coalesce_prefix(r, k);
    if i == k - 1 {
        c.len() - 1
    } else {
        let j = lemma_coalesce_prefix_speaks(r, k - 1, i);
        let b = coalesce_prefix(r, k - 1);
        if j + 1 == b.len() && j + 1 < c.len() {
            assert(c[j + 1] == r[k - 1]);
            assert(r[i + 1].1 <= r[k - 1].1);
        }
        j
    }
}

/// Coalescing changes no owner: whatever span of the coalesced list an
/// address lies in carries the tag of the span the address lay in before.
pub proof fn lemma_coalesce_keeps_owners(r: Seq<MemoryRegion>, x: int, i: int, j: int)
    requires
        well_formed(r),
        span_holds(r, i, x),
        span_holds(coalesce(r), j, x),
    ensures
        coalesce(r)[j].0 == r[i].0,
{
    let c = coalesce(r);
    lemma_coalesce_well_formed(r);
    let n = r.len() as int;
    let speaker = lemma_coalesce_prefix_speaks(r, n, i);
    assert(speaker + 1 < c.len()) by {
        if speaker + 1 == c.len() {
            assert(c[speaker] == r[n - 1]);
            assert(r[i + 1].1 <= r[n - 1].1);
        }
    }
    assert(span_holds(c, speaker, x));
    assert(c[0].1 == 0);
    assert(x < capacity(c)) by {
        assert(c[j + 1].1 <= c[c.len() - 1].1);
    }
    lemma_address_has_span(c, x);
}

/// A list in which every marker survives is its own coalesced form.
proof fn lemma_coalesce_prefix_of_settled(r: Seq<MemoryRegion>, k: int)
    requires
        0 <= k <= r.len(),
        forall|i: int| 0 <= i < r.len() ==> survives(r, i),
    ensures
        coalesce_prefix(r, k) == r.take(k),
    decreases k,
{
    if k > 0 {
        lemma_coalesce_prefix_of_settled(r, k - 1);
        assert(r.take(k) =~= r.take(k - 1).push(r[k - 1]));
    } else {
        assert(r.take(0) =~= Seq::<MemoryRegion>::empty());
    }
}

/// Coalescing is idempotent: a second pass changes nothing.
pub proof fn lemma_coalesce_idempotent(r: Seq<MemoryRegion>)
    ensures
        coalesce(coalesce(r)) == coalesce(r),
{
    let c = coalesce(r);
    lemma_coalesce_no_adjacent_duplicates(r);
    assert forall|i: int| 0 <= i < c.len() implies survives(c, i) by {
        if 0 < i < c.len() - 1 {
            assert(c[i - 1].0 != c[i - 1 + 1].0);
        }
    }
    lemma_coalesce_prefix_of_settled(c, c.len() as int);
    assert(c.take(c.len() as int) =~= c);
}

/// A list without neighbouring duplicates is left as it is: coalescing drops
/// nothing it does not have to.
pub proof fn lemma_coalesce_minimal(r: Seq<MemoryRegion>)
    requires
        no_adjacent_duplicates(r),
    ensures
        coalesce(r) == r,
{
    assert forall|i: int| 0 <= i < r.len() implies survives(r, i) by {
        if 0 < i < r.len() - 1 {
            assert(r[i - 1].0 != r[i - 1 + 1].0);
        }
    }
    lemma_coalesce_prefix_of_settled(r, r.len() as int);
    assert(r.take(r.len() as int) =~= r);
}

/// Merges neighbouring spans with the same tag by removing the marker of
/// the second one. The marker at address 0 and the sentinel are always kept.
pub fn coalesce_regions(mem: &Vec<MemoryRegion>) -> (out: Vec<MemoryRegion>)
    ensures
        out@ == coalesce(mem@),
        no_adjacent_duplicates(out@),
        well_formed(mem@) ==> well_formed(out@) && capacity(out@) == capacity(mem@),
{
    let mut out: Vec<MemoryRegion> = Vec::new();
    let mut i: usize = 0;
    while i < mem.len()
        invariant
            i <= mem.len(),
            out@ == coalesce_prefix(mem@, i as int),
        decreases mem.len() - i,
    {
        if i == 0 || i == mem.len() - 1 || !same_tag(&mem[i], &mem[i - 1]) {
            out.push(mem[i]);
        }
        i += 1;
    }
    proof {
        lemma_coalesce_no_adjacent_duplicates(mem@);
        if well_formed(mem@) {
            lemma_coalesce_well_formed(mem@);
        }
    }
    out
}

// ---------------------------------------------------------------------
// Inserting an occupant
// ---------------------------------------------------------------------

/// The marker that records `req` as the occupant of a span starting at `at`.
/// The requested lifetime is reinterpreted as a signed count, so a lifetime
/// above `i32::MAX` turns negative and never runs down.
pub open spec fn occupant(req: MemoryRequest, at: u32) -> MemoryRegion {
    MemoryRegion(Some((req.process, req.lifetime as i32)), at)
}

/// The list after `req` has taken the front of span `i`. The free marker
/// gives way to the occupant's marker and moves up by the request's size;
/// where that leaves no free space, the free marker is gone.
pub open spec fn place(r: Seq<MemoryRegion>, i: int, req: MemoryRequest) -> Seq<MemoryRegion> {
    let taken = occupant(req, r[i].1);
    if span_size(r, i) == req.size {
        r.update(i, taken)
    } else {
        r.update(i, MemoryRegion(r[i].0, (r[i].1 + req.size) as u32)).insert(i, taken)
    }
}

/// Placing a request into a span that fits it keeps the list well formed and
/// the capacity unchanged; the new span never runs past the marker that
/// follows it. With a request of positive size, a list without empty spans
/// stays without them.
pub proof fn lemma_place_well_formed(r: Seq<MemoryRegion>, i: int, req: MemoryRequest)
    requires
        well_formed(r),
        fits(r, i, req.size),
    ensures
        well_formed(place(r, i, req)),
        capacity(place(r, i, req)) == capacity(r),
        total_span_size(place(r, i, req)) == total_span_size(r),
        r.len() <= place(r, i, req).len() <= r.len() + 1,
        place(r, i, req).last() == r.last(),
        place(r, i, req)[i] == occupant(req, r[i].1),
        span_size(place(r, i, req), i) == req.size,
        strictly_increasing(r) && req.size > 0 ==> strictly_increasing(place(r, i, req)),
{
    let p = place(r, i, req);
    assert(r[i].1 <= r[i + 1].1);
    assert(r[i + 1].1 <= r[r.len() - 1].1);
    if span_size(r, i) != req.size {
        assert forall|a: int, b: int| 0 <= a <= b < p.len() implies p[a].1 <= p[b].1 by {
            let a0 = if a <= i { a } else { a - 1 };
            let b0 = if b <= i { b } else { b - 1 };
            assert(r[a0].1 <= r[b0].1);
            if b > i + 1 {
                assert(r[i + 1].1 <= r[b0].1);
            }
            if a < i {
                assert(r[a0].1 <= r[i].1);
            }
        }
        if strictly_increasing(r) && req.size > 0 {
            assert forall|a: int, b: int| 0 <= a < b < p.len() implies p[a].1 < p[b].1 by {
                let a0 = if a <= i { a } else { a - 1 };
                let b0 = if b <= i { b } else { b - 1 };
                if a0 < b0 {
                    assert(r[a0].1 < r[b0].1);
                }
                if b > i + 1 {
                    assert(r[i + 1].1 <= r[b0].1);
                }
                if a < i {
                    assert(r[a0].1 < r[i].1);
                }
            }
        }
    } else {
        assert forall|a: int, b: int| 0 <= a <= b < p.len() implies p[a].1 <= p[b].1 by {
            assert(r[a].1 <= r[b].1);
        }
    }
    lemma_spans_fill_capacity(r);
    lemma_spans_fill_capacity(p);
}

/// Placing a request never makes room: whatever fits into some span
/// afterwards would have fitted into some span before.
pub proof fn lemma_place_makes_no_room(
    r: Seq<MemoryRegion>,
    i: int,
    req: MemoryRequest,
    size: u32,
)
    requires
        well_formed(r),
        fits(r, i, req.size),
        has_room(place(r, i, req), size),
    ensures
        has_room(r, size),
{
    let p = place(r, i, req);
    let j = choose|j: int| fits(p, j, size);
    assert(r[i].1 <= r[i + 1].1);
    if span_size(r, i) == req.size {
        assert(j != i);
        assert(fits(r, j, size));
    } else if j < i {
        assert(fits(r, j, size));
    } else if j == i + 1 {
        assert(fits(r, i, size));
    } else {
        assert(j > i + 1);
        assert(fits(r, j - 1, size));
    }
}

/// Placing a request changes the owner of the addresses it takes and of no
/// others: the first `req.size` addresses of span `i` go to the request, and
/// every other address keeps the tag it had.
pub proof fn lemma_place_owners(
    r: Seq<MemoryRegion>,
    i: int,
    req: MemoryRequest,
    x: int,
    before: int,
    after: int,
)
    requires
        well_formed(r),
        fits(r, i, req.size),
        span_holds(r, before, x),
        span_holds(place(r, i, req), after, x),
    ensures
        r[i].1 <= x < r[i].1 + req.size ==> place(r, i, req)[after].0 == Some(
            (req.process, req.lifetime as i32),
        ),
        !(r[i].1 <= x < r[i].1 + req.size) ==> place(r, i, req)[after].0 == r[before].0,
{
    let p = place(r, i, req);
    lemma_place_well_formed(r, i, req);
    assert(r[i].1 <= r[i + 1].1);
    assert(x < capacity(r)) by {
        assert(r[before + 1].1 <= r[r.len() - 1].1);
    }
    lemma_address_has_span(r, x);
    lemma_address_has_span(p, x);
    if span_size(r, i) == req.size {
        assert(span_holds(p, before, x));
    } else if before < i {
        assert(span_holds(p, before, x));
    } else if before > i {
        assert(span_holds(p, before + 1, x));
    } else if x < r[i].1 + req.size {
        assert(span_holds(p, i, x));
    } else {
        assert(span_holds(p, i + 1, x));
    }
}

/// Lets `req` occupy the front of free span `index`: the free marker is
/// replaced by an occupied one at the same address, and what is left of the
/// free span starts behind the new occupant, unless nothing is left.
pub fn place_request(mem: &mut Vec<MemoryRegion>, index: usize, req: MemoryRequest)
    requires
        well_formed(old(mem)@),
        fits(old(mem)@, index as int, req.size),
    ensures
        final(mem)@ == place(old(mem)@, index as int, req),
        well_formed(final(mem)@),
        capacity(final(mem)@) == capacity(old(mem)@),
{
    proof {
        lemma_place_well_formed(mem@, index as int, req);
        assert(mem@[index as int].1 <= mem@[index as int + 1].1);
    }
    let start = mem[index].1;
    let rest = MemoryRegion(mem[index].0, start + req.size);
    let lifetime = #[verifier::truncate] (req.lifetime as i32);
    mem.insert(index, MemoryRegion(Some((req.process, lifetime)), start));
    assert(index + 2 < mem.len());
    mem[index + 1] = rest;
    if mem[index + 2].1 == rest.1 {
        mem.remove(index + 1);
    }
}

// ---------------------------------------------------------------------
// Occupants that expire
// ---------------------------------------------------------------------

/// Every occupant of a span has a lifetime that runs down: at least 0 ticks
/// and at most `bound`.
pub open spec fn expiring_within(r: Seq<MemoryRegion>, bound: int) -> bool {
    forall|i: int|
        0 <= i < r.len() - 1 ==> match (#[trigger] r[i]).0 {
            Some((_, left)) => 0 <= left <= bound,
            None => true,
        }
}

/// Every span is free.
pub open spec fn all_free(r: Seq<MemoryRegion>) -> bool {
    forall|i: int| 0 <= i < r.len() - 1 ==> (#[trigger] r[i]).0 is None
}

/// A tick brings every occupant one tick closer to its end, and frees those
/// that have reached it.
pub proof fn lemma_age_reclaim_expiring(r: Seq<MemoryRegion>, bound: int)
    requires
        expiring_within(r, bound),
    ensures
        expiring_within(reclaim(age(r)), if bound > 0 { bound - 1 } else { 0 }),
        bound <= 1 ==> all_free(reclaim(age(r))),
{
    let after = reclaim(age(r));
    assert forall|i: int| 0 <= i < after.len() - 1 implies match (#[trigger] after[i]).0 {
        Some((_, left)) => 0 <= left <= (if bound > 0 { bound - 1 } else { 0 }) && bound > 1,
        None => true,
    } by {
        assert(after[i] == reclaimed(aged(r[i])));
    }
}

/// With every span free, only the first marker of a prefix survives.
proof fn lemma_coalesce_prefix_all_free(r: Seq<MemoryRegion>, k: int)
    requires
        all_free(r),
        1 <= k <= r.len() - 1,
    ensures
        coalesce_prefix(r, k) == seq![r[0]],
    decreases k,
{
    if k > 1 {
        lemma_coalesce_prefix_all_free(r, k - 1);
        assert(r[k - 1].0 is None && r[k - 2].0 is None);
        assert(!survives(r, k - 1));
    } else {
        assert(coalesce_prefix(r, 0) =~= Seq::<MemoryRegion>::empty());
        assert(coalesce_prefix(r, 1) =~= seq![r[0]]);
    }
}

/// Memory that is free all over coalesces into one free span.
pub proof fn lemma_coalesce_all_free(r: Seq<MemoryRegion>)
    requires
        r.len() >= 2,
        all_free(r),
    ensures
        coalesce(r) == seq![r[0], r.last()],
{
    lemma_coalesce_prefix_all_free(r, r.len() - 1);
}

/// Coalescing brings in no occupant: every span marker of the coalesced
/// list was a span marker before.
pub proof fn lemma_coalesce_expiring(r: Seq<MemoryRegion>, bound: int)
    requires
        r.len() >= 2,
        expiring_within(r, bound),
    ensures
        expiring_within(coalesce(r), bound),
{
    let n = r.len() as int;
    lemma_coalesce_prefix(r, n - 1);
    let b = coalesce_prefix(r, n - 1);
    let c = coalesce(r);
    assert(c == b.push(r[n - 1]));
    assert forall|a: int| 0 <= a < c.len() - 1 implies match (#[trigger] c[a]).0 {
        Some((_, left)) => 0 <= left <= bound,
        None => true,
    } by {
        let j = choose|j: int| a <= j < n - 1 && b[a] == r[j];
        assert(c[a] == r[j]);
    }
}

/// A request that is placed is the only occupant that comes in, with the
/// lifetime it asked for.
pub proof fn lemma_place_expiring(r: Seq<MemoryRegion>, i: int, req: MemoryRequest, bound: int)
    requires
        well_formed(r),
        fits(r, i, req.size),
        expiring_within(r, bound),
        req.lifetime <= i32::MAX,
    ensures
        expiring_within(place(r, i, req), if bound >= req.lifetime { bound } else { req.lifetime as int }),
{
    let p = place(r, i, req);
    let most = if bound >= req.lifetime { bound } else { req.lifetime as int };
    assert(req.lifetime as i32 == req.lifetime);
    assert forall|a: int| 0 <= a < p.len() - 1 implies match (#[trigger] p[a]).0 {
        Some((_, left)) => 0 <= left <= most,
        None => true,
    } by {
        if span_size(r, i) == req.size {
            if a != i {
                assert(p[a] == r[a]);
            }
        } else if a < i {
            assert(p[a] == r[a]);
        } else if a > i + 1 {
            assert(p[a] == r[a - 1]);
        }
    }
}

} // verus!
