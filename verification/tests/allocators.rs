use contiguous_memory_allocation::strategies::{
    BestFit, MemAllocator, MemoryRegion, MemoryRequest, NextFit, Pid, WorstFit,
    FINAL_MEM_REGION_PID,
};

fn free(at: u32) -> MemoryRegion {
    MemoryRegion(None, at)
}

fn held(pid: u32, left: i32, at: u32) -> MemoryRegion {
    MemoryRegion(Some((Pid(pid), left)), at)
}

fn end(at: u32) -> MemoryRegion {
    MemoryRegion(Some((Pid(FINAL_MEM_REGION_PID), -1)), at)
}

fn ask(pid: u32, size: u32, lifetime: u32) -> MemoryRequest {
    MemoryRequest {
        process: Pid(pid),
        size,
        lifetime,
    }
}

fn spans_total(mem: &[MemoryRegion]) -> u32 {
    mem.windows(2).map(|w| w[1].1 - w[0].1).sum()
}

fn strictly_increasing(mem: &[MemoryRegion]) -> bool {
    mem.windows(2).all(|w| w[0].1 < w[1].1)
}

#[test]
fn new_allocator_is_one_free_span() {
    let (mem, waiting, _) = BestFit::new(128).tick();
    assert_eq!(mem, vec![free(0), end(128)]);
    assert!(waiting.is_empty());
    let (mem, waiting, _) = WorstFit::new(64).tick();
    assert_eq!(mem, vec![free(0), end(64)]);
    assert!(waiting.is_empty());
    let (mem, waiting, _) = NextFit::new(1).tick();
    assert_eq!(mem, vec![free(0), end(1)]);
    assert!(waiting.is_empty());
}

#[test]
fn request_only_queues() {
    let before = BestFit::new(128);
    let after = before.request(ask(1, 10, 5));
    assert_eq!(after.dealloc(), after);
    assert_ne!(after, before);
    let (mem, waiting, _) = after.dealloc().tick();
    assert_eq!(mem, vec![held(1, 5, 0), free(10), end(128)]);
    assert!(waiting.is_empty());
}

#[test]
fn malformed_region_list_gives_no_allocator() {
    assert_eq!(BestFit::from_regions(vec![free(0)]), None);
    assert_eq!(WorstFit::from_regions(vec![free(4), free(8)]), None);
    assert_eq!(NextFit::from_regions(vec![free(0), free(8), free(4)]), None);
    assert!(NextFit::from_regions(vec![free(0), free(8)]).is_some());
}

#[test]
fn tick_counts() {
    let allocator = WorstFit::new(8);
    assert_eq!(allocator.ticks(), 0);
    let (_, _, allocator) = allocator.tick();
    let (_, _, allocator) = allocator.tick();
    assert_eq!(allocator.ticks(), 2);
    assert_eq!(allocator.request(ask(1, 1, 1)).ticks(), 2);
}

#[test]
fn best_fit_places_every_request_that_fits_in_one_tick() {
    let (mem, waiting, _) = BestFit::new(128)
        .request(ask(1, 10, 5))
        .request(ask(1, 11, 5))
        .request(ask(2, 7, 5))
        .tick();
    assert_eq!(
        mem,
        vec![
            held(1, 5, 0),
            held(1, 5, 10),
            held(2, 5, 21),
            free(28),
            end(128)
        ]
    );
    assert!(waiting.is_empty());
}

#[test]
fn best_fit_gives_the_request_no_more_than_it_asked_for() {
    let allocator = BestFit::from_regions(vec![
        held(0, 3, 0),
        free(15),
        held(2, 3, 21),
        free(22),
        held(3, 3, 25),
        free(128),
    ])
    .unwrap();
    let (mem, _, _) = allocator.request(ask(1, 2, 3)).tick();
    assert_eq!(
        mem,
        vec![
            held(0, 2, 0),
            free(15),
            held(2, 2, 21),
            held(1, 3, 22),
            free(24),
            held(3, 2, 25),
            free(128),
        ]
    );
}

#[test]
fn blocked_request_does_not_hold_up_later_ones() {
    let (mem, waiting, next) = BestFit::new(10)
        .request(ask(1, 20, 5))
        .request(ask(2, 4, 5))
        .request(ask(3, 7, 5))
        .request(ask(4, 6, 5))
        .tick();
    assert_eq!(mem, vec![held(2, 5, 0), held(4, 5, 4), end(10)]);
    assert_eq!(waiting, vec![ask(1, 20, 5), ask(3, 7, 5)]);
    // what was deferred keeps its place in front of what arrives later.
    let (_, waiting, _) = next.request(ask(5, 30, 1)).tick();
    assert_eq!(waiting, vec![ask(1, 20, 5), ask(3, 7, 5), ask(5, 30, 1)]);
}

#[test]
fn earlier_request_is_served_first_when_both_fit() {
    let (mem, waiting, _) = WorstFit::new(10)
        .request(ask(1, 6, 5))
        .request(ask(2, 6, 5))
        .tick();
    assert_eq!(mem, vec![held(1, 5, 0), free(6), end(10)]);
    assert_eq!(waiting, vec![ask(2, 6, 5)]);
}

#[test]
fn nothing_left_waiting_would_fit() {
    let (mem, waiting, _) = NextFit::new(32)
        .request(ask(1, 20, 5))
        .request(ask(2, 20, 5))
        .request(ask(3, 12, 5))
        .request(ask(4, 1, 5))
        .tick();
    assert_eq!(mem, vec![held(1, 5, 0), held(3, 5, 20), end(32)]);
    assert_eq!(waiting, vec![ask(2, 20, 5), ask(4, 1, 5)]);
}

#[test]
fn deferred_request_is_placed_once_room_is_freed() {
    let (_, waiting, allocator) = WorstFit::new(10)
        .request(ask(1, 8, 1))
        .request(ask(2, 5, 3))
        .tick();
    assert_eq!(waiting, vec![ask(2, 5, 3)]);
    let (mem, waiting, allocator) = allocator.tick();
    assert_eq!(mem, vec![held(2, 3, 0), free(5), end(10)]);
    assert!(waiting.is_empty());
    let (mem, _, _) = allocator.tick();
    assert_eq!(mem, vec![held(2, 2, 0), free(5), end(10)]);
}

#[test]
fn occupants_age_expire_and_are_merged_away() {
    let allocator = NextFit::new(16)
        .request(ask(1, 4, 1))
        .request(ask(2, 4, 2));
    let (mem, _, allocator) = allocator.tick();
    assert_eq!(mem, vec![held(1, 1, 0), held(2, 2, 4), free(8), end(16)]);
    let (mem, _, allocator) = allocator.tick();
    assert_eq!(mem, vec![free(0), held(2, 1, 4), free(8), end(16)]);
    let (mem, _, allocator) = allocator.tick();
    assert_eq!(mem, vec![free(0), end(16)]);
    let (mem, _, _) = allocator.tick();
    assert_eq!(mem, vec![free(0), end(16)]);
}

#[test]
fn lifetime_zero_is_reclaimed_on_the_next_tick() {
    let (mem, _, allocator) = BestFit::new(8).request(ask(1, 3, 0)).tick();
    assert_eq!(mem, vec![held(1, 0, 0), free(3), end(8)]);
    let (mem, _, _) = allocator.tick();
    assert_eq!(mem, vec![free(0), end(8)]);
}

#[test]
fn negative_lifetime_never_runs_down() {
    let (mem, _, allocator) = WorstFit::new(8).request(ask(1, 3, u32::MAX)).tick();
    assert_eq!(mem, vec![held(1, -1, 0), free(3), end(8)]);
    let (_, _, allocator) = allocator.tick();
    let (mem, _, _) = allocator.tick();
    assert_eq!(mem, vec![held(1, -1, 0), free(3), end(8)]);
}

#[test]
fn sentinel_survives_a_neighbour_with_its_own_tag() {
    let (mem, _, allocator) = BestFit::new(8)
        .request(ask(FINAL_MEM_REGION_PID, 8, u32::MAX))
        .tick();
    assert_eq!(mem, vec![end(0), end(8)]);
    let (mem, _, _) = allocator.tick();
    assert_eq!(mem, vec![end(0), end(8)]);
}

#[test]
fn free_sentinel_survives_the_last_span_falling_free() {
    let allocator = WorstFit::from_regions(vec![held(1, 1, 0), free(128)]).unwrap();
    let (mem, _, allocator) = allocator.tick();
    assert_eq!(mem, vec![free(0), free(128)]);
    let (mem, _, _) = allocator.request(ask(2, 128, 1)).tick();
    assert_eq!(mem, vec![held(2, 1, 0), free(128)]);
}

#[test]
fn neighbours_with_equal_tags_are_merged_on_the_next_tick() {
    let (mem, _, allocator) = NextFit::new(128)
        .request(ask(1, 10, 5))
        .request(ask(1, 11, 5))
        .tick();
    assert_eq!(
        mem,
        vec![held(1, 5, 0), held(1, 5, 10), free(21), end(128)]
    );
    let (mem, _, _) = allocator.tick();
    assert_eq!(mem, vec![held(1, 4, 0), free(21), end(128)]);
}

#[test]
fn worst_fit_splits_the_largest_span() {
    let allocator = WorstFit::from_regions(vec![
        free(0),
        held(1, 9, 4),
        free(8),
        held(2, 9, 20),
        free(24),
        free(32),
    ])
    .unwrap();
    let (mem, waiting, _) = allocator
        .request(ask(3, 4, 2))
        .request(ask(4, 8, 2))
        .request(ask(5, 8, 2))
        .tick();
    // 4 units go into the 12-unit span; its remaining 8 units are then the
    // first of two largest spans.
    assert_eq!(
        mem,
        vec![
            free(0),
            held(1, 8, 4),
            held(3, 2, 8),
            held(4, 2, 12),
            held(2, 8, 20),
            held(5, 2, 24),
            free(32),
        ]
    );
    assert!(waiting.is_empty());
}

#[test]
fn next_fit_goes_on_from_the_last_placement() {
    let allocator = NextFit::from_regions(vec![
        free(0),
        held(1, 9, 4),
        free(8),
        held(2, 9, 12),
        free(16),
        free(32),
    ])
    .unwrap();
    assert_eq!(allocator.cursor(), 0);
    let (mem, _, allocator) = allocator
        .request(ask(3, 2, 9))
        .request(ask(4, 2, 9))
        .request(ask(5, 2, 9))
        .tick();
    // the scan starts behind the cursor at index 0: the first request goes to
    // address 8, the second behind it, the third to the next free span.
    assert_eq!(
        mem,
        vec![
            free(0),
            held(1, 8, 4),
            held(3, 9, 8),
            held(4, 9, 10),
            held(2, 8, 12),
            held(5, 9, 16),
            free(18),
            free(32),
        ]
    );
    assert_eq!(allocator.cursor(), 5);
    // the span behind the cursor is filled up; from there the scan wraps
    // round to address 0.
    let (mem, _, allocator) = allocator.request(ask(6, 14, 9)).request(ask(7, 3, 9)).tick();
    assert_eq!(
        mem,
        vec![
            held(7, 9, 0),
            free(3),
            held(1, 7, 4),
            held(3, 8, 8),
            held(4, 8, 10),
            held(2, 7, 12),
            held(5, 8, 16),
            held(6, 9, 18),
            free(32),
        ]
    );
    assert_eq!(allocator.cursor(), 0);
}

#[test]
fn cursor_follows_its_address_through_coalescing() {
    let (mem, _, allocator) = NextFit::new(32)
        .request(ask(1, 8, 1))
        .request(ask(2, 8, 5))
        .request(ask(3, 8, 1))
        .tick();
    assert_eq!(
        mem,
        vec![held(1, 1, 0), held(2, 5, 8), held(3, 1, 16), free(24), end(32)]
    );
    assert_eq!(allocator.cursor(), 2);
    let settled = allocator.dealloc();
    assert_eq!(settled.cursor(), 2);
    let (mem, _, allocator) = allocator.tick();
    assert_eq!(mem, vec![free(0), held(2, 4, 8), free(16), end(32)]);
    assert_eq!(allocator.cursor(), 2);
    // the span at the cursor is the last one the scan comes to.
    let (mem, _, allocator) = allocator.request(ask(4, 4, 9)).tick();
    assert_eq!(
        mem,
        vec![held(4, 9, 0), free(4), held(2, 3, 8), free(16), end(32)]
    );
    assert_eq!(allocator.cursor(), 0);
}

#[test]
fn cursor_falls_back_to_the_marker_before_a_merged_one() {
    let (_, _, allocator) = NextFit::new(32)
        .request(ask(1, 8, 5))
        .request(ask(2, 8, 1))
        .request(ask(3, 8, 1))
        .tick();
    assert_eq!(allocator.cursor(), 2);
    // the spans at 8 and 16 fall free together and merge with the rest, so
    // no marker is left at 16: the cursor goes to the one at 8.
    let (mem, _, allocator) = allocator.tick();
    assert_eq!(mem, vec![held(1, 4, 0), free(8), end(32)]);
    assert_eq!(allocator.cursor(), 1);
}

#[test]
fn steps_are_the_parts_of_a_tick() {
    let allocator = WorstFit::from_regions(vec![held(1, 0, 0), free(4), held(2, 3, 8), free(16)])
        .unwrap()
        .request(ask(3, 20, 1))
        .request(ask(4, 2, 2));
    let settled = allocator.dealloc();
    assert_eq!(
        settled,
        WorstFit::from_regions(vec![free(0), held(2, 3, 8), free(16)])
            .unwrap()
            .request(ask(3, 20, 1))
            .request(ask(4, 2, 2))
    );
    let (mem, waiting, _) = settled.fullfill_reqs().dealloc().tick();
    assert_eq!(mem, vec![held(4, 1, 0), free(2), held(2, 2, 8), free(16)]);
    assert_eq!(waiting, vec![ask(3, 20, 1)]);
}

#[test]
fn one_pass_over_the_queue_settles_it() {
    let once = BestFit::new(10)
        .request(ask(1, 20, 5))
        .request(ask(2, 4, 5))
        .request(ask(3, 7, 5))
        .fullfill_reqs();
    let twice = once.clone().fullfill_reqs();
    assert_eq!(once, twice);
}

#[test]
fn spans_always_add_up_to_the_capacity() {
    let mut best = BestFit::new(100);
    let mut worst = WorstFit::new(100);
    let mut next = NextFit::new(100);
    for i in 0..40u32 {
        let req = ask(i, 1 + (i * 7) % 23, 1 + (i * 5) % 4);
        best = best.request(req);
        worst = worst.request(req);
        next = next.request(req);
    }
    for _ in 0..30 {
        let (mem, _, after) = best.tick();
        assert_eq!(spans_total(&mem), 100);
        assert!(strictly_increasing(&mem));
        assert_eq!(mem[0].1, 0);
        best = after;
        let (mem, _, after) = worst.tick();
        assert_eq!(spans_total(&mem), 100);
        assert!(strictly_increasing(&mem));
        assert_eq!(mem[0].1, 0);
        worst = after;
        let (mem, _, after) = next.tick();
        assert_eq!(spans_total(&mem), 100);
        assert!(strictly_increasing(&mem));
        assert_eq!(mem[0].1, 0);
        next = after;
    }
    assert_eq!(best.tick().0, vec![free(0), end(100)]);
    assert_eq!(worst.tick().0, vec![free(0), end(100)]);
    assert_eq!(next.tick().0, vec![free(0), end(100)]);
}

#[test]
fn request_for_nothing_leaves_an_empty_span() {
    let (mem, _, _) = NextFit::new(128).request(ask(1, 0, 2)).tick();
    assert_eq!(mem, vec![held(1, 2, 0), free(0), end(128)]);
    assert!(!strictly_increasing(&mem));
    assert_eq!(spans_total(&mem), 128);
}

#[test]
fn clone_is_equal() {
    let allocator = NextFit::new(16).request(ask(1, 4, 1));
    assert_eq!(allocator.clone(), allocator);
    let (_, _, allocator) = allocator.tick();
    assert_eq!(allocator.clone(), allocator);
}

#[test]
fn next_fit_starts_from_a_given_cursor() {
    let mem = vec![free(0), held(1, 9, 4), free(8), held(2, 9, 12), free(16), free(32)];
    assert_eq!(NextFit::from_regions_at(mem.clone(), 5), None);
    assert_eq!(NextFit::from_regions_at(vec![free(4), free(8)], 0), None);
    assert_eq!(
        NextFit::from_regions_at(mem.clone(), 0),
        NextFit::from_regions(mem.clone())
    );
    let allocator = NextFit::from_regions_at(mem.clone(), 2).unwrap();
    assert_eq!(allocator.cursor(), 2);
    // behind the cursor at index 2 the next free span is the one at 16; the
    // span at the cursor itself comes last.
    let (after, _, allocator) = allocator.request(ask(3, 2, 9)).tick();
    assert_eq!(
        after,
        vec![
            free(0),
            held(1, 8, 4),
            free(8),
            held(2, 8, 12),
            held(3, 9, 16),
            free(18),
            free(32),
        ]
    );
    assert_eq!(allocator.cursor(), 4);
    let allocator = NextFit::from_regions_at(mem, 4).unwrap();
    let (after, _, allocator) = allocator.request(ask(3, 20, 9)).request(ask(4, 4, 9)).tick();
    assert_eq!(
        after,
        vec![
            held(4, 9, 0),
            held(1, 8, 4),
            free(8),
            held(2, 8, 12),
            free(16),
            free(32),
        ]
    );
    assert_eq!(allocator.cursor(), 0);
}
