use contiguous_memory_allocation::simulation::driver;
use contiguous_memory_allocation::strategies::{
    BestFit, MemAllocator, MemoryRegion, MemoryRequest, NextFit, Pid, WorstFit,
    FINAL_MEM_REGION_PID,
};

fn free(at: u32) -> MemoryRegion {
    MemoryRegion(None, at)
}

fn held(pid: u32, left: i32, at: u32) -> MemoryRegion {
    MemoryRegion(Some((Pid(pid), left)), at)
}

fn end(at: u32) -> MemoryRegion {
    MemoryRegion(Some((Pid(FINAL_MEM_REGION_PID), -1)), at)
}

fn ask(pid: u32, size: u32, lifetime: u32) -> MemoryRequest {
    MemoryRequest {
        process: Pid(pid),
        size,
        lifetime,
    }
}

#[test]
fn run_ends_when_the_memory_is_at_rest() {
    let history = driver(NextFit::new(16), &vec![ask(0, 4, 1), ask(1, 4, 2)], 100);
    assert_eq!(
        history,
        vec![
            (vec![held(0, 1, 0), held(1, 2, 4), free(8), end(16)], vec![]),
            (vec![free(0), held(1, 1, 4), free(8), end(16)], vec![]),
            (vec![free(0), end(16)], vec![]),
        ]
    );
}

#[test]
fn run_is_cut_off_at_the_limit() {
    let history = driver(BestFit::new(16), &vec![ask(0, 4, 1), ask(1, 4, 2)], 2);
    assert_eq!(
        history,
        vec![
            (vec![held(0, 1, 0), held(1, 2, 4), free(8), end(16)], vec![]),
            (vec![free(0), held(1, 1, 4), free(8), end(16)], vec![]),
        ]
    );
    assert_eq!(driver(BestFit::new(16), &vec![ask(0, 4, 1)], 0), vec![]);
}

#[test]
fn run_with_nothing_to_place_ends_at_once() {
    assert_eq!(
        driver(WorstFit::new(16), &vec![], 100),
        vec![(vec![free(0), end(16)], vec![])]
    );
}

#[test]
fn run_with_a_request_that_never_fits_ends_at_the_limit_only() {
    let history = driver(WorstFit::new(16), &vec![ask(0, 100, 1)], 7);
    assert_eq!(history.len(), 7);
    for snapshot in history.iter() {
        assert_eq!(*snapshot, (vec![free(0), end(16)], vec![ask(0, 100, 1)]));
    }
    let history = driver(BestFit::new(16), &vec![ask(0, 100, 1), ask(1, 4, 1)], 5);
    assert_eq!(
        history,
        vec![
            (vec![held(1, 1, 0), free(4), end(16)], vec![ask(0, 100, 1)]),
            (vec![free(0), end(16)], vec![ask(0, 100, 1)]),
            (vec![free(0), end(16)], vec![ask(0, 100, 1)]),
            (vec![free(0), end(16)], vec![ask(0, 100, 1)]),
            (vec![free(0), end(16)], vec![ask(0, 100, 1)]),
        ]
    );
}

#[test]
fn run_goes_on_while_one_occupant_holds_the_whole_memory() {
    let history = driver(NextFit::new(128), &vec![ask(1, 128, 5)], 100);
    assert_eq!(
        history,
        vec![
            (vec![held(1, 5, 0), end(128)], vec![]),
            (vec![held(1, 4, 0), end(128)], vec![]),
            (vec![held(1, 3, 0), end(128)], vec![]),
            (vec![held(1, 2, 0), end(128)], vec![]),
            (vec![held(1, 1, 0), end(128)], vec![]),
            (vec![free(0), end(128)], vec![]),
        ]
    );
}

#[test]
fn run_with_an_occupant_that_never_expires_ends_at_the_limit_only() {
    let history = driver(BestFit::new(8), &vec![ask(1, 8, u32::MAX)], 4);
    assert_eq!(history.len(), 4);
    for snapshot in history.iter() {
        assert_eq!(*snapshot, (vec![held(1, -1, 0), end(8)], vec![]));
    }
}

#[test]
fn run_records_who_is_still_waiting() {
    let history = driver(WorstFit::new(10), &vec![ask(0, 8, 1), ask(1, 5, 1)], 100);
    assert_eq!(
        history,
        vec![
            (vec![held(0, 1, 0), free(8), end(10)], vec![ask(1, 5, 1)]),
            (vec![held(1, 1, 0), free(5), end(10)], vec![]),
            (vec![free(0), end(10)], vec![]),
        ]
    );
}

#[test]
fn run_queues_behind_what_already_waits() {
    let seeded = NextFit::new(10).request(ask(7, 6, 1));
    let history = driver(seeded, &vec![ask(0, 6, 1)], 1);
    assert_eq!(
        history,
        vec![(vec![held(7, 1, 0), free(6), end(10)], vec![ask(0, 6, 1)])]
    );
}

#[test]
fn run_is_the_ticks_one_after_another() {
    let requests = vec![ask(0, 3, 2), ask(1, 9, 1), ask(2, 5, 3)];
    let history = driver(BestFit::new(12), &requests, 50);
    let mut allocator = BestFit::new(12);
    for req in requests.iter() {
        allocator = allocator.request(*req);
    }
    for (mem, waiting) in history.iter() {
        let (want_mem, want_waiting, after) = allocator.tick();
        assert_eq!(*mem, want_mem);
        assert_eq!(*waiting, want_waiting);
        allocator = after;
    }
    assert_eq!(*history.last().unwrap(), (vec![free(0), end(12)], vec![]));
    assert!(history[..history.len() - 1]
        .iter()
        .all(|snapshot| *snapshot != (vec![free(0), end(12)], vec![])));
}

#[test]
fn run_comes_to_rest_within_the_ticks_its_requests_ask_for() {
    // three requests that each need the whole memory ask for 4 + 3 + 1 ticks.
    let requests = vec![ask(0, 16, 3), ask(1, 16, 2), ask(2, 16, 0)];
    for history in [
        driver(BestFit::new(16), &requests, 9),
        driver(WorstFit::new(16), &requests, 9),
        driver(NextFit::new(16), &requests, 9),
    ] {
        assert_eq!(
            history,
            vec![
                (vec![held(0, 3, 0), end(16)], vec![ask(1, 16, 2), ask(2, 16, 0)]),
                (vec![held(0, 2, 0), end(16)], vec![ask(1, 16, 2), ask(2, 16, 0)]),
                (vec![held(0, 1, 0), end(16)], vec![ask(1, 16, 2), ask(2, 16, 0)]),
                (vec![held(1, 2, 0), end(16)], vec![ask(2, 16, 0)]),
                (vec![held(1, 1, 0), end(16)], vec![ask(2, 16, 0)]),
                (vec![held(2, 0, 0), end(16)], vec![]),
                (vec![free(0), end(16)], vec![]),
            ]
        );
    }
}

#[test]
fn two_markers_with_somebody_waiting_are_not_at_rest() {
    let history = driver(BestFit::new(8), &vec![ask(0, 8, 1), ask(1, 8, 1)], 20);
    assert_eq!(
        history,
        vec![
            (vec![held(0, 1, 0), end(8)], vec![ask(1, 8, 1)]),
            (vec![held(1, 1, 0), end(8)], vec![]),
            (vec![free(0), end(8)], vec![]),
        ]
    );
}
