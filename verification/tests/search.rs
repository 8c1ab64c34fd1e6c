use contiguous_memory_allocation::strategies::best_fit::find_best_fit;
use contiguous_memory_allocation::strategies::engine::{choose_span, Policy};
use contiguous_memory_allocation::strategies::next_fit::{find_next_fit, locate};
use contiguous_memory_allocation::strategies::worst_fit::find_worst_fit;
use contiguous_memory_allocation::strategies::{MemoryRegion, Pid};

fn free(at: u32) -> MemoryRegion {
    MemoryRegion(None, at)
}

fn held(pid: u32, at: u32) -> MemoryRegion {
    MemoryRegion(Some((Pid(pid), 9)), at)
}

/// free spans of 5, 5 and 8 units at the indices 0, 2 and 4.
fn layout() -> Vec<MemoryRegion> {
    vec![free(0), held(1, 5), free(10), held(2, 15), free(20), free(28)]
}

#[test]
fn best_fit_takes_the_smallest_span_that_fits() {
    assert_eq!(find_best_fit(&layout(), 6), Some(4));
    assert_eq!(find_best_fit(&layout(), 8), Some(4));
    let mem = vec![free(0), held(1, 9), free(10), held(2, 13), free(20), free(28)];
    assert_eq!(find_best_fit(&mem, 2), Some(2));
    assert_eq!(find_best_fit(&mem, 4), Some(4));
    assert_eq!(find_best_fit(&mem, 9), Some(0));
}

#[test]
fn best_fit_takes_the_first_of_equally_small_spans() {
    assert_eq!(find_best_fit(&layout(), 5), Some(0));
    assert_eq!(find_best_fit(&layout(), 0), Some(0));
}

#[test]
fn best_fit_finds_nothing_where_nothing_fits() {
    assert_eq!(find_best_fit(&layout(), 9), None);
    assert_eq!(find_best_fit(&vec![held(1, 0), free(8)], 1), None);
}

#[test]
fn worst_fit_takes_the_largest_span() {
    assert_eq!(find_worst_fit(&layout(), 1), Some(4));
    assert_eq!(find_worst_fit(&layout(), 8), Some(4));
}

#[test]
fn worst_fit_takes_the_first_of_equally_large_spans() {
    let mem = vec![free(0), held(1, 8), free(10), held(2, 18), free(20), free(25)];
    assert_eq!(find_worst_fit(&mem, 3), Some(0));
    assert_eq!(find_worst_fit(&mem, 8), Some(0));
}

#[test]
fn worst_fit_finds_nothing_where_nothing_fits() {
    assert_eq!(find_worst_fit(&layout(), 9), None);
}

#[test]
fn next_fit_scans_from_just_behind_the_cursor() {
    assert_eq!(find_next_fit(&layout(), 0, 5), Some(2));
    assert_eq!(find_next_fit(&layout(), 1, 5), Some(2));
    assert_eq!(find_next_fit(&layout(), 2, 5), Some(4));
    assert_eq!(find_next_fit(&layout(), 3, 5), Some(4));
}

#[test]
fn next_fit_wraps_round_and_ends_at_the_cursor() {
    assert_eq!(find_next_fit(&layout(), 4, 5), Some(0));
    assert_eq!(find_next_fit(&layout(), 2, 8), Some(4));
    assert_eq!(find_next_fit(&layout(), 4, 6), Some(4));
    assert_eq!(find_next_fit(&layout(), 0, 6), Some(4));
    assert_eq!(find_next_fit(&vec![free(0), free(128)], 0, 10), Some(0));
}

#[test]
fn next_fit_finds_nothing_where_nothing_fits() {
    assert_eq!(find_next_fit(&layout(), 2, 9), None);
}

#[test]
fn span_is_chosen_as_the_policy_says() {
    let mem = vec![free(0), held(1, 8), free(10), held(2, 13), free(20), free(25)];
    assert_eq!(choose_span(Policy::BestFit, &mem, 2), Some(2));
    assert_eq!(choose_span(Policy::WorstFit, &mem, 2), Some(0));
    assert_eq!(choose_span(Policy::NextFit { cursor: 2 }, &mem, 2), Some(4));
    assert_eq!(choose_span(Policy::BestFit, &mem, 9), None);
    assert_eq!(choose_span(Policy::WorstFit, &mem, 9), None);
    assert_eq!(choose_span(Policy::NextFit { cursor: 2 }, &mem, 9), None);
}

#[test]
fn cursor_goes_to_the_marker_at_its_address() {
    assert_eq!(locate(&layout(), 0), 0);
    assert_eq!(locate(&layout(), 10), 2);
    assert_eq!(locate(&layout(), 20), 4);
}

#[test]
fn cursor_falls_back_to_the_marker_before_its_address() {
    assert_eq!(locate(&layout(), 7), 1);
    assert_eq!(locate(&layout(), 19), 3);
    assert_eq!(locate(&layout(), 27), 4);
    assert_eq!(locate(&layout(), 28), 4);
    assert_eq!(locate(&vec![free(0), free(128)], 10), 0);
}
