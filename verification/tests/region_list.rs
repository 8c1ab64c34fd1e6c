use contiguous_memory_allocation::strategies::region_list::{
    age_regions, coalesce_regions, is_well_formed, place_request, reclaim_regions, same_tag,
};
use contiguous_memory_allocation::strategies::{MemoryRegion, MemoryRequest, Pid};

fn free(at: u32) -> MemoryRegion {
    MemoryRegion(None, at)
}

fn held(pid: u32, left: i32, at: u32) -> MemoryRegion {
    MemoryRegion(Some((Pid(pid), left)), at)
}

#[test]
fn well_formed_lists_are_accepted() {
    assert!(is_well_formed(&vec![free(0), free(128)]));
    assert!(is_well_formed(&vec![free(0), free(0)]));
    assert!(is_well_formed(&vec![held(1, 4, 0), free(5), held(2, 0, 5), free(9)]));
}

#[test]
fn malformed_lists_are_turned_down() {
    assert!(!is_well_formed(&vec![]));
    assert!(!is_well_formed(&vec![free(0)]));
    assert!(!is_well_formed(&vec![free(1), free(128)]));
    assert!(!is_well_formed(&vec![free(0), held(1, 1, 9), free(8)]));
}

#[test]
fn tags_are_compared_literally() {
    assert!(same_tag(&free(0), &free(7)));
    assert!(same_tag(&held(1, 3, 0), &held(1, 3, 9)));
    assert!(!same_tag(&held(1, 3, 0), &held(1, 2, 0)));
    assert!(!same_tag(&held(1, 3, 0), &held(2, 3, 0)));
    assert!(!same_tag(&held(1, 3, 0), &free(0)));
}

#[test]
fn ageing_takes_one_tick_from_positive_lifetimes_only() {
    let mut mem = vec![
        held(1, 3, 0),
        held(2, 1, 4),
        held(3, 0, 8),
        held(4, -1, 12),
        free(16),
        held(999, -1, 20),
    ];
    age_regions(&mut mem);
    assert_eq!(
        mem,
        vec![
            held(1, 2, 0),
            held(2, 0, 4),
            held(3, 0, 8),
            held(4, -1, 12),
            free(16),
            held(999, -1, 20),
        ]
    );
}

#[test]
fn only_lifetime_zero_is_reclaimed() {
    let mem = vec![
        held(1, 1, 0),
        held(2, 0, 4),
        held(3, -1, 8),
        free(12),
        held(999, -1, 20),
    ];
    assert_eq!(
        reclaim_regions(&mem),
        vec![
            held(1, 1, 0),
            free(4),
            held(3, -1, 8),
            free(12),
            held(999, -1, 20),
        ]
    );
}

#[test]
fn coalescing_merges_equal_neighbours() {
    let mem = vec![
        free(0),
        free(4),
        held(1, 2, 8),
        held(1, 2, 12),
        held(1, 2, 16),
        free(20),
        free(24),
        held(999, -1, 32),
    ];
    assert_eq!(
        coalesce_regions(&mem),
        vec![free(0), held(1, 2, 8), free(20), held(999, -1, 32)]
    );
}

#[test]
fn same_owner_with_other_lifetime_is_not_merged() {
    let mem = vec![held(1, 2, 0), held(1, 3, 8), held(2, 3, 12), free(16)];
    assert_eq!(coalesce_regions(&mem), mem);
}

#[test]
fn coalescing_keeps_the_sentinel_whatever_its_tag() {
    assert_eq!(
        coalesce_regions(&vec![free(0), free(10), free(128)]),
        vec![free(0), free(128)]
    );
    assert_eq!(
        coalesce_regions(&vec![held(999, -1, 0), held(999, -1, 128)]),
        vec![held(999, -1, 0), held(999, -1, 128)]
    );
}

#[test]
fn coalescing_twice_is_coalescing_once() {
    let mem = vec![
        free(0),
        free(3),
        free(5),
        held(7, 1, 9),
        held(7, 1, 11),
        held(7, 2, 12),
        free(20),
        free(21),
    ];
    let once = coalesce_regions(&mem);
    assert_eq!(
        once,
        vec![free(0), held(7, 1, 9), held(7, 2, 12), free(20), free(21)]
    );
    assert_eq!(coalesce_regions(&once), once);
}

#[test]
fn coalescing_keeps_the_capacity() {
    let mem = vec![free(0), free(3), held(7, 1, 9), held(7, 1, 11), free(20), free(64)];
    let merged = coalesce_regions(&mem);
    assert_eq!(merged.last().unwrap().1, 64);
    assert_eq!(merged[0].1, 0);
    let total: u32 = merged.windows(2).map(|w| w[1].1 - w[0].1).sum();
    assert_eq!(total, 64);
}

#[test]
fn placing_into_a_larger_span_leaves_the_rest_free() {
    let mut mem = vec![held(1, 2, 0), free(4), held(2, 2, 12), free(16)];
    place_request(
        &mut mem,
        1,
        MemoryRequest {
            process: Pid(3),
            size: 5,
            lifetime: 7,
        },
    );
    assert_eq!(
        mem,
        vec![held(1, 2, 0), held(3, 7, 4), free(9), held(2, 2, 12), free(16)]
    );
}

#[test]
fn placing_into_a_span_of_the_same_size_leaves_no_empty_span() {
    let mut mem = vec![held(1, 2, 0), free(4), held(2, 2, 12), free(16)];
    place_request(
        &mut mem,
        1,
        MemoryRequest {
            process: Pid(3),
            size: 8,
            lifetime: 7,
        },
    );
    assert_eq!(mem, vec![held(1, 2, 0), held(3, 7, 4), held(2, 2, 12), free(16)]);
}

#[test]
fn placing_into_the_last_span_stops_at_the_sentinel() {
    let mut mem = vec![free(0), held(999, -1, 8)];
    place_request(
        &mut mem,
        0,
        MemoryRequest {
            process: Pid(3),
            size: 8,
            lifetime: 1,
        },
    );
    assert_eq!(mem, vec![held(3, 1, 0), held(999, -1, 8)]);
}

#[test]
fn lifetime_above_i32_max_turns_negative() {
    let mut mem = vec![free(0), free(8)];
    place_request(
        &mut mem,
        0,
        MemoryRequest {
            process: Pid(3),
            size: 2,
            lifetime: u32::MAX,
        },
    );
    assert_eq!(mem, vec![held(3, -1, 0), free(2), free(8)]);
    place_request(
        &mut mem,
        1,
        MemoryRequest {
            process: Pid(4),
            size: 2,
            lifetime: 2147483648,
        },
    );
    assert_eq!(
        mem,
        vec![held(3, -1, 0), held(4, i32::MIN, 2), free(4), free(8)]
    );
}

#[test]
fn request_for_nothing_takes_an_empty_span() {
    let mut mem = vec![free(0), free(8)];
    place_request(
        &mut mem,
        0,
        MemoryRequest {
            process: Pid(3),
            size: 0,
            lifetime: 1,
        },
    );
    assert_eq!(mem, vec![held(3, 1, 0), free(0), free(8)]);
}
