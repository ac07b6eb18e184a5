use rust_video_editor::interval::{
    dedup_intervals, merge_sorted, normalize_intervals, retain_min_len, retain_proper,
    sort_intervals,
};

#[test]
fn merge_example_keeps_adjacent_and_drops_short() {
    // (5,6) and (6,8) are adjacent within tolerance 1 and merge to (5,8);
    // (10,11) stays apart, then falls to the two-second threshold.
    let raw = vec![(5u32, 6u32), (6, 8), (10, 11)];
    let sorted = sort_intervals(&raw);
    let merged = merge_sorted(&sorted);
    assert_eq!(merged, vec![(5, 8), (10, 11)]);
    let out = normalize_intervals(&raw);
    assert_eq!(out, vec![(5, 8)]);
}

#[test]
fn degenerate_intervals_removed_before_merging() {
    let raw = vec![(3u32, 3u32), (4, 4), (5, 8)];
    let kept = retain_proper(&raw);
    assert_eq!(kept, vec![(5, 8)]);
    let out = normalize_intervals(&raw);
    assert_eq!(out, vec![(5, 8)]);
}

#[test]
fn normalized_output_is_separated_and_long_enough() {
    let raw = vec![(20u32, 23u32), (0, 5), (4, 7), (9, 10), (9, 10), (13, 16), (17, 18)];
    let out = normalize_intervals(&raw);
    for &(s, e) in out.iter() {
        assert!(e - s >= 2);
    }
    for w in out.windows(2) {
        let (_, e0) = w[0];
        let (s1, _) = w[1];
        assert!(e0 < s1);
        assert!(s1 - e0 > 1);
    }
    // (0,5) and (4,7) overlap and merge; (13,16) and (17,18) are adjacent
    // within tolerance and merge; (9,10) is deduplicated and too short.
    assert_eq!(out, vec![(0, 7), (13, 18), (20, 23)]);
}

#[test]
fn renormalizing_changes_nothing() {
    let raw = vec![(8u32, 9u32), (1, 3), (2, 6), (11, 12), (40, 45), (40, 45)];
    let once = normalize_intervals(&raw);
    let twice = normalize_intervals(&once);
    assert_eq!(once, twice);
}

#[test]
fn dedup_removes_only_consecutive_duplicates() {
    let raw = vec![(1u32, 2u32), (1, 2), (3, 4), (1, 2)];
    assert_eq!(dedup_intervals(&raw), vec![(1, 2), (3, 4), (1, 2)]);
}

#[test]
fn sort_orders_by_start_and_keeps_equal_starts_stable() {
    let raw = vec![(9u32, 10u32), (2, 8), (2, 3), (0, 1)];
    assert_eq!(sort_intervals(&raw), vec![(0, 1), (2, 8), (2, 3), (9, 10)]);
}

#[test]
fn min_length_filter_drops_short_intervals() {
    let raw = vec![(0u32, 1u32), (2, 4), (5, 6)];
    assert_eq!(retain_min_len(&raw, 2), vec![(2, 4)]);
}

#[test]
fn empty_input_yields_no_intervals() {
    let raw: Vec<(u32, u32)> = Vec::new();
    assert_eq!(normalize_intervals(&raw), Vec::<(u32, u32)>::new());
}
