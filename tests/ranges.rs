use tree_status::ranges::{build_seq_ranges, contiguous_seq_ranges, join_seq_ranges, JOIN_GAP};

#[test]
fn contiguity_pass_example() {
    let runs = contiguous_seq_ranges(&vec![1, 2, 3, 7, 8, 15]);
    assert_eq!(runs, vec![(1, 3), (7, 8), (15, 15)]);
}

#[test]
fn join_pass_example() {
    assert_eq!(build_seq_ranges(vec![1, 2, 3, 7, 8, 15]), vec![(1, 15)]);
}

#[test]
fn unit_gap_joins_nothing() {
    let runs = contiguous_seq_ranges(&vec![1, 2, 3, 7, 8, 15]);
    assert_eq!(join_seq_ranges(&runs, 1), runs);
}

#[test]
fn empty_input_gives_no_ranges() {
    assert_eq!(build_seq_ranges(vec![]), Vec::<(i64, i64)>::new());
    assert_eq!(join_seq_ranges(&vec![], JOIN_GAP), Vec::<(i64, i64)>::new());
}

#[test]
fn single_range_is_kept() {
    assert_eq!(join_seq_ranges(&vec![(4, 9)], JOIN_GAP), vec![(4, 9)]);
    assert_eq!(build_seq_ranges(vec![42]), vec![(42, 42)]);
}

#[test]
fn join_threshold_is_inclusive() {
    // 13 - 3 == 10: joined; 25 - 14 == 11: kept apart.
    assert_eq!(build_seq_ranges(vec![2, 3, 13, 14, 25]), vec![(2, 14), (25, 25)]);
}

#[test]
fn ranges_partition_input() {
    let input = vec![5, 6, 7, 9, 11, 12, 40, 41, 42, 43];
    let runs = contiguous_seq_ranges(&input);
    assert_eq!(runs, vec![(5, 7), (9, 9), (11, 12), (40, 43)]);
    for v in 0..50i64 {
        let hits = runs.iter().filter(|(s, e)| *s <= v && v <= *e).count();
        assert_eq!(hits, if input.contains(&v) { 1 } else { 0 });
    }
}

#[test]
fn extreme_values_do_not_overflow() {
    let input = vec![i64::MIN, i64::MIN + 1, i64::MAX - 5, i64::MAX];
    assert_eq!(
        contiguous_seq_ranges(&input),
        vec![(i64::MIN, i64::MIN + 1), (i64::MAX - 5, i64::MAX - 5), (i64::MAX, i64::MAX)]
    );
    assert_eq!(
        build_seq_ranges(input),
        vec![(i64::MIN, i64::MIN + 1), (i64::MAX - 5, i64::MAX)]
    );
}
