use gfa_injection::index::PathIndex;

fn small_graph() -> Vec<u8> {
    b"S\t1\tAAAA\nS\t2\tCCC\nS\t3\tGGGGG\nP\tchr1\t1+,2+,3-\t*\n".to_vec()
}

// Position index of "chr1": {0, 4, 7}; step extents [0,4), [4,7), [7,12).

#[test]
fn range_query_scenario() {
    let idx = PathIndex::from_gfa_bytes(&small_graph()).unwrap();
    // offset 5 falls inside step 1, offset 8 inside step 2
    assert_eq!(idx.path_step_range(b"chr1", 5, 9), Some((1, 3)));
    let rep = idx.path_range_report(b"chr1", 5, 9).unwrap();
    assert_eq!(rep.start_rank, 2);
    assert_eq!(rep.end_rank, 3);
    assert_eq!(rep.cardinality, 1);
    assert_eq!(rep.rows, vec![(1, 2, 4), (2, 3, 7)]);
}

#[test]
fn whole_path_query() {
    let idx = PathIndex::from_gfa_bytes(&small_graph()).unwrap();
    assert_eq!(idx.path_step_range(b"chr1", 0, 12), Some((0, 3)));
    let rep = idx.path_range_report(b"chr1", 0, 12).unwrap();
    assert_eq!(rep.rows, vec![(0, 1, 0), (1, 2, 4), (2, 3, 7)]);
}

#[test]
fn rank_select_round_trip_at_boundaries() {
    let idx = PathIndex::from_gfa_bytes(&small_graph()).unwrap();
    // rank(select(i)) == i + 1 at each stored offset
    for (i, offset) in [(0u64, 0u32), (1, 4), (2, 7)] {
        let rep = idx.path_range_report(b"chr1", offset, offset).unwrap();
        assert_eq!(rep.start_rank, i + 1);
    }
}

#[test]
fn point_query_selects_unique_step() {
    let idx = PathIndex::from_gfa_bytes(&small_graph()).unwrap();
    let expected = [0, 0, 0, 0, 1, 1, 1, 2, 2, 2, 2, 2];
    for x in 0u32..12 {
        let (lo, hi) = idx.path_step_range(b"chr1", x, x + 1).unwrap();
        assert_eq!(hi, lo + 1, "point query at {x} selects one step");
        assert_eq!(lo, expected[x as usize], "point query at {x}");
    }
}

#[test]
fn half_open_boundaries() {
    let idx = PathIndex::from_gfa_bytes(&small_graph()).unwrap();
    // ending exactly at step 2's start offset (7) excludes step 2
    assert_eq!(idx.path_step_range(b"chr1", 5, 7), Some((1, 2)));
    // starting exactly at step 2's start offset includes it
    assert_eq!(idx.path_step_range(b"chr1", 7, 9), Some((2, 3)));
    // starting exactly at step 1's start offset includes it
    assert_eq!(idx.path_step_range(b"chr1", 4, 9), Some((1, 3)));
}

#[test]
fn empty_range_selects_no_steps() {
    let idx = PathIndex::from_gfa_bytes(&small_graph()).unwrap();
    let (lo, hi) = idx.path_step_range(b"chr1", 5, 5).unwrap();
    assert_eq!(lo, hi);
    let rep = idx.path_range_report(b"chr1", 5, 5).unwrap();
    assert!(rep.rows.is_empty());
    assert_eq!(rep.cardinality, 0);
}

#[test]
fn unknown_path_yields_none() {
    let idx = PathIndex::from_gfa_bytes(&small_graph()).unwrap();
    assert_eq!(idx.path_step_range(b"chrX", 0, 5), None);
    assert!(idx.path_range_report(b"chrX", 0, 5).is_none());
}

#[test]
fn zero_length_segment_collapses_offsets() {
    // segment 2 is empty, so steps 1 and 2 share start offset 4
    let text = b"S\t1\tAAAA\nS\t2\t\t*\nS\t3\tGGGGG\nP\tchr1\t1+,2+,3+\t*\n";
    let idx = PathIndex::from_gfa_bytes(text).unwrap();
    let rep = idx.path_range_report(b"chr1", 0, 9).unwrap();
    // the position index holds the distinct offsets {0, 4} only
    assert_eq!(rep.rows, vec![(0, 1, 0), (1, 2, 4)]);
    assert_eq!(rep.end_rank, 2);
}

#[test]
fn query_past_path_end_reports_last_step() {
    let idx = PathIndex::from_gfa_bytes(&small_graph()).unwrap();
    assert_eq!(idx.path_step_range(b"chr1", 12, 13), Some((2, 3)));
}
