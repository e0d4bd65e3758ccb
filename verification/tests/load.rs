use gfa_injection::gfa::LoadError;
use gfa_injection::index::PathIndex;

fn small_graph() -> Vec<u8> {
    b"S\t1\tAAAA\nS\t2\tCCC\nS\t3\tGGGGG\nP\tchr1\t1+,2+,3-\t*\n".to_vec()
}

fn load_err(text: &[u8]) -> LoadError {
    match PathIndex::from_gfa_bytes(text) {
        Err(e) => e,
        Ok(_) => panic!("expected the load to fail"),
    }
}

#[test]
fn loads_small_graph() {
    let idx = PathIndex::from_gfa_bytes(&small_graph()).unwrap();
    assert_eq!(idx.id_range(), (1, 3));
    assert_eq!(idx.segment_length(0), 4);
    assert_eq!(idx.segment_length(1), 3);
    assert_eq!(idx.segment_length(2), 5);
    assert_eq!(idx.find_path(b"chr1"), Some(0));
    assert_eq!(idx.find_path(b"chr2"), None);
}

#[test]
fn gap_in_segment_ids_is_fatal() {
    let text = b"S\t1\tAAAA\nS\t2\tCCC\nS\t4\tGGGGG\nP\tchr1\t1+,2+\t*\n";
    let err = load_err(text);
    assert_eq!(err, LoadError::SegmentIdsNotContiguous);
}

#[test]
fn duplicate_segment_record_is_fatal() {
    // two records for one identifier break the one-record-per-identifier count
    let text = b"S\t1\tAAAA\nS\t1\tCC\nS\t2\tGG\n";
    let err = load_err(text);
    assert_eq!(err, LoadError::SegmentIdsNotContiguous);
}

#[test]
fn empty_graph_is_fatal() {
    let err = load_err(b"H\tVN:Z:1.0\n");
    assert_eq!(err, LoadError::SegmentIdsNotContiguous);
}

#[test]
fn bad_segment_id_is_fatal() {
    let err = load_err(b"S\tabc\tAAAA\n");
    assert_eq!(err, LoadError::BadSegmentId);
}

#[test]
fn invalid_utf8_line_is_fatal() {
    let mut text = small_graph();
    text.extend_from_slice(b"L\t1\t+\t2\t+\t\xFF\n");
    let err = load_err(&text);
    assert_eq!(err, LoadError::Utf8Invalid);
}

#[test]
fn bad_step_token_is_fatal() {
    let text = b"S\t1\tAAAA\nP\tchr1\tx+\t*\n";
    let err = load_err(text);
    assert_eq!(err, LoadError::BadStepToken);
    let text = b"S\t1\tAAAA\nP\tchr1\t1+,\t*\n";
    let err = load_err(text);
    assert_eq!(err, LoadError::BadStepToken);
}

#[test]
fn unknown_segment_reference_is_fatal() {
    let text = b"S\t2\tAAAA\nP\tchr1\t9+\t*\n";
    let err = load_err(text);
    assert_eq!(err, LoadError::UnknownSegment);
    // below the minimum identifier
    let text = b"S\t2\tAAAA\nP\tchr1\t1+\t*\n";
    let err = load_err(text);
    assert_eq!(err, LoadError::UnknownSegment);
}

#[test]
fn short_records_are_skipped_not_fatal() {
    // an S record with fewer than three fields and unknown record types are ignored
    let text = b"S\t9\nS\t1\tAAAA\n#comment\nL\t1\t+\t1\t-\t0M\nP\tchr1\n";
    let idx = PathIndex::from_gfa_bytes(text).unwrap();
    assert_eq!(idx.id_range(), (1, 1));
    assert_eq!(idx.find_path(b"chr1"), None);
}

#[test]
fn duplicate_path_name_last_wins() {
    let text = b"S\t1\tAAAA\nS\t2\tCC\nP\tdup\t1+\t*\nP\tdup\t2+,1-\t*\n";
    let idx = PathIndex::from_gfa_bytes(text).unwrap();
    assert_eq!(idx.find_path(b"dup"), Some(1));
    let rep = idx.path_range_report(b"dup", 0, 6).unwrap();
    // the later record's traversal: segment 2 at offset 0, segment 1 at offset 2
    assert_eq!(rep.rows, vec![(0, 2, 0), (1, 1, 2)]);
}

#[test]
fn rebuilding_is_identical() {
    let text = small_graph();
    let a = PathIndex::from_gfa_bytes(&text).unwrap();
    let b = PathIndex::from_gfa_bytes(&text).unwrap();
    assert_eq!(a.id_range(), b.id_range());
    let ra = a.path_range_report(b"chr1", 0, 12).unwrap();
    let rb = b.path_range_report(b"chr1", 0, 12).unwrap();
    assert_eq!(ra.start_rank, rb.start_rank);
    assert_eq!(ra.end_rank, rb.end_rank);
    assert_eq!(ra.cardinality, rb.cardinality);
    assert_eq!(ra.rows, rb.rows);
}
