use gfa_injection::index::PathIndex;
use gfa_injection::project::{
    cigar_align_span, cigar_match_count, cigar_read_len, AlignmentRecord, CigarOp, CigarOpKind,
};

fn small_graph() -> Vec<u8> {
    b"S\t1\tAAAA\nS\t2\tCCC\nS\t3\tGGGGG\nP\tchr1\t1+,2+,3-\t*\n".to_vec()
}

fn op(kind: CigarOpKind, len: u32) -> CigarOp {
    CigarOp { kind, len }
}

fn record(ref_start: usize, reverse: bool, cigar: Vec<CigarOp>) -> AlignmentRecord {
    AlignmentRecord {
        read_name: Some(b"read1".to_vec()),
        ref_name: Some(b"chr1".to_vec()),
        ref_start,
        is_reverse: reverse,
        mapq: Some(60),
        cigar,
    }
}

#[test]
fn cigar_sums() {
    let ops = vec![
        op(CigarOpKind::SoftClip, 2),
        op(CigarOpKind::Match, 3),
        op(CigarOpKind::Insertion, 1),
        op(CigarOpKind::Deletion, 2),
        op(CigarOpKind::SequenceMatch, 4),
        op(CigarOpKind::SequenceMismatch, 1),
        op(CigarOpKind::HardClip, 5),
        op(CigarOpKind::Skip, 3),
        op(CigarOpKind::Pad, 2),
    ];
    assert_eq!(cigar_read_len(&ops), 2 + 3 + 1 + 4 + 1);
    assert_eq!(cigar_align_span(&ops), 3 + 2 + 4 + 1 + 3);
    assert_eq!(cigar_match_count(&ops), 3 + 4 + 1);
}

#[test]
fn forward_projection_scenario() {
    // reference interval 6..=9 (1-based inclusive), forward strand
    let idx = PathIndex::from_gfa_bytes(&small_graph()).unwrap();
    let rec = record(6, false, vec![op(CigarOpKind::Match, 4)]);
    let line = idx.project_alignment(&rec).unwrap();
    // path-relative start: (6 - 1) - 4 = 1; steps 2+ and 3- emitted in
    // path order with their stored orientations
    assert_eq!(
        String::from_utf8(line).unwrap(),
        "read1\t4\t0\t4\t+\t>2<3\t8\t1\t5\t4\t4\t60\n"
    );
}

#[test]
fn reverse_projection_flips_and_reverses_steps() {
    let idx = PathIndex::from_gfa_bytes(&small_graph()).unwrap();
    let fwd = record(6, false, vec![op(CigarOpKind::Match, 4)]);
    let rev = record(6, true, vec![op(CigarOpKind::Match, 4)]);
    let fwd_line = String::from_utf8(idx.project_alignment(&fwd).unwrap()).unwrap();
    let rev_line = String::from_utf8(idx.project_alignment(&rev).unwrap()).unwrap();
    // only the path column changes: step order reversed, orientations inverted
    assert_eq!(rev_line, "read1\t4\t0\t4\t+\t>3<2\t8\t1\t5\t4\t4\t60\n");
    let fwd_fields: Vec<&str> = fwd_line.trim_end().split('\t').collect();
    let rev_fields: Vec<&str> = rev_line.trim_end().split('\t').collect();
    for k in 0..fwd_fields.len() {
        if k == 5 {
            assert_eq!(fwd_fields[k], ">2<3");
            assert_eq!(rev_fields[k], ">3<2");
        } else {
            assert_eq!(fwd_fields[k], rev_fields[k], "field {k}");
        }
    }
}

#[test]
fn projection_within_one_step() {
    let idx = PathIndex::from_gfa_bytes(&small_graph()).unwrap();
    // interval 1..=3 lies inside step 0 (segment 1, extent [0,4))
    let rec = record(1, false, vec![op(CigarOpKind::Match, 3)]);
    let line = String::from_utf8(idx.project_alignment(&rec).unwrap()).unwrap();
    assert_eq!(line, "read1\t3\t0\t3\t+\t>1\t4\t0\t3\t3\t3\t60\n");
}

#[test]
fn missing_mapping_quality_renders_255() {
    let idx = PathIndex::from_gfa_bytes(&small_graph()).unwrap();
    let mut rec = record(6, false, vec![op(CigarOpKind::Match, 4)]);
    rec.mapq = None;
    let line = String::from_utf8(idx.project_alignment(&rec).unwrap()).unwrap();
    assert!(line.ends_with("\t255\n"));
}

#[test]
fn soft_clips_count_into_query_length_only() {
    let idx = PathIndex::from_gfa_bytes(&small_graph()).unwrap();
    let rec = record(
        6,
        false,
        vec![
            op(CigarOpKind::SoftClip, 5),
            op(CigarOpKind::Match, 4),
            op(CigarOpKind::SoftClip, 1),
        ],
    );
    let line = String::from_utf8(idx.project_alignment(&rec).unwrap()).unwrap();
    // query length 10, query start always 0, block length = span = 4
    assert_eq!(line, "read1\t10\t0\t10\t+\t>2<3\t8\t1\t5\t4\t4\t60\n");
}

#[test]
fn skipped_records_yield_none() {
    let idx = PathIndex::from_gfa_bytes(&small_graph()).unwrap();
    let mut rec = record(6, false, vec![op(CigarOpKind::Match, 4)]);
    rec.read_name = None;
    assert!(idx.project_alignment(&rec).is_none());

    let mut rec = record(6, false, vec![op(CigarOpKind::Match, 4)]);
    rec.ref_name = None;
    assert!(idx.project_alignment(&rec).is_none());

    let mut rec = record(6, false, vec![op(CigarOpKind::Match, 4)]);
    rec.ref_name = Some(b"chrX".to_vec());
    assert!(idx.project_alignment(&rec).is_none());

    // an alignment spanning no reference base selects no step
    let rec = record(6, false, vec![op(CigarOpKind::SoftClip, 4)]);
    assert!(idx.project_alignment(&rec).is_none());
}
