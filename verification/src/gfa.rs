//! The meaning of a graph text, stated as functions of its bytes.
//!
//! A graph file is a sequence of newline-separated, tab-delimited records.
//! `S` records carry a segment identifier and its sequence; `P` records
//! carry a path name and a comma-separated list of oriented step tokens.
//! The functions here define, line by line, what a load computes: the
//! segment table of the first pass, the named step sequences of the second,
//! and for each path the strictly increasing set of step start offsets.
//! The executable loader is verified against [`build_model`] exactly, so a
//! rebuilt index is determined by the file bytes alone.

use vstd::prelude::*;
use crate::bytes::{split_on, trim_spec, utf8_ok};
use crate::decimal::{all_dec_digits, dec_val};

verus! {

/// Why a graph text fails to load.  Every load error is fatal: the index is
/// all-or-nothing.
#[derive(Clone, Copy, PartialEq, Eq, Structural, Debug)]
pub enum LoadError {
    /// A line is not valid UTF-8.
    Utf8Invalid,
    /// The identifier field of a segment record is not an unsigned decimal
    /// integer in range.
    BadSegmentId,
    /// A segment sequence is longer than a path coordinate can address.
    SegmentTooLong,
    /// The segment identifiers do not form one contiguous block, or there
    /// are no segments at all.
    SegmentIdsNotContiguous,
    /// More segments than a step can reference.
    TooManySegments,
    /// A step token of a path record is empty or its identifier part is not
    /// an unsigned decimal integer in range.
    BadStepToken,
    /// A step references a segment identifier outside the loaded range.
    UnknownSegment,
    /// A path's cumulative length leaves the coordinate range.
    PathTooLong,
}

/// One oriented traversal of one segment within a path.  `node` is the
/// segment's offset from the minimum identifier; `reverse` is true unless
/// the token's orientation character is `+`.
#[derive(Clone, Copy, PartialEq, Eq, Structural, Debug, Hash)]
pub struct PathStep {
    pub node: u32,
    pub reverse: bool,
}

/// The first pass over the file: identifier range and lengths of the
/// segment records, in file order.
pub ghost struct SegScan {
    pub min_id: int,
    pub max_id: int,
    pub lens: Seq<int>,
}

/// The second pass over the file: path names and step sequences, in file
/// order.
pub ghost struct PathsScan {
    pub names: Seq<Seq<u8>>,
    pub steps: Seq<Seq<PathStep>>,
}

/// Everything a load computes from the graph bytes.
pub ghost struct IndexModel {
    pub min_id: int,
    pub max_id: int,
    pub seg_lens: Seq<int>,
    pub names: Seq<Seq<u8>>,
    pub steps: Seq<Seq<PathStep>>,
}

/// The name and sequence fields of a segment record, trimmed, or `None`
/// for a line that is not a segment record with at least three fields.
pub open spec fn seg_line_fields(line: Seq<u8>) -> Option<(Seq<u8>, Seq<u8>)> {
    if line.len() > 0 && line[0] == 83 {
        let f = split_on(line, 9);
        if f.len() >= 3 {
            Some((trim_spec(f[1]), trim_spec(f[2])))
        } else {
            None
        }
    } else {
        None
    }
}

/// The name and step-list fields of a path record, untrimmed, or `None`
/// for a line that is not a path record with at least three fields.
pub open spec fn path_line_fields(line: Seq<u8>) -> Option<(Seq<u8>, Seq<u8>)> {
    if line.len() > 0 && line[0] == 80 {
        let f = split_on(line, 9);
        if f.len() >= 3 {
            Some((f[1], f[2]))
        } else {
            None
        }
    } else {
        None
    }
}

/// A decimal field that fits the machine's identifier type.
pub open spec fn id_field_ok(s: Seq<u8>) -> bool {
    s.len() > 0 && all_dec_digits(s) && dec_val(s) <= usize::MAX
}

/// One line of the first pass folded into the running segment scan.
pub open spec fn scan_seg_line(acc: SegScan, line: Seq<u8>) -> Result<SegScan, LoadError> {
    if !utf8_ok(line) {
        Err(LoadError::Utf8Invalid)
    } else {
        match seg_line_fields(line) {
            None => Ok(acc),
            Some((name, seq)) => {
                if !id_field_ok(name) {
                    Err(LoadError::BadSegmentId)
                } else if seq.len() > u32::MAX {
                    Err(LoadError::SegmentTooLong)
                } else {
                    let id = dec_val(name);
                    Ok(SegScan {
                        min_id: if id < acc.min_id { id } else { acc.min_id },
                        max_id: if id > acc.max_id { id } else { acc.max_id },
                        lens: acc.lens.push(seq.len() as int),
                    })
                }
            },
        }
    }
}

/// The first pass over all lines, leftmost failure first.
pub open spec fn scan_seg_lines(lines: Seq<Seq<u8>>) -> Result<SegScan, LoadError>
    decreases lines.len(),
{
    if lines.len() == 0 {
        Ok(SegScan { min_id: usize::MAX as int, max_id: 0, lens: Seq::empty() })
    } else {
        match scan_seg_lines(lines.drop_last()) {
            Err(e) => Err(e),
            Ok(acc) => scan_seg_line(acc, lines.last()),
        }
    }
}

/// The segment table: the first pass plus the contiguity check.  The
/// identifiers seen must form one contiguous block, one record per
/// identifier, and offsets and lengths must fit a path coordinate.
pub open spec fn seg_table_model(lines: Seq<Seq<u8>>) -> Result<SegScan, LoadError> {
    match scan_seg_lines(lines) {
        Err(e) => Err(e),
        Ok(acc) => {
            if acc.lens.len() == 0 {
                Err(LoadError::SegmentIdsNotContiguous)
            } else if acc.max_id - acc.min_id != acc.lens.len() - 1 {
                Err(LoadError::SegmentIdsNotContiguous)
            } else if acc.lens.len() > u32::MAX {
                Err(LoadError::TooManySegments)
            } else {
                Ok(acc)
            }
        },
    }
}

/// The step a single token of a path record denotes: its decimal segment
/// identifier re-based to an offset, and its orientation character.
pub open spec fn step_token_model(tok: Seq<u8>, min_id: int, n_segs: int) -> Result<
    PathStep,
    LoadError,
> {
    if tok.len() == 0 {
        Err(LoadError::BadStepToken)
    } else {
        let seg = tok.drop_last();
        if !id_field_ok(seg) {
            Err(LoadError::BadStepToken)
        } else {
            let id = dec_val(seg);
            if id < min_id || id - min_id >= n_segs {
                Err(LoadError::UnknownSegment)
            } else {
                Ok(PathStep { node: (id - min_id) as u32, reverse: tok.last() != 43 })
            }
        }
    }
}

/// All step tokens of one path record, leftmost failure first.
pub open spec fn steps_model(toks: Seq<Seq<u8>>, min_id: int, n_segs: int) -> Result<
    Seq<PathStep>,
    LoadError,
>
    decreases toks.len(),
{
    if toks.len() == 0 {
        Ok(Seq::empty())
    } else {
        match steps_model(toks.drop_last(), min_id, n_segs) {
            Err(e) => Err(e),
            Ok(ss) => match step_token_model(toks.last(), min_id, n_segs) {
                Err(e) => Err(e),
                Ok(st) => Ok(ss.push(st)),
            },
        }
    }
}

/// The path coordinate at which step `i` begins: the summed lengths of the
/// steps before it.
pub open spec fn prefix_len(steps: Seq<PathStep>, lens: Seq<int>, i: int) -> int
    decreases i,
{
    if i <= 0 {
        0
    } else {
        prefix_len(steps, lens, i - 1) + lens[steps[i - 1].node as int]
    }
}

/// The total length of a path: the coordinate past its last step.
pub open spec fn total_len(steps: Seq<PathStep>, lens: Seq<int>) -> int {
    prefix_len(steps, lens, steps.len() as int)
}

/// The position index contents after the first `i` steps were offered to
/// the set: each step's start offset, kept only when it exceeds the
/// current maximum, exactly as the sorted set's append behaves.
pub open spec fn offsets_model(steps: Seq<PathStep>, lens: Seq<int>, i: int) -> Seq<u32>
    decreases i,
{
    if i <= 0 {
        Seq::empty()
    } else {
        let prev = offsets_model(steps, lens, i - 1);
        let pos = prefix_len(steps, lens, i - 1);
        if prev.len() == 0 || prev.last() < pos {
            prev.push(pos as u32)
        } else {
            prev
        }
    }
}

/// The steps one path record's step-list field denotes, if the whole path
/// fits the coordinate range.
pub open spec fn path_record_model(steps_field: Seq<u8>, min_id: int, lens: Seq<int>) -> Result<
    Seq<PathStep>,
    LoadError,
> {
    match steps_model(split_on(steps_field, 44), min_id, lens.len() as int) {
        Err(e) => Err(e),
        Ok(ss) => {
            if total_len(ss, lens) > u32::MAX {
                Err(LoadError::PathTooLong)
            } else {
                Ok(ss)
            }
        },
    }
}

/// One line of the second pass folded into the running path scan.
pub open spec fn scan_path_line(
    acc: PathsScan,
    line: Seq<u8>,
    min_id: int,
    lens: Seq<int>,
) -> Result<PathsScan, LoadError> {
    match path_line_fields(line) {
        None => Ok(acc),
        Some((name, steps_field)) => {
            match path_record_model(steps_field, min_id, lens) {
                Err(e) => Err(e),
                Ok(ss) => Ok(
                    PathsScan { names: acc.names.push(name), steps: acc.steps.push(ss) },
                ),
            }
        },
    }
}

/// The second pass over all lines, leftmost failure first.
pub open spec fn scan_path_lines(
    lines: Seq<Seq<u8>>,
    min_id: int,
    lens: Seq<int>,
) -> Result<PathsScan, LoadError>
    decreases lines.len(),
{
    if lines.len() == 0 {
        Ok(PathsScan { names: Seq::empty(), steps: Seq::empty() })
    } else {
        match scan_path_lines(lines.drop_last(), min_id, lens) {
            Err(e) => Err(e),
            Ok(acc) => scan_path_line(acc, lines.last(), min_id, lens),
        }
    }
}

/// What loading a graph text yields: the segment table of the first pass
/// and the paths of the second, or the first error either pass meets.
pub open spec fn build_model(file: Seq<u8>) -> Result<IndexModel, LoadError> {
    let lines = split_on(file, 10);
    match seg_table_model(lines) {
        Err(e) => Err(e),
        Ok(st) => match scan_path_lines(lines, st.min_id, st.lens) {
            Err(e) => Err(e),
            Ok(ps) => Ok(
                IndexModel {
                    min_id: st.min_id,
                    max_id: st.max_id,
                    seg_lens: st.lens,
                    names: ps.names,
                    steps: ps.steps,
                },
            ),
        },
    }
}

/// A failed prefix of the first pass decides the whole pass.
pub proof fn lemma_scan_seg_prefix_err(lines: Seq<Seq<u8>>, k: int)
    requires
        0 <= k <= lines.len(),
        scan_seg_lines(lines.take(k)) is Err,
    ensures
        scan_seg_lines(lines) == scan_seg_lines(lines.take(k)),
    decreases lines.len() - k,
{
    if k < lines.len() {
        assert(lines.take(k + 1).drop_last() =~= lines.take(k));
        assert(lines.take(k + 1).last() == lines[k]);
        lemma_scan_seg_prefix_err(lines, k + 1);
    } else {
        assert(lines.take(k) =~= lines);
    }
}

/// A failed prefix of the second pass decides the whole pass.
pub proof fn lemma_scan_path_prefix_err(lines: Seq<Seq<u8>>, min_id: int, lens: Seq<int>, k: int)
    requires
        0 <= k <= lines.len(),
        scan_path_lines(lines.take(k), min_id, lens) is Err,
    ensures
        scan_path_lines(lines, min_id, lens) == scan_path_lines(lines.take(k), min_id, lens),
    decreases lines.len() - k,
{
    if k < lines.len() {
        assert(lines.take(k + 1).drop_last() =~= lines.take(k));
        assert(lines.take(k + 1).last() == lines[k]);
        lemma_scan_path_prefix_err(lines, min_id, lens, k + 1);
    } else {
        assert(lines.take(k) =~= lines);
    }
}

/// A failed prefix of a token list decides the whole list.
pub proof fn lemma_steps_model_prefix_err(toks: Seq<Seq<u8>>, min_id: int, n_segs: int, k: int)
    requires
        0 <= k <= toks.len(),
        steps_model(toks.take(k), min_id, n_segs) is Err,
    ensures
        steps_model(toks, min_id, n_segs) == steps_model(toks.take(k), min_id, n_segs),
    decreases toks.len() - k,
{
    if k < toks.len() {
        assert(toks.take(k + 1).drop_last() =~= toks.take(k));
        assert(toks.take(k + 1).last() == toks[k]);
        lemma_steps_model_prefix_err(toks, min_id, n_segs, k + 1);
    } else {
        assert(toks.take(k) =~= toks);
    }
}

/// Every length is a valid, coordinate-sized segment length.
pub open spec fn lens_ok(lens: Seq<int>) -> bool {
    forall|i: int| 0 <= i < lens.len() ==> 0 <= #[trigger] lens[i] <= u32::MAX
}

/// Every step references a loaded segment.
pub open spec fn steps_ok(steps: Seq<PathStep>, n_segs: int) -> bool {
    forall|i: int| 0 <= i < steps.len() ==> (#[trigger] steps[i].node as int) < n_segs
}

/// The first pass only accumulates valid lengths.
pub proof fn lemma_scan_seg_lens_ok(lines: Seq<Seq<u8>>)
    requires
        scan_seg_lines(lines) is Ok,
    ensures
        lens_ok(scan_seg_lines(lines)->Ok_0.lens),
    decreases lines.len(),
{
    if lines.len() > 0 {
        lemma_scan_seg_lens_ok(lines.drop_last());
    }
}

/// Start offsets never drop below zero.
pub proof fn lemma_prefix_nonneg(steps: Seq<PathStep>, lens: Seq<int>, i: int)
    requires
        lens_ok(lens),
        steps_ok(steps, lens.len() as int),
        0 <= i <= steps.len(),
    ensures
        prefix_len(steps, lens, i) >= 0,
    decreases i,
{
    if i > 0 {
        lemma_prefix_nonneg(steps, lens, i - 1);
    }
}

/// Start offsets never decrease along a path.
pub proof fn lemma_prefix_monotone(steps: Seq<PathStep>, lens: Seq<int>, i: int, j: int)
    requires
        lens_ok(lens),
        steps_ok(steps, lens.len() as int),
        0 <= i <= j <= steps.len(),
    ensures
        prefix_len(steps, lens, i) <= prefix_len(steps, lens, j),
    decreases j - i,
{
    if i < j {
        lemma_prefix_monotone(steps, lens, i, j - 1);
    }
}

/// What always holds of the position index contents of a path that fits
/// the coordinate range: strictly sorted, at most one entry per step,
/// first entry zero, none past the last start.
pub proof fn lemma_offsets_props(steps: Seq<PathStep>, lens: Seq<int>, i: int)
    requires
        lens_ok(lens),
        steps_ok(steps, lens.len() as int),
        total_len(steps, lens) <= u32::MAX,
        0 <= i <= steps.len(),
    ensures
        crate::posset::sorted_strict(offsets_model(steps, lens, i)),
        offsets_model(steps, lens, i).len() <= i,
        i > 0 ==> offsets_model(steps, lens, i).len() >= 1,
        i > 0 ==> offsets_model(steps, lens, i)[0] == 0,
        i > 0 ==> offsets_model(steps, lens, i).last() as int <= prefix_len(steps, lens, i - 1),
    decreases i,
{
    if i > 0 {
        lemma_offsets_props(steps, lens, i - 1);
        lemma_prefix_nonneg(steps, lens, i - 1);
        lemma_prefix_monotone(steps, lens, 0, i - 1);
        lemma_prefix_monotone(steps, lens, i - 1, steps.len() as int);
        if i - 1 > 0 {
            lemma_prefix_monotone(steps, lens, i - 2, i - 1);
        }
        let prev = offsets_model(steps, lens, i - 1);
        let pos = prefix_len(steps, lens, i - 1);
        assert(0 <= pos <= u32::MAX);
        if prev.len() == 0 || prev.last() < pos {
            let om = offsets_model(steps, lens, i);
            assert(om == prev.push(pos as u32));
            assert(om.last() as int == pos);
        }
    }
}

/// The position index law: a path's position index is strictly
/// increasing, and it has exactly one entry per step whenever every
/// traversed segment has positive length.
pub proof fn lemma_position_index_law(steps: Seq<PathStep>, lens: Seq<int>)
    requires
        lens_ok(lens),
        steps_ok(steps, lens.len() as int),
        total_len(steps, lens) <= u32::MAX,
    ensures
        crate::posset::sorted_strict(offsets_model(steps, lens, steps.len() as int)),
        (forall|j: int| 0 <= j < steps.len() ==> lens[#[trigger] steps[j].node as int] > 0)
            ==> offsets_model(steps, lens, steps.len() as int).len() == steps.len(),
{
    lemma_offsets_props(steps, lens, steps.len() as int);
    if forall|j: int| 0 <= j < steps.len() ==> lens[#[trigger] steps[j].node as int] > 0 {
        lemma_offsets_exact(steps, lens, steps.len() as int);
    }
}

/// When every traversed segment has positive length the position index is
/// exact: one entry per step, the `j`-th being step `j`'s start offset.
pub proof fn lemma_offsets_exact(steps: Seq<PathStep>, lens: Seq<int>, i: int)
    requires
        lens_ok(lens),
        steps_ok(steps, lens.len() as int),
        total_len(steps, lens) <= u32::MAX,
        forall|j: int| 0 <= j < steps.len() ==> lens[#[trigger] steps[j].node as int] > 0,
        0 <= i <= steps.len(),
    ensures
        offsets_model(steps, lens, i).len() == i,
        forall|j: int|
            0 <= j < i ==> (#[trigger] offsets_model(steps, lens, i)[j]) as int == prefix_len(
                steps,
                lens,
                j,
            ),
    decreases i,
{
    if i > 0 {
        lemma_offsets_exact(steps, lens, i - 1);
        lemma_prefix_nonneg(steps, lens, i - 1);
        lemma_prefix_monotone(steps, lens, 0, i - 1);
        lemma_prefix_monotone(steps, lens, i - 1, steps.len() as int);
        let prev = offsets_model(steps, lens, i - 1);
        let pos = prefix_len(steps, lens, i - 1);
        if i >= 2 {
            lemma_prefix_nonneg(steps, lens, i - 2);
            lemma_prefix_monotone(steps, lens, 0, i - 2);
            lemma_prefix_monotone(steps, lens, i - 2, steps.len() as int);
            assert(prev.last() as int == prefix_len(steps, lens, i - 2));
            assert(prefix_len(steps, lens, i - 1) == prefix_len(steps, lens, i - 2) + lens[steps[
                i - 2
            ].node as int]);
            assert(prev.last() < pos);
        }
        assert(offsets_model(steps, lens, i) == prev.push(pos as u32));
    }
}

} // verus!
