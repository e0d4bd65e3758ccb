//! The alignment projector: translating one alignment record, expressed
//! against a linear reference, into a path-relative traversal line.
//!
//! A record carries its read identifier, reference name, 1-based inclusive
//! reference start, strand flag, mapping quality and CIGAR operations.
//! The reference interval is converted to the half-open path range
//! `[ref_start - 1, ref_start - 1 + span)`, the overlapping steps are
//! selected through the range query engine, and one tab-separated line is
//! emitted; on the reverse strand the steps are listed end to start with
//! every orientation inverted.  Records without a read identifier or a
//! resolvable path, and queries selecting no step, are skipped, not
//! errors.

use vstd::prelude::*;
use crate::bytes::append_bytes;
use crate::decimal::dec_digits;
use crate::gfa::{
    lemma_offsets_props, lemma_prefix_monotone, lemma_prefix_nonneg, offsets_model, prefix_len,
    steps_ok, IndexModel, PathStep,
};
use crate::index::{lines_view, PathIndex};
use crate::posset::{
    count_le, lemma_count_le_all, lemma_count_le_bounds, lemma_count_le_sorted,
    lemma_count_lt_bounds, lemma_count_lt_is_le_pred, lemma_sorted_index_lower, rb_rank,
    rb_select,
};
use crate::query::{lemma_path_lookup_in_range, path_lookup, query_hi, query_lo};

verus! {

/// One CIGAR operation kind of the alignment container format.
#[derive(Clone, Copy, PartialEq, Eq, Structural, Debug)]
pub enum CigarOpKind {
    Match,
    Insertion,
    Deletion,
    Skip,
    SoftClip,
    HardClip,
    Pad,
    SequenceMatch,
    SequenceMismatch,
}

/// One CIGAR operation: a kind and a length.
#[derive(Clone, Copy, PartialEq, Eq, Structural, Debug)]
pub struct CigarOp {
    pub kind: CigarOpKind,
    pub len: u32,
}

/// One alignment record, as the container reader supplies it: plain
/// values only.  `ref_start` is 1-based inclusive.
pub struct AlignmentRecord {
    pub read_name: Option<Vec<u8>>,
    pub ref_name: Option<Vec<u8>>,
    pub ref_start: usize,
    pub is_reverse: bool,
    pub mapq: Option<u8>,
    pub cigar: Vec<CigarOp>,
}

/// Operation kinds that consume query bases.
pub open spec fn consumes_query(k: CigarOpKind) -> bool {
    k == CigarOpKind::Match || k == CigarOpKind::Insertion || k == CigarOpKind::SoftClip || k
        == CigarOpKind::SequenceMatch || k == CigarOpKind::SequenceMismatch
}

/// Operation kinds that consume reference bases.
pub open spec fn consumes_ref(k: CigarOpKind) -> bool {
    k == CigarOpKind::Match || k == CigarOpKind::Deletion || k == CigarOpKind::Skip || k
        == CigarOpKind::SequenceMatch || k == CigarOpKind::SequenceMismatch
}

/// Operation kinds counted as matching bases.
pub open spec fn is_match_kind(k: CigarOpKind) -> bool {
    k == CigarOpKind::Match || k == CigarOpKind::SequenceMatch || k
        == CigarOpKind::SequenceMismatch
}

/// The read length the CIGAR string implies.
pub open spec fn read_len(ops: Seq<CigarOp>) -> int
    decreases ops.len(),
{
    if ops.len() == 0 {
        0
    } else {
        read_len(ops.drop_last()) + if consumes_query(ops.last().kind) {
            ops.last().len as int
        } else {
            0int
        }
    }
}

/// The number of reference bases the alignment spans.
pub open spec fn align_span(ops: Seq<CigarOp>) -> int
    decreases ops.len(),
{
    if ops.len() == 0 {
        0
    } else {
        align_span(ops.drop_last()) + if consumes_ref(ops.last().kind) {
            ops.last().len as int
        } else {
            0int
        }
    }
}

/// The number of matching bases.
pub open spec fn match_count(ops: Seq<CigarOp>) -> int
    decreases ops.len(),
{
    if ops.len() == 0 {
        0
    } else {
        match_count(ops.drop_last()) + if is_match_kind(ops.last().kind) {
            ops.last().len as int
        } else {
            0int
        }
    }
}

pub proof fn lemma_read_len_bound(ops: Seq<CigarOp>)
    ensures
        0 <= read_len(ops) <= ops.len() * (u32::MAX as int),
    decreases ops.len(),
{
    if ops.len() > 0 {
        lemma_read_len_bound(ops.drop_last());
        assert((ops.len() - 1) * (u32::MAX as int) + (u32::MAX as int) == ops.len() * (
        u32::MAX as int)) by (nonlinear_arith);
    }
}

pub proof fn lemma_align_span_bound(ops: Seq<CigarOp>)
    ensures
        0 <= align_span(ops) <= ops.len() * (u32::MAX as int),
    decreases ops.len(),
{
    if ops.len() > 0 {
        lemma_align_span_bound(ops.drop_last());
        assert((ops.len() - 1) * (u32::MAX as int) + (u32::MAX as int) == ops.len() * (
        u32::MAX as int)) by (nonlinear_arith);
    }
}

pub proof fn lemma_match_count_bound(ops: Seq<CigarOp>)
    ensures
        0 <= match_count(ops) <= ops.len() * (u32::MAX as int),
    decreases ops.len(),
{
    if ops.len() > 0 {
        lemma_match_count_bound(ops.drop_last());
        assert((ops.len() - 1) * (u32::MAX as int) + (u32::MAX as int) == ops.len() * (
        u32::MAX as int)) by (nonlinear_arith);
    }
}

/// Sums the lengths of the query-consuming operations.
pub fn cigar_read_len(ops: &Vec<CigarOp>) -> (r: u64)
    requires
        ops@.len() <= u32::MAX,
    ensures
        r as int == read_len(ops@),
{
    let mut acc: u64 = 0;
    let mut i: usize = 0;
    while i < ops.len()
        invariant
            0 <= i <= ops@.len(),
            ops@.len() <= u32::MAX,
            acc as int == read_len(ops@.take(i as int)),
        decreases ops@.len() - i,
    {
        proof {
            assert(ops@.take(i + 1).drop_last() =~= ops@.take(i as int));
            assert(ops@.take(i + 1).last() == ops@[i as int]);
            lemma_read_len_bound(ops@.take(i + 1));
            assert((i + 1) * (u32::MAX as int) <= (u32::MAX as int) * (u32::MAX as int))
                by (nonlinear_arith)
                requires
                    0 <= i + 1 <= u32::MAX as int,
            ;
        }
        let op = ops[i];
        match op.kind {
            CigarOpKind::Match | CigarOpKind::Insertion | CigarOpKind::SoftClip
                | CigarOpKind::SequenceMatch | CigarOpKind::SequenceMismatch => {
                acc = acc + op.len as u64;
            },
            _ => {
            },
        }
        i = i + 1;
    }
    proof {
        assert(ops@.take(i as int) =~= ops@);
    }
    acc
}

/// Sums the lengths of the reference-consuming operations.
pub fn cigar_align_span(ops: &Vec<CigarOp>) -> (r: u64)
    requires
        ops@.len() <= u32::MAX,
    ensures
        r as int == align_span(ops@),
{
    let mut acc: u64 = 0;
    let mut i: usize = 0;
    while i < ops.len()
        invariant
            0 <= i <= ops@.len(),
            ops@.len() <= u32::MAX,
            acc as int == align_span(ops@.take(i as int)),
        decreases ops@.len() - i,
    {
        proof {
            assert(ops@.take(i + 1).drop_last() =~= ops@.take(i as int));
            assert(ops@.take(i + 1).last() == ops@[i as int]);
            lemma_align_span_bound(ops@.take(i + 1));
            assert((i + 1) * (u32::MAX as int) <= (u32::MAX as int) * (u32::MAX as int))
                by (nonlinear_arith)
                requires
                    0 <= i + 1 <= u32::MAX as int,
            ;
        }
        let op = ops[i];
        match op.kind {
            CigarOpKind::Match | CigarOpKind::Deletion | CigarOpKind::Skip
                | CigarOpKind::SequenceMatch | CigarOpKind::SequenceMismatch => {
                acc = acc + op.len as u64;
            },
            _ => {
            },
        }
        i = i + 1;
    }
    proof {
        assert(ops@.take(i as int) =~= ops@);
    }
    acc
}

/// Sums the lengths of the matching operations.
pub fn cigar_match_count(ops: &Vec<CigarOp>) -> (r: u64)
    requires
        ops@.len() <= u32::MAX,
    ensures
        r as int == match_count(ops@),
{
    let mut acc: u64 = 0;
    let mut i: usize = 0;
    while i < ops.len()
        invariant
            0 <= i <= ops@.len(),
            ops@.len() <= u32::MAX,
            acc as int == match_count(ops@.take(i as int)),
        decreases ops@.len() - i,
    {
        proof {
            assert(ops@.take(i + 1).drop_last() =~= ops@.take(i as int));
            assert(ops@.take(i + 1).last() == ops@[i as int]);
            lemma_match_count_bound(ops@.take(i + 1));
            assert((i + 1) * (u32::MAX as int) <= (u32::MAX as int) * (u32::MAX as int))
                by (nonlinear_arith)
                requires
                    0 <= i + 1 <= u32::MAX as int,
            ;
        }
        let op = ops[i];
        match op.kind {
            CigarOpKind::Match | CigarOpKind::SequenceMatch | CigarOpKind::SequenceMismatch => {
                acc = acc + op.len as u64;
            },
            _ => {
            },
        }
        i = i + 1;
    }
    proof {
        assert(ops@.take(i as int) =~= ops@);
    }
    acc
}

/// A step with its orientation inverted.
pub open spec fn flip_step(st: PathStep) -> PathStep {
    PathStep { node: st.node, reverse: !st.reverse }
}

/// A step sequence read end to start with every orientation inverted: how
/// a traversal looks in the direction the query was sequenced.
pub open spec fn flip_all(ss: Seq<PathStep>) -> Seq<PathStep> {
    ss.reverse().map_values(|st: PathStep| flip_step(st))
}

/// The steps as they are emitted: in path order on the forward strand, end
/// to start with inverted orientations on the reverse strand.
pub open spec fn oriented_steps(ss: Seq<PathStep>, rc: bool) -> Seq<PathStep> {
    if rc {
        flip_all(ss)
    } else {
        ss
    }
}

/// Reading a traversal backwards twice yields the traversal itself.
pub proof fn lemma_flip_all_involution(ss: Seq<PathStep>)
    ensures
        flip_all(flip_all(ss)) == ss,
{
    let f = flip_all(flip_all(ss));
    assert(f.len() == ss.len());
    assert forall|i: int| 0 <= i < ss.len() implies f[i] == ss[i] by {
        assert(flip_all(ss)[ss.len() - 1 - i] == flip_step(ss[i]));
    }
    assert(f =~= ss);
}

/// One emitted step token: the direction character, then the decimal
/// segment identifier.
pub open spec fn step_token_str(st: PathStep, min_id: int) -> Seq<u8> {
    seq![
        if st.reverse {
            60u8
        } else {
            62u8
        },
    ] + dec_digits((st.node + min_id) as nat)
}

/// The emitted path string: the concatenated step tokens.
pub open spec fn path_string(ss: Seq<PathStep>, min_id: int) -> Seq<u8>
    decreases ss.len(),
{
    if ss.len() == 0 {
        Seq::empty()
    } else {
        path_string(ss.drop_last(), min_id) + step_token_str(ss.last(), min_id)
    }
}

/// The fields of one projected line, before rendering.
pub ghost struct ProjLine {
    pub read_name: Seq<u8>,
    pub query_len: int,
    pub min_id: int,
    pub path_steps: Seq<PathStep>,
    pub path_len: int,
    pub path_start: int,
    pub path_end: int,
    pub matches: int,
    pub block_len: int,
    pub mapq: int,
}

/// What projecting one record against a loaded index yields: `None` for a
/// skipped record, otherwise every field of the output line.
pub open spec fn project_fields(m: IndexModel, rec: AlignmentRecord) -> Option<ProjLine> {
    if rec.read_name is None || rec.ref_name is None {
        None
    } else {
        match path_lookup(m.names, rec.ref_name->0@) {
            None => None,
            Some(p) => {
                let steps = m.steps[p];
                let offs = offsets_model(steps, m.seg_lens, steps.len() as int);
                let a = rec.ref_start - 1;
                let span = align_span(rec.cigar@);
                let b = a + span;
                let lo = query_lo(offs, a);
                let hi = query_hi(offs, a, b);
                if hi <= lo {
                    None
                } else {
                    Some(
                        ProjLine {
                            read_name: rec.read_name->0@,
                            query_len: read_len(rec.cigar@),
                            min_id: m.min_id,
                            path_steps: oriented_steps(
                                steps.subrange(lo, hi),
                                rec.is_reverse,
                            ),
                            path_len: prefix_len(steps, m.seg_lens, hi) - prefix_len(
                                steps,
                                m.seg_lens,
                                lo,
                            ),
                            path_start: a - offs[lo],
                            path_end: a - offs[lo] + span,
                            matches: match_count(rec.cigar@),
                            block_len: span,
                            mapq: if rec.mapq is Some {
                                rec.mapq->0 as int
                            } else {
                                255
                            },
                        },
                    )
                }
            },
        }
    }
}

/// One projected output line: eleven tab-separated fields, newline
/// terminated.  Query start is always `0`, query end always the query
/// length, and the strand field always `+`: strand is already folded into
/// the per-step orientations.
pub open spec fn render_line(f: ProjLine) -> Seq<u8> {
    f.read_name + seq![9u8] + dec_digits(f.query_len as nat) + seq![9u8] + seq![48u8] + seq![9u8]
        + dec_digits(f.query_len as nat) + seq![9u8] + seq![43u8] + seq![9u8] + path_string(
        f.path_steps,
        f.min_id,
    ) + seq![9u8] + dec_digits(f.path_len as nat) + seq![9u8] + dec_digits(f.path_start as nat)
        + seq![9u8] + dec_digits(f.path_end as nat) + seq![9u8] + dec_digits(f.matches as nat)
        + seq![9u8] + dec_digits(f.block_len as nat) + seq![9u8] + dec_digits(f.mapq as nat)
        + seq![10u8]
}

impl PathIndex {
    /// Projects one alignment record onto its path: the eleven-field
    /// output line, or `None` for a record that is skipped.  Skipped are
    /// records without a read identifier, without a resolvable reference
    /// name, with a reference name naming no path, and queries that select
    /// no step.
    #[verifier::rlimit(100)]
    pub fn project_alignment(&self, rec: &AlignmentRecord) -> (r: Option<Vec<u8>>)
        requires
            self.wf(),
            rec.ref_start >= 1,
            rec.ref_start <= u32::MAX,
            rec.cigar@.len() <= u32::MAX,
        ensures
            match r {
                Some(line) => project_fields(self.model(), *rec) matches Some(f) && line@
                    == render_line(f),
                None => project_fields(self.model(), *rec) is None,
            },
    {
        let name: &Vec<u8> = match &rec.read_name {
            None => {
                return None;
            },
            Some(n) => n,
        };
        let refname: &Vec<u8> = match &rec.ref_name {
            None => {
                return None;
            },
            Some(n) => n,
        };
        let p = match self.find_path(refname.as_slice()) {
            None => {
                return None;
            },
            Some(p) => p,
        };
        proof {
            lemma_path_lookup_in_range(lines_view(self.path_names@), refname@);
        }
        let ghost m = self.model();
        let ghost steps_seq = self.path_steps@[p as int]@;
        let ghost lens = self.lens();
        assert(m.steps[p as int] == steps_seq);
        let ghost offs = self.path_offsets(p as int);
        proof {
            assert(offs == offsets_model(steps_seq, lens, steps_seq.len() as int));
            lemma_offsets_props(steps_seq, lens, steps_seq.len() as int);
        }
        let a: usize = rec.ref_start - 1;
        let span: u64 = cigar_align_span(&rec.cigar);
        proof {
            lemma_align_span_bound(rec.cigar@);
            assert(rec.cigar@.len() * (u32::MAX as int) <= (u32::MAX as int) * (
            u32::MAX as int)) by (nonlinear_arith)
                requires
                    0 <= rec.cigar@.len() <= u32::MAX as int,
            ;
        }
        let ghost ga = a as int;
        let ghost gb = ga + span as int;
        let b: u64 = a as u64 + span;
        let offsets = &self.path_step_offsets[p];
        proof {
            lemma_count_le_bounds(offs, ga);
        }
        let start_rank = rb_rank(offsets, a as u32);
        let lo64: u64 = if start_rank == 0 {
            0
        } else {
            start_rank - 1
        };
        let hi64: u64 = if b <= a as u64 {
            lo64
        } else {
            proof {
                lemma_count_lt_is_le_pred(offs, gb);
                lemma_count_le_bounds(offs, gb - 1);
            }
            if b - 1 >= u32::MAX as u64 {
                proof {
                    lemma_count_le_all(offs, gb - 1);
                    lemma_count_le_all(offs, u32::MAX as int);
                }
                rb_rank(offsets, u32::MAX)
            } else {
                rb_rank(offsets, (b - 1) as u32)
            }
        };
        assert(lo64 as int == query_lo(offs, ga));
        assert(hi64 as int == query_hi(offs, ga, gb));
        if hi64 <= lo64 {
            proof {
                assert(project_fields(self.model(), *rec) is None);
            }
            return None;
        }
        proof {
            lemma_count_lt_bounds(offs, gb);
            assert(hi64 as int <= offs.len());
            assert(offs.len() >= 1);
            assert(offs[0] == 0);
            lemma_count_le_sorted(offs, ga);
            assert(0 < count_le(offs, ga));
            assert(lo64 as int == count_le(offs, ga) - 1);
            assert(offs[lo64 as int] <= ga);
            lemma_sorted_index_lower(offs, offs.len() - 1);
        }
        let first: u32 = match rb_select(offsets, lo64 as u32) {
            Some(v) => v,
            None => {
                proof {
                    assert(false);
                }
                return None;
            },
        };
        assert(first == offs[lo64 as int]);
        let step_offset: u64 = a as u64 - first as u64;
        let path_end: u64 = step_offset + span;
        let query_len: u64 = cigar_read_len(&rec.cigar);
        let matches: u64 = cigar_match_count(&rec.cigar);
        let mapq: u64 = match rec.mapq {
            Some(q) => q as u64,
            None => 255,
        };
        let nsteps: usize = self.path_steps[p].len();
        proof {
            assert(offs.len() <= nsteps);
        }
        let lo: usize = lo64 as usize;
        let hi: usize = hi64 as usize;
        let cnt: usize = hi - lo;
        let ghost slice = steps_seq.subrange(lo as int, hi as int);
        let ghost emitted = oriented_steps(slice, rec.is_reverse);
        let mut path_str: Vec<u8> = Vec::new();
        let mut path_len: u64 = 0;
        let mut j: usize = 0;
        proof {
            assert(emitted.take(0) =~= Seq::<PathStep>::empty());
            assert(emitted.len() == cnt);
        }
        while j < cnt
            invariant
                0 <= j <= cnt,
                self.wf(),
                0 <= p < self.path_steps@.len(),
                steps_seq == self.path_steps@[p as int]@,
                lens == self.lens(),
                lo + cnt == hi,
                hi <= steps_seq.len(),
                slice == steps_seq.subrange(lo as int, hi as int),
                emitted == oriented_steps(slice, rec.is_reverse),
                emitted.len() == cnt,
                path_str@ == path_string(emitted.take(j as int), self.min_id as int),
                rec.is_reverse ==> path_len as int == prefix_len(steps_seq, lens, hi as int)
                    - prefix_len(steps_seq, lens, hi - j),
                !rec.is_reverse ==> path_len as int == prefix_len(steps_seq, lens, lo + j)
                    - prefix_len(steps_seq, lens, lo as int),
                path_len <= u32::MAX,
            decreases cnt - j,
        {
            let k: usize = if rec.is_reverse {
                hi - 1 - j
            } else {
                lo + j
            };
            let st = self.path_steps[p][k];
            proof {
                assert(steps_ok(steps_seq, self.segment_lens@.len() as int));
                assert((st.node as int) < self.segment_lens@.len());
                if rec.is_reverse {
                    assert(slice.reverse()[j as int] == slice[cnt - 1 - j]);
                    assert(emitted[j as int] == flip_step(slice[cnt - 1 - j]));
                    assert(slice[cnt - 1 - j] == steps_seq[k as int]);
                } else {
                    assert(emitted[j as int] == steps_seq[k as int]);
                }
            }
            let erev: bool = if rec.is_reverse {
                !st.reverse
            } else {
                st.reverse
            };
            path_str.push(if erev {
                60u8
            } else {
                62u8
            });
            let node_id: usize = self.min_id + st.node as usize;
            let digits = crate::decimal::format_dec(node_id as u64);
            append_bytes(&mut path_str, digits.as_slice());
            proof {
                assert(emitted.take(j + 1).drop_last() =~= emitted.take(j as int));
                assert(emitted.take(j + 1).last() == emitted[j as int]);
                assert(step_token_str(emitted[j as int], self.min_id as int) == seq![
                    if erev {
                        60u8
                    } else {
                        62u8
                    },
                ] + dec_digits(node_id as nat));
                assert(path_str@ =~= path_string(emitted.take(j + 1), self.min_id as int));
            }
            let l = self.segment_lens[st.node as usize];
            proof {
                lemma_prefix_nonneg(steps_seq, lens, lo as int);
                lemma_prefix_monotone(steps_seq, lens, lo as int, hi as int);
                lemma_prefix_monotone(steps_seq, lens, hi as int, steps_seq.len() as int);
                lemma_prefix_nonneg(steps_seq, lens, if rec.is_reverse {
                    hi - j - 1
                } else {
                    lo as int
                });
                if rec.is_reverse {
                    lemma_prefix_monotone(steps_seq, lens, hi - j - 1, hi as int);
                    assert(prefix_len(steps_seq, lens, hi - j) == prefix_len(
                        steps_seq,
                        lens,
                        hi - j - 1,
                    ) + lens[steps_seq[hi - j - 1].node as int]);
                } else {
                    lemma_prefix_monotone(steps_seq, lens, lo + j + 1, hi as int);
                    assert(prefix_len(steps_seq, lens, lo + j + 1) == prefix_len(
                        steps_seq,
                        lens,
                        lo + j,
                    ) + lens[steps_seq[lo + j].node as int]);
                }
            }
            path_len = path_len + l as u64;
            j = j + 1;
        }
        proof {
            assert(emitted.take(cnt as int) =~= emitted);
            assert(path_len as int == prefix_len(steps_seq, lens, hi as int) - prefix_len(
                steps_seq,
                lens,
                lo as int,
            ));
        }
        let ghost f = ProjLine {
            read_name: name@,
            query_len: query_len as int,
            min_id: self.min_id as int,
            path_steps: emitted,
            path_len: path_len as int,
            path_start: step_offset as int,
            path_end: path_end as int,
            matches: matches as int,
            block_len: span as int,
            mapq: mapq as int,
        };
        proof {
            assert(project_fields(self.model(), *rec) == Some(f));
        }
        let mut out: Vec<u8> = Vec::new();
        append_bytes(&mut out, name.as_slice());
        out.push(9);
        let ql_digits = crate::decimal::format_dec(query_len);
        append_bytes(&mut out, ql_digits.as_slice());
        out.push(9);
        out.push(48);
        out.push(9);
        append_bytes(&mut out, ql_digits.as_slice());
        out.push(9);
        out.push(43);
        out.push(9);
        append_bytes(&mut out, path_str.as_slice());
        out.push(9);
        let d = crate::decimal::format_dec(path_len);
        append_bytes(&mut out, d.as_slice());
        out.push(9);
        let d = crate::decimal::format_dec(step_offset);
        append_bytes(&mut out, d.as_slice());
        out.push(9);
        let d = crate::decimal::format_dec(path_end);
        append_bytes(&mut out, d.as_slice());
        out.push(9);
        let d = crate::decimal::format_dec(matches);
        append_bytes(&mut out, d.as_slice());
        out.push(9);
        let d = crate::decimal::format_dec(span);
        append_bytes(&mut out, d.as_slice());
        out.push(9);
        let d = crate::decimal::format_dec(mapq);
        append_bytes(&mut out, d.as_slice());
        out.push(10);
        proof {
            assert(out@ =~= render_line(f));
        }
        Some(out)
    }
}

/// Reverse-complement symmetry: projecting the same record with the
/// strand flag flipped yields the same line but for the emitted step
/// sequence, which becomes the reverse of the original with every
/// orientation inverted.  The path-relative start and end, taken from the
/// first overlapping step in path order, are unchanged.
pub proof fn lemma_reverse_complement_symmetry(
    m: IndexModel,
    rec: AlignmentRecord,
    flipped: AlignmentRecord,
)
    requires
        flipped.read_name == rec.read_name,
        flipped.ref_name == rec.ref_name,
        flipped.ref_start == rec.ref_start,
        flipped.is_reverse == !rec.is_reverse,
        flipped.mapq == rec.mapq,
        flipped.cigar == rec.cigar,
    ensures
        (project_fields(m, rec) is Some) == (project_fields(m, flipped) is Some),
        project_fields(m, rec) matches Some(f) ==> (project_fields(m, flipped) matches Some(g)
            && g == ProjLine { path_steps: flip_all(f.path_steps), ..f }),
{
    if project_fields(m, rec) is Some {
        let f = project_fields(m, rec)->0;
        let g = project_fields(m, flipped)->0;
        let p = path_lookup(m.names, rec.ref_name->0@)->Some_0;
        let steps = m.steps[p];
        let offs = offsets_model(steps, m.seg_lens, steps.len() as int);
        let a = rec.ref_start - 1;
        let b = a + align_span(rec.cigar@);
        let slice = steps.subrange(query_lo(offs, a), query_hi(offs, a, b));
        if rec.is_reverse {
            lemma_flip_all_involution(slice);
        }
        assert(g == ProjLine { path_steps: flip_all(f.path_steps), ..f });
    }
}

} // verus!
