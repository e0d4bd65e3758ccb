//! The path position index: the loaded segment table, each path's step
//! sequence, and each path's sorted set of step start offsets.

use vstd::prelude::*;
use roaring::RoaringBitmap;
use crate::bytes::{check_utf8, slice_to_vec, split_bytes, trim_ascii};
use crate::decimal::parse_dec;
use crate::gfa::{
    build_model, lens_ok, lemma_scan_seg_prefix_err, lemma_scan_path_prefix_err,
    lemma_steps_model_prefix_err, lemma_scan_seg_lens_ok,
    lemma_prefix_monotone, offsets_model, path_record_model, prefix_len,
    scan_path_line, scan_path_lines, scan_seg_line, scan_seg_lines, seg_table_model, steps_model,
    steps_ok, step_token_model, total_len, IndexModel, LoadError, PathStep, PathsScan, SegScan,
};
use crate::posset::{rb_new, rb_push, rb_seq};

verus! {

/// The lines of a byte string, as mathematical sequences.
pub open spec fn lines_view(v: Seq<Vec<u8>>) -> Seq<Seq<u8>> {
    v.map_values(|l: Vec<u8>| l@)
}

/// Segment lengths as mathematical integers.
pub open spec fn lens_view(v: Seq<usize>) -> Seq<int> {
    v.map_values(|x: usize| x as int)
}

/// Step vectors as mathematical sequences.
pub open spec fn stepss_view(v: Seq<Vec<PathStep>>) -> Seq<Seq<PathStep>> {
    v.map_values(|s: Vec<PathStep>| s@)
}

/// Scans the segment records of the file's lines: identifier range and the
/// lengths in file order, or the first load error.
fn scan_segments(lines: &Vec<Vec<u8>>) -> (r: Result<(usize, usize, Vec<usize>), LoadError>)
    ensures
        r matches Ok(t) ==> scan_seg_lines(lines_view(lines@)) == Ok::<SegScan, LoadError>(
            SegScan { min_id: t.0 as int, max_id: t.1 as int, lens: lens_view(t.2@) },
        ),
        r matches Ok(t) ==> (t.2@.len() > 0 ==> t.0 <= t.1),
        r matches Err(e) ==> scan_seg_lines(lines_view(lines@)) == Err::<SegScan, LoadError>(e),
{
    let ghost lv = lines_view(lines@);
    let mut min_id: usize = usize::MAX;
    let mut max_id: usize = 0;
    let mut seg_lens: Vec<usize> = Vec::new();
    let mut li: usize = 0;
    proof {
        assert(lv.take(0) =~= Seq::<Seq<u8>>::empty());
        assert(lens_view(seg_lens@) =~= Seq::<int>::empty());
    }
    while li < lines.len()
        invariant
            0 <= li <= lines@.len(),
            lv == lines_view(lines@),
            scan_seg_lines(lv.take(li as int)) == Ok::<SegScan, LoadError>(
                SegScan {
                    min_id: min_id as int,
                    max_id: max_id as int,
                    lens: lens_view(seg_lens@),
                },
            ),
            seg_lens@.len() > 0 ==> min_id <= max_id,
        decreases lines@.len() - li,
    {
        let ghost acc = SegScan {
            min_id: min_id as int,
            max_id: max_id as int,
            lens: lens_view(seg_lens@),
        };
        let line: &Vec<u8> = &lines[li];
        assert(line@ == lv[li as int]);
        proof {
            assert(lv.take(li + 1).drop_last() =~= lv.take(li as int));
            assert(lv.take(li + 1).last() == lv[li as int]);
        }
        if !check_utf8(line.as_slice()) {
            proof {
                assert(scan_seg_lines(lv.take(li + 1)) == Err::<SegScan, LoadError>(
                    LoadError::Utf8Invalid,
                ));
                lemma_scan_seg_prefix_err(lv, li + 1);
            }
            return Err(LoadError::Utf8Invalid);
        }
        if line.len() > 0 && line[0] == 83u8 {
            let fields = split_bytes(line.as_slice(), 9);
            assert(fields@.map_values(|p: Vec<u8>| p@) == crate::bytes::split_on(
                lv[li as int],
                9,
            ));
            if fields.len() >= 3 {
                let name = trim_ascii(fields[1].as_slice());
                let seqf = trim_ascii(fields[2].as_slice());
                proof {
                    let f = crate::bytes::split_on(lv[li as int], 9);
                    assert(fields@[1]@ == f[1]);
                    assert(fields@[2]@ == f[2]);
                }
                let parsed = parse_dec(name.as_slice());
                match parsed {
                    None => {
                        proof {
                            assert(scan_seg_line(acc, lv[li as int]) == Err::<
                                SegScan,
                                LoadError,
                            >(LoadError::BadSegmentId));
                            assert(scan_seg_lines(lv.take(li + 1)) == Err::<SegScan, LoadError>(
                                LoadError::BadSegmentId,
                            ));
                            lemma_scan_seg_prefix_err(lv, li + 1);
                        }
                        return Err(LoadError::BadSegmentId);
                    },
                    Some(v) => {
                        if v > usize::MAX as u64 {
                            proof {
                                assert(scan_seg_lines(lv.take(li + 1)) == Err::<
                                    SegScan,
                                    LoadError,
                                >(LoadError::BadSegmentId));
                                lemma_scan_seg_prefix_err(lv, li + 1);
                            }
                            return Err(LoadError::BadSegmentId);
                        }
                        let id = v as usize;
                        if seqf.len() as u64 > u32::MAX as u64 {
                            proof {
                                assert(scan_seg_lines(lv.take(li + 1)) == Err::<
                                    SegScan,
                                    LoadError,
                                >(LoadError::SegmentTooLong));
                                lemma_scan_seg_prefix_err(lv, li + 1);
                            }
                            return Err(LoadError::SegmentTooLong);
                        }
                        if id < min_id {
                            min_id = id;
                        }
                        if id > max_id {
                            max_id = id;
                        }
                        seg_lens.push(seqf.len());
                        proof {
                            assert(lens_view(seg_lens@) =~= acc.lens.push(seqf@.len() as int));
                            assert(scan_seg_lines(lv.take(li + 1)) == Ok::<SegScan, LoadError>(
                                SegScan {
                                    min_id: min_id as int,
                                    max_id: max_id as int,
                                    lens: lens_view(seg_lens@),
                                },
                            ));
                        }
                    },
                }
            } else {
                assert(scan_seg_line(acc, lv[li as int]) == Ok::<SegScan, LoadError>(acc));
            }
        } else {
            assert(scan_seg_line(acc, lv[li as int]) == Ok::<SegScan, LoadError>(acc));
        }
        li = li + 1;
    }
    proof {
        assert(lv.take(li as int) =~= lv);
    }
    Ok((min_id, max_id, seg_lens))
}

/// Parses one path record's step-list field: the steps in order and the
/// sorted set of their start offsets.
fn parse_steps(steps_field: &[u8], min_id: usize, seg_lens: &Vec<usize>) -> (r: Result<
    (Vec<PathStep>, RoaringBitmap),
    LoadError,
>)
    requires
        1 <= seg_lens@.len() <= u32::MAX,
        lens_ok(lens_view(seg_lens@)),
    ensures
        r matches Ok(t) ==> {
            &&& path_record_model(steps_field@, min_id as int, lens_view(seg_lens@))
                == Ok::<Seq<PathStep>, LoadError>(t.0@)
            &&& rb_seq(t.1) == offsets_model(t.0@, lens_view(seg_lens@), t.0@.len() as int)
            &&& steps_ok(t.0@, seg_lens@.len() as int)
            &&& total_len(t.0@, lens_view(seg_lens@)) <= u32::MAX
        },
        r matches Err(e) ==> path_record_model(steps_field@, min_id as int, lens_view(seg_lens@))
            == Err::<Seq<PathStep>, LoadError>(e),
{
    let ghost lens = lens_view(seg_lens@);
    let ghost nsegs = seg_lens@.len() as int;
    let toks = split_bytes(steps_field, 44);
    let ghost tv = toks@.map_values(|p: Vec<u8>| p@);
    assert(tv == crate::bytes::split_on(steps_field@, 44));
    let mut steps: Vec<PathStep> = Vec::new();
    let mut ti: usize = 0;
    proof {
        assert(tv.take(0) =~= Seq::<Seq<u8>>::empty());
    }
    while ti < toks.len()
        invariant
            0 <= ti <= toks@.len(),
            tv == toks@.map_values(|p: Vec<u8>| p@),
            tv == crate::bytes::split_on(steps_field@, 44),
            lens == lens_view(seg_lens@),
            nsegs == seg_lens@.len() as int,
            1 <= seg_lens@.len() <= u32::MAX,
            steps_model(tv.take(ti as int), min_id as int, nsegs) == Ok::<Seq<PathStep>, LoadError>(
                steps@,
            ),
            steps_ok(steps@, nsegs),
        decreases toks@.len() - ti,
    {
        let tok: &Vec<u8> = &toks[ti];
        assert(tok@ == tv[ti as int]);
        proof {
            assert(tv.take(ti + 1).drop_last() =~= tv.take(ti as int));
            assert(tv.take(ti + 1).last() == tv[ti as int]);
        }
        if tok.len() == 0 {
            proof {
                assert(steps_model(tv.take(ti + 1), min_id as int, nsegs) == Err::<
                    Seq<PathStep>,
                    LoadError,
                >(LoadError::BadStepToken));
                lemma_steps_model_prefix_err(tv, min_id as int, nsegs, ti + 1);
            }
            return Err(LoadError::BadStepToken);
        }
        let seg = slice_to_vec(tok.as_slice(), 0, tok.len() - 1);
        let orient = tok[tok.len() - 1];
        proof {
            assert(seg@ =~= tv[ti as int].drop_last());
            assert(orient == tv[ti as int].last());
        }
        let parsed = parse_dec(seg.as_slice());
        let id: usize;
        match parsed {
            None => {
                proof {
                    assert(steps_model(tv.take(ti + 1), min_id as int, nsegs) == Err::<
                        Seq<PathStep>,
                        LoadError,
                    >(LoadError::BadStepToken));
                    lemma_steps_model_prefix_err(tv, min_id as int, nsegs, ti + 1);
                }
                return Err(LoadError::BadStepToken);
            },
            Some(v) => {
                if v > usize::MAX as u64 {
                    proof {
                        assert(steps_model(tv.take(ti + 1), min_id as int, nsegs) == Err::<
                            Seq<PathStep>,
                            LoadError,
                        >(LoadError::BadStepToken));
                        lemma_steps_model_prefix_err(tv, min_id as int, nsegs, ti + 1);
                    }
                    return Err(LoadError::BadStepToken);
                }
                id = v as usize;
            },
        }
        if id < min_id {
            proof {
                assert(steps_model(tv.take(ti + 1), min_id as int, nsegs) == Err::<
                    Seq<PathStep>,
                    LoadError,
                >(LoadError::UnknownSegment));
                lemma_steps_model_prefix_err(tv, min_id as int, nsegs, ti + 1);
            }
            return Err(LoadError::UnknownSegment);
        }
        let off = id - min_id;
        if off >= seg_lens.len() {
            proof {
                assert(steps_model(tv.take(ti + 1), min_id as int, nsegs) == Err::<
                    Seq<PathStep>,
                    LoadError,
                >(LoadError::UnknownSegment));
                lemma_steps_model_prefix_err(tv, min_id as int, nsegs, ti + 1);
            }
            return Err(LoadError::UnknownSegment);
        }
        let st = PathStep { node: off as u32, reverse: orient != 43u8 };
        proof {
            assert(step_token_model(tv[ti as int], min_id as int, nsegs) == Ok::<
                PathStep,
                LoadError,
            >(st));
            assert(steps_model(tv.take(ti + 1), min_id as int, nsegs) == Ok::<
                Seq<PathStep>,
                LoadError,
            >(steps@.push(st)));
        }
        steps.push(st);
        ti = ti + 1;
    }
    proof {
        assert(tv.take(ti as int) =~= tv);
    }
    let mut offsets = rb_new();
    let mut pos: u64 = 0;
    let mut si: usize = 0;
    proof {
        assert(offsets_model(steps@, lens, 0) =~= Seq::<u32>::empty());
    }
    while si < steps.len()
        invariant
            0 <= si <= steps@.len(),
            lens == lens_view(seg_lens@),
            nsegs == seg_lens@.len() as int,
            1 <= seg_lens@.len() <= u32::MAX,
            lens_ok(lens),
            steps_ok(steps@, nsegs),
            steps_model(tv, min_id as int, nsegs) == Ok::<Seq<PathStep>, LoadError>(steps@),
            tv == crate::bytes::split_on(steps_field@, 44),
            rb_seq(offsets) == offsets_model(steps@, lens, si as int),
            pos as int == prefix_len(steps@, lens, si as int),
            pos <= 0x1_FFFF_FFFEu64,
        decreases steps@.len() - si,
    {
        if pos > u32::MAX as u64 {
            proof {
                lemma_prefix_monotone(steps@, lens, si as int, steps@.len() as int);
                assert(total_len(steps@, lens) > u32::MAX);
            }
            return Err(LoadError::PathTooLong);
        }
        let _inserted = rb_push(&mut offsets, pos as u32);
        proof {
            let prev = offsets_model(steps@, lens, si as int);
            assert(rb_seq(offsets) == offsets_model(steps@, lens, si + 1));
        }
        let node = steps[si].node as usize;
        let len = seg_lens[node];
        proof {
            assert(lens[node as int] == len as int);
            assert(prefix_len(steps@, lens, si + 1) == prefix_len(steps@, lens, si as int)
                + lens[steps@[si as int].node as int]);
        }
        pos = pos + len as u64;
        si = si + 1;
    }
    if pos > u32::MAX as u64 {
        assert(total_len(steps@, lens) > u32::MAX);
        return Err(LoadError::PathTooLong);
    }
    assert(total_len(steps@, lens) == pos as int);
    Ok((steps, offsets))
}

/// Scans the path records of the file's lines: names, step sequences and
/// position index contents in file order, or the first load error.
fn scan_paths(lines: &Vec<Vec<u8>>, min_id: usize, seg_lens: &Vec<usize>) -> (r: Result<
    (Vec<Vec<u8>>, Vec<Vec<PathStep>>, Vec<RoaringBitmap>),
    LoadError,
>)
    requires
        1 <= seg_lens@.len() <= u32::MAX,
        lens_ok(lens_view(seg_lens@)),
    ensures
        r matches Ok(t) ==> {
            &&& scan_path_lines(lines_view(lines@), min_id as int, lens_view(seg_lens@))
                == Ok::<PathsScan, LoadError>(
                PathsScan { names: lines_view(t.0@), steps: stepss_view(t.1@) },
            )
            &&& t.0@.len() == t.1@.len()
            &&& t.1@.len() == t.2@.len()
            &&& forall|p: int|
                0 <= p < t.1@.len() ==> steps_ok(#[trigger] t.1@[p]@, seg_lens@.len() as int)
            &&& forall|p: int|
                0 <= p < t.1@.len() ==> total_len(#[trigger] t.1@[p]@, lens_view(seg_lens@))
                    <= u32::MAX
            &&& forall|p: int|
                0 <= p < t.2@.len() ==> rb_seq(#[trigger] t.2@[p]) == offsets_model(
                    t.1@[p]@,
                    lens_view(seg_lens@),
                    t.1@[p]@.len() as int,
                )
        },
        r matches Err(e) ==> scan_path_lines(lines_view(lines@), min_id as int, lens_view(
            seg_lens@,
        )) == Err::<PathsScan, LoadError>(e),
{
    let ghost lv = lines_view(lines@);
    let ghost lens = lens_view(seg_lens@);
    let mut names: Vec<Vec<u8>> = Vec::new();
    let mut stepss: Vec<Vec<PathStep>> = Vec::new();
    let mut offsetss: Vec<RoaringBitmap> = Vec::new();
    let mut li: usize = 0;
    proof {
        assert(lv.take(0) =~= Seq::<Seq<u8>>::empty());
        assert(lines_view(names@) =~= Seq::<Seq<u8>>::empty());
        assert(stepss_view(stepss@) =~= Seq::<Seq<PathStep>>::empty());
    }
    while li < lines.len()
        invariant
            0 <= li <= lines@.len(),
            lv == lines_view(lines@),
            lens == lens_view(seg_lens@),
            1 <= seg_lens@.len() <= u32::MAX,
            lens_ok(lens),
            scan_path_lines(lv.take(li as int), min_id as int, lens) == Ok::<
                PathsScan,
                LoadError,
            >(PathsScan { names: lines_view(names@), steps: stepss_view(stepss@) }),
            names@.len() == stepss@.len(),
            stepss@.len() == offsetss@.len(),
            forall|p: int|
                0 <= p < stepss@.len() ==> steps_ok(#[trigger] stepss@[p]@, seg_lens@.len() as int),
            forall|p: int|
                0 <= p < stepss@.len() ==> total_len(#[trigger] stepss@[p]@, lens) <= u32::MAX,
            forall|p: int|
                0 <= p < offsetss@.len() ==> rb_seq(#[trigger] offsetss@[p]) == offsets_model(
                    stepss@[p]@,
                    lens,
                    stepss@[p]@.len() as int,
                ),
        decreases lines@.len() - li,
    {
        let ghost acc = PathsScan { names: lines_view(names@), steps: stepss_view(stepss@) };
        let line: &Vec<u8> = &lines[li];
        assert(line@ == lv[li as int]);
        proof {
            assert(lv.take(li + 1).drop_last() =~= lv.take(li as int));
            assert(lv.take(li + 1).last() == lv[li as int]);
        }
        if line.len() > 0 && line[0] == 80u8 {
            let fields = split_bytes(line.as_slice(), 9);
            assert(fields@.map_values(|p: Vec<u8>| p@) == crate::bytes::split_on(
                lv[li as int],
                9,
            ));
            if fields.len() >= 3 {
                proof {
                    let f = crate::bytes::split_on(lv[li as int], 9);
                    assert(fields@[1]@ == f[1]);
                    assert(fields@[2]@ == f[2]);
                }
                let name = slice_to_vec(fields[1].as_slice(), 0, fields[1].len());
                assert(name@ =~= crate::bytes::split_on(lv[li as int], 9)[1]);
                match parse_steps(fields[2].as_slice(), min_id, seg_lens) {
                    Err(e) => {
                        proof {
                            assert(scan_path_line(acc, lv[li as int], min_id as int, lens)
                                == Err::<PathsScan, LoadError>(e));
                            assert(scan_path_lines(lv.take(li + 1), min_id as int, lens)
                                == Err::<PathsScan, LoadError>(e));
                            lemma_scan_path_prefix_err(lv, min_id as int, lens, li + 1);
                        }
                        return Err(e);
                    },
                    Ok((steps, offsets)) => {
                        proof {
                            assert(lines_view(names@.push(name)) =~= lines_view(names@).push(
                                name@,
                            ));
                            assert(stepss_view(stepss@.push(steps)) =~= stepss_view(
                                stepss@,
                            ).push(steps@));
                            assert(scan_path_line(acc, lv[li as int], min_id as int, lens)
                                == Ok::<PathsScan, LoadError>(
                                PathsScan {
                                    names: lines_view(names@).push(name@),
                                    steps: stepss_view(stepss@).push(steps@),
                                },
                            ));
                        }
                        names.push(name);
                        stepss.push(steps);
                        offsetss.push(offsets);
                    },
                }
            } else {
                assert(scan_path_line(acc, lv[li as int], min_id as int, lens) == Ok::<
                    PathsScan,
                    LoadError,
                >(acc));
            }
        } else {
            assert(scan_path_line(acc, lv[li as int], min_id as int, lens) == Ok::<
                PathsScan,
                LoadError,
            >(acc));
        }
        li = li + 1;
    }
    proof {
        assert(lv.take(li as int) =~= lv);
    }
    Ok((names, stepss, offsetss))
}

/// The loaded index: segment identifier range, segment lengths in file
/// order, and for every path its name, its steps, and the sorted set of
/// step start offsets.
pub struct PathIndex {
    pub min_id: usize,
    pub max_id: usize,
    pub segment_lens: Vec<usize>,
    pub path_names: Vec<Vec<u8>>,
    pub path_steps: Vec<Vec<PathStep>>,
    pub path_step_offsets: Vec<RoaringBitmap>,
}

impl PathIndex {
    /// Segment lengths as mathematical integers.
    pub open spec fn lens(self) -> Seq<int> {
        lens_view(self.segment_lens@)
    }

    /// What the index holds, as the load model computes it.
    pub open spec fn model(self) -> IndexModel {
        IndexModel {
            min_id: self.min_id as int,
            max_id: self.max_id as int,
            seg_lens: self.lens(),
            names: lines_view(self.path_names@),
            steps: stepss_view(self.path_steps@),
        }
    }

    pub open spec fn n_paths(self) -> int {
        self.path_steps@.len() as int
    }

    /// The position index contents of path `p`, ascending.
    pub open spec fn path_offsets(self, p: int) -> Seq<u32> {
        rb_seq(self.path_step_offsets@[p])
    }

    /// The step sequence of path `p`.
    pub open spec fn steps_of(self, p: int) -> Seq<PathStep> {
        self.path_steps@[p]@
    }

    /// The name of path `p`.
    pub open spec fn name_of(self, p: int) -> Seq<u8> {
        self.path_names@[p]@
    }

    /// Well-formedness: what every successfully loaded index satisfies.
    /// The three per-path vectors run in parallel, every step references a
    /// loaded segment, every path fits the coordinate range, and every
    /// position set holds exactly the load model's offsets.
    pub open spec fn wf(self) -> bool {
        &&& self.path_names@.len() == self.path_steps@.len()
        &&& self.path_steps@.len() == self.path_step_offsets@.len()
        &&& 1 <= self.segment_lens@.len() <= u32::MAX
        &&& self.min_id <= self.max_id
        &&& self.max_id - self.min_id == self.segment_lens@.len() - 1
        &&& lens_ok(self.lens())
        &&& forall|p: int|
            0 <= p < self.n_paths() ==> steps_ok(
                #[trigger] self.path_steps@[p]@,
                self.segment_lens@.len() as int,
            )
        &&& forall|p: int|
            0 <= p < self.n_paths() ==> total_len(#[trigger] self.path_steps@[p]@, self.lens())
                <= u32::MAX
        &&& forall|p: int|
            0 <= p < self.n_paths() ==> rb_seq(#[trigger] self.path_step_offsets@[p])
                == offsets_model(self.path_steps@[p]@, self.lens(), self.path_steps@[p]@.len() as int)
    }

    /// Loads the index from the bytes of a graph file.  Succeeds exactly
    /// when the load model does, yielding its value; fails with exactly the
    /// model's first error otherwise.
    pub fn from_gfa_bytes(file: &[u8]) -> (r: Result<PathIndex, LoadError>)
        ensures
            (r is Ok) == (build_model(file@) is Ok),
            r matches Ok(idx) ==> idx.model() == build_model(file@)->Ok_0 && idx.wf(),
            r matches Err(e) ==> build_model(file@) == Err::<IndexModel, LoadError>(e),
    {
        let lines = split_bytes(file, 10);
        let ghost lv = lines_view(lines@);
        assert(lv == crate::bytes::split_on(file@, 10));
        let (mn, mx, seg_lens) = match scan_segments(&lines) {
            Ok(t) => t,
            Err(e) => {
                assert(seg_table_model(lv) == Err::<SegScan, LoadError>(e));
                return Err(e);
            },
        };
        if seg_lens.len() == 0 {
            assert(seg_table_model(lv) == Err::<SegScan, LoadError>(
                LoadError::SegmentIdsNotContiguous,
            ));
            return Err(LoadError::SegmentIdsNotContiguous);
        }
        if mx - mn != seg_lens.len() - 1 {
            assert(seg_table_model(lv) == Err::<SegScan, LoadError>(
                LoadError::SegmentIdsNotContiguous,
            ));
            return Err(LoadError::SegmentIdsNotContiguous);
        }
        if seg_lens.len() as u64 > u32::MAX as u64 {
            assert(seg_table_model(lv) == Err::<SegScan, LoadError>(LoadError::TooManySegments));
            return Err(LoadError::TooManySegments);
        }
        proof {
            assert(seg_table_model(lv) == Ok::<SegScan, LoadError>(
                SegScan { min_id: mn as int, max_id: mx as int, lens: lens_view(seg_lens@) },
            ));
            lemma_scan_seg_lens_ok(lv);
        }
        let (names, stepss, offsetss) = match scan_paths(&lines, mn, &seg_lens) {
            Ok(t) => t,
            Err(e) => {
                assert(build_model(file@) == Err::<IndexModel, LoadError>(e));
                return Err(e);
            },
        };
        let idx = PathIndex {
            min_id: mn,
            max_id: mx,
            segment_lens: seg_lens,
            path_names: names,
            path_steps: stepss,
            path_step_offsets: offsetss,
        };
        proof {
            assert(idx.model() == build_model(file@)->Ok_0);
            assert(idx.wf());
        }
        Ok(idx)
    }
}

/// Rebuilding the index from the same graph bytes yields the identical
/// index: the same segment table, and for every path the same name, the
/// same step sequence and the same position index contents.
pub proof fn lemma_rebuild_identical(a: PathIndex, b: PathIndex, file: Seq<u8>)
    requires
        a.wf(),
        b.wf(),
        build_model(file) == Ok::<IndexModel, LoadError>(a.model()),
        build_model(file) == Ok::<IndexModel, LoadError>(b.model()),
    ensures
        a.model() == b.model(),
        a.n_paths() == b.n_paths(),
        forall|p: int| 0 <= p < a.n_paths() ==> a.steps_of(p) == b.steps_of(p),
        forall|p: int| 0 <= p < a.n_paths() ==> a.path_offsets(p) == b.path_offsets(p),
{
    assert(a.model() == b.model());
    assert(stepss_view(a.path_steps@) == stepss_view(b.path_steps@));
    assert(a.path_steps@.len() == b.path_steps@.len());
    assert(forall|p: int|
        0 <= p < a.n_paths() ==> #[trigger] a.steps_of(p) == stepss_view(a.path_steps@)[p]);
    assert(forall|p: int|
        0 <= p < a.n_paths() ==> #[trigger] b.steps_of(p) == stepss_view(b.path_steps@)[p]);
    assert(a.lens() == b.lens());
    assert(forall|p: int|
        0 <= p < a.n_paths() ==> #[trigger] a.path_offsets(p) == offsets_model(
            a.steps_of(p),
            a.lens(),
            a.steps_of(p).len() as int,
        ));
    assert(forall|p: int|
        0 <= p < a.n_paths() ==> #[trigger] b.path_offsets(p) == offsets_model(
            b.steps_of(p),
            b.lens(),
            b.steps_of(p).len() as int,
        ));
}

} // verus!
