//! The range query engine: resolving a path name and mapping a half-open
//! coordinate range on the path to the contiguous slice of steps whose
//! extents intersect it.
//!
//! The step slice for `[start, end)` is `[query_lo, query_hi)`: the step
//! containing `start` (clamped to the first step when `start` precedes it)
//! up to but excluding the first step starting at or after `end`.  A range
//! ending exactly at a step's start excludes that step; one starting
//! exactly at a step's start includes it.

use vstd::prelude::*;
use crate::gfa::{
    lens_ok, lemma_offsets_exact, lemma_offsets_props, lemma_prefix_monotone, offsets_model,
    prefix_len, steps_ok, total_len, PathStep,
};
use crate::index::{lines_view, PathIndex};
use crate::posset::{
    count_in, count_le, count_lt, lemma_count_le_bounds, lemma_count_le_lt_le,
    lemma_count_le_sorted, lemma_count_lt_bounds, lemma_count_lt_is_le_pred,
    lemma_count_lt_sorted, lemma_rank_select_roundtrip, rb_rank, rb_range_cardinality,
    rb_to_vec,
};
use crate::bytes::bytes_eq;

verus! {

/// The index of the last record named `name`, later records shadowing
/// earlier ones.
pub open spec fn path_lookup(names: Seq<Seq<u8>>, name: Seq<u8>) -> Option<int>
    decreases names.len(),
{
    if names.len() == 0 {
        None
    } else if names.last() == name {
        Some(names.len() - 1)
    } else {
        path_lookup(names.drop_last(), name)
    }
}

/// The first step of the query slice for a range starting at `start`: the
/// step containing `start`, or the first step when `start` precedes every
/// stored offset.
pub open spec fn query_lo(offs: Seq<u32>, start: int) -> int {
    let c = count_le(offs, start);
    if c == 0 {
        0
    } else {
        c - 1
    }
}

/// One past the last step of the query slice for `[start, end)`: the
/// number of steps starting strictly before `end`.  An empty range selects
/// no steps.
pub open spec fn query_hi(offs: Seq<u32>, start: int, end: int) -> int {
    if end <= start {
        query_lo(offs, start)
    } else {
        count_lt(offs, end)
    }
}

/// What one diagnostic range query reports: the rank of each bound, the
/// offsets stored inside the range, and a row per selected step.
pub struct RangeReport {
    pub start_rank: u64,
    pub end_rank: u64,
    pub cardinality: u64,
    pub rows: Vec<(usize, usize, u32)>,
}

impl PathIndex {
    /// Resolves a path name to its index, the last record of that name
    /// winning.
    pub fn find_path(&self, name: &[u8]) -> (r: Option<usize>)
        ensures
            match r {
                Some(p) => path_lookup(self.model().names, name@) == Some(p as int),
                None => path_lookup(self.model().names, name@) is None,
            },
    {
        let ghost names = lines_view(self.path_names@);
        let mut i: usize = self.path_names.len();
        proof {
            assert(names.take(i as int) =~= names);
        }
        while i > 0
            invariant
                0 <= i <= self.path_names@.len(),
                names == lines_view(self.path_names@),
                path_lookup(names, name@) == path_lookup(names.take(i as int), name@),
            decreases i,
        {
            proof {
                assert(names.take(i as int).drop_last() =~= names.take(i - 1));
                assert(names.take(i as int).last() == names[i - 1]);
            }
            if bytes_eq(self.path_names[i - 1].as_slice(), name) {
                return Some(i - 1);
            }
            i = i - 1;
        }
        proof {
            assert(names.take(0) =~= Seq::<Seq<u8>>::empty());
        }
        None
    }

    /// Maps a half-open coordinate range on a named path to the index range
    /// `[lo, hi)` of the steps it selects.  `None` exactly when the name
    /// resolves to no path.
    pub fn path_step_range(&self, name: &[u8], start: u32, end: u32) -> (r: Option<
        (usize, usize),
    >)
        requires
            self.wf(),
        ensures
            r is Some <==> path_lookup(self.model().names, name@) is Some,
            r matches Some(t) ==> {
                let p = path_lookup(self.model().names, name@)->Some_0;
                &&& 0 <= p < self.n_paths()
                &&& t.0 as int == query_lo(self.path_offsets(p), start as int)
                &&& t.1 as int == query_hi(self.path_offsets(p), start as int, end as int)
                &&& t.0 <= t.1
                &&& t.1 as int <= self.path_offsets(p).len()
                &&& self.path_offsets(p).len() <= self.steps_of(p).len()
            },
    {
        let p = match self.find_path(name) {
            None => {
                return None;
            },
            Some(p) => p,
        };
        proof {
            lemma_path_lookup_in_range(lines_view(self.path_names@), name@);
        }
        let offsets = &self.path_step_offsets[p];
        let ghost offs = self.path_offsets(p as int);
        proof {
            lemma_offsets_props(
                self.path_steps@[p as int]@,
                self.lens(),
                self.path_steps@[p as int]@.len() as int,
            );
            lemma_count_le_bounds(offs, start as int);
            lemma_count_le_bounds(offs, end as int - 1);
            lemma_count_lt_bounds(offs, end as int);
            assert(offs == offsets_model(
                self.path_steps@[p as int]@,
                self.lens(),
                self.path_steps@[p as int]@.len() as int,
            ));
            assert(offs.len() <= self.path_steps@[p as int]@.len());
        }
        let start_rank = rb_rank(offsets, start);
        let lo: u64 = if start_rank == 0 {
            0
        } else {
            start_rank - 1
        };
        let hi: u64 = if end <= start {
            lo
        } else {
            proof {
                lemma_count_lt_is_le_pred(offs, end as int);
                lemma_count_le_lt_le(offs, start as int, end as int - 1);
            }
            rb_rank(offsets, end - 1)
        };
        let nsteps: usize = self.path_steps[p].len();
        proof {
            assert(offs.len() <= nsteps);
            assert(lo as int <= offs.len());
            assert(hi as int <= offs.len());
        }
        Some((lo as usize, hi as usize))
    }

    /// Computes a diagnostic report for one range query: the raw rank of
    /// both bounds, the number of stored offsets inside the range, and one
    /// row per selected step giving its index, its segment identifier and
    /// its start offset.  `None` exactly when the name resolves to no path.
    pub fn path_range_report(&self, name: &[u8], start: u32, end: u32) -> (r: Option<
        RangeReport,
    >)
        requires
            self.wf(),
        ensures
            r is Some <==> path_lookup(self.model().names, name@) is Some,
            r matches Some(rep) ==> {
                let p = path_lookup(self.model().names, name@)->Some_0;
                let offs = self.path_offsets(p);
                let lo = query_lo(offs, start as int);
                let hi = query_hi(offs, start as int, end as int);
                &&& rep.start_rank as int == count_le(offs, start as int)
                &&& rep.end_rank as int == count_le(offs, end as int)
                &&& rep.cardinality as int == count_in(offs, start as int, end as int)
                &&& rep.rows@.len() == hi - lo
                &&& forall|k: int|
                    0 <= k < rep.rows@.len() ==> {
                        let row = #[trigger] rep.rows@[k];
                        &&& row.0 as int == lo + k
                        &&& row.1 as int == self.min_id + self.steps_of(p)[lo + k].node
                        &&& row.2 == offs[lo + k]
                    }
            },
    {
        let p = match self.find_path(name) {
            None => {
                return None;
            },
            Some(p) => p,
        };
        proof {
            lemma_path_lookup_in_range(lines_view(self.path_names@), name@);
        }
        let t = self.path_step_range(name, start, end);
        let (lo, hi) = match t {
            Some(t) => t,
            None => {
                proof {
                    assert(false);
                }
                return None;
            },
        };
        let offsets = &self.path_step_offsets[p];
        let ghost offs = self.path_offsets(p as int);
        let start_rank = rb_rank(offsets, start);
        let end_rank = rb_rank(offsets, end);
        let cardinality = rb_range_cardinality(offsets, start, end);
        let ovec = rb_to_vec(offsets);
        let steps = &self.path_steps[p];
        let mut rows: Vec<(usize, usize, u32)> = Vec::new();
        let mut k: usize = lo;
        while k < hi
            invariant
                lo <= k <= hi,
                hi <= ovec@.len(),
                hi <= steps@.len(),
                ovec@ == offs,
                self.wf(),
                0 <= p < self.n_paths(),
                steps@ == self.path_steps@[p as int]@,
                self.min_id + self.segment_lens@.len() - 1 == self.max_id,
                rows@.len() == k - lo,
                forall|j: int|
                    0 <= j < rows@.len() ==> {
                        let row = #[trigger] rows@[j];
                        &&& row.0 as int == lo + j
                        &&& row.1 as int == self.min_id + self.steps_of(p as int)[lo + j].node
                        &&& row.2 == offs[lo + j]
                    },
            decreases hi - k,
        {
            let step = steps[k];
            proof {
                assert(steps_ok(self.path_steps@[p as int]@, self.segment_lens@.len() as int));
                assert((step.node as int) < self.segment_lens@.len());
            }
            let node_id: usize = self.min_id + step.node as usize;
            rows.push((k, node_id, ovec[k]));
            k = k + 1;
        }
        Some(RangeReport { start_rank, end_rank, cardinality, rows })
    }

    /// The segment identifier range loaded from the graph.
    pub fn id_range(&self) -> (r: (usize, usize))
        ensures
            r.0 == self.min_id,
            r.1 == self.max_id,
    {
        (self.min_id, self.max_id)
    }

    /// The length of the segment at the given offset from the minimum
    /// identifier.
    pub fn segment_length(&self, offset: usize) -> (r: usize)
        requires
            offset < self.segment_lens@.len(),
        ensures
            r == self.segment_lens@[offset as int],
    {
        self.segment_lens[offset]
    }
}

/// A resolved path index is always in range.
pub proof fn lemma_path_lookup_in_range(names: Seq<Seq<u8>>, name: Seq<u8>)
    ensures
        path_lookup(names, name) matches Some(p) ==> 0 <= p < names.len() && names[p] == name,
    decreases names.len(),
{
    if names.len() > 0 {
        lemma_path_lookup_in_range(names.drop_last(), name);
    }
}

/// The point query law: for a coordinate `x` on a path all of whose steps
/// have positive length, the query range `[x, x + 1)` selects exactly one
/// step, the unique step whose extent `[start, start + length)` contains
/// `x`.
pub proof fn lemma_point_query(steps: Seq<PathStep>, lens: Seq<int>, x: int)
    requires
        lens_ok(lens),
        steps_ok(steps, lens.len() as int),
        total_len(steps, lens) <= u32::MAX,
        forall|j: int| 0 <= j < steps.len() ==> lens[#[trigger] steps[j].node as int] > 0,
        0 <= x < total_len(steps, lens),
    ensures
        ({
            let offs = offsets_model(steps, lens, steps.len() as int);
            let lo = query_lo(offs, x);
            let hi = query_hi(offs, x, x + 1);
            &&& hi == lo + 1
            &&& 0 <= lo < steps.len()
            &&& prefix_len(steps, lens, lo) <= x < prefix_len(steps, lens, lo + 1)
            &&& forall|j: int|
                0 <= j < steps.len() && j != lo ==> !(#[trigger] prefix_len(steps, lens, j) <= x
                    < prefix_len(steps, lens, j + 1))
        }),
{
    let n = steps.len() as int;
    let offs = offsets_model(steps, lens, n);
    lemma_offsets_exact(steps, lens, n);
    lemma_offsets_props(steps, lens, n);
    assert(n > 0) by {
        if n == 0 {
            assert(total_len(steps, lens) == 0);
        }
    }
    lemma_count_le_sorted(offs, x);
    lemma_count_le_bounds(offs, x);
    let c = count_le(offs, x);
    assert(offs[0] as int == prefix_len(steps, lens, 0) == 0);
    assert(c >= 1) by {
        assert(offs[0] <= x);
    }
    let lo = query_lo(offs, x);
    assert(lo == c - 1);
    assert(offs[lo] <= x);
    assert(prefix_len(steps, lens, lo) <= x);
    assert(x < prefix_len(steps, lens, lo + 1)) by {
        if lo + 1 < n {
            assert(!(offs[lo + 1] <= x));
            assert(offs[lo + 1] as int == prefix_len(steps, lens, lo + 1));
        } else {
            assert(lo + 1 == n);
        }
    }
    assert(query_hi(offs, x, x + 1) == lo + 1) by {
        lemma_count_lt_is_le_pred(offs, x + 1);
        assert(count_lt(offs, x + 1) == count_le(offs, x));
    }
    assert(forall|j: int|
        0 <= j < steps.len() && j != lo ==> !(#[trigger] prefix_len(steps, lens, j) <= x
            < prefix_len(steps, lens, j + 1))) by {
        assert forall|j: int|
            0 <= j < steps.len() && j != lo implies !(#[trigger] prefix_len(steps, lens, j) <= x
            < prefix_len(steps, lens, j + 1)) by {
            if j < lo {
                lemma_prefix_monotone(steps, lens, j + 1, lo);
                assert(prefix_len(steps, lens, j + 1) <= prefix_len(steps, lens, lo));
            } else {
                lemma_prefix_monotone(steps, lens, lo + 1, j);
                assert(prefix_len(steps, lens, j) >= prefix_len(steps, lens, lo + 1));
            }
        }
    }
}

/// The half-open boundary law, on a path all of whose steps have positive
/// length.  Let `b` be the start offset of step `i`.  A query range ending
/// exactly at `b` excludes step `i`; a query range starting exactly at `b`
/// includes it.
pub proof fn lemma_half_open_boundaries(
    steps: Seq<PathStep>,
    lens: Seq<int>,
    i: int,
    s: int,
    e: int,
)
    requires
        lens_ok(lens),
        steps_ok(steps, lens.len() as int),
        total_len(steps, lens) <= u32::MAX,
        forall|j: int| 0 <= j < steps.len() ==> lens[#[trigger] steps[j].node as int] > 0,
        0 <= i < steps.len(),
    ensures
        ({
            let offs = offsets_model(steps, lens, steps.len() as int);
            let b = prefix_len(steps, lens, i);
            &&& (s < b ==> query_hi(offs, s, b) <= i)
            &&& (b < e ==> query_lo(offs, b) == i && i < query_hi(offs, b, e))
        }),
{
    let n = steps.len() as int;
    let offs = offsets_model(steps, lens, n);
    lemma_offsets_exact(steps, lens, n);
    lemma_offsets_props(steps, lens, n);
    let b = prefix_len(steps, lens, i);
    assert(offs[i] as int == b);
    if s < b {
        lemma_count_lt_sorted(offs, b);
        lemma_count_lt_bounds(offs, b);
        let h = count_lt(offs, b);
        assert(!(offs[i] < b));
        assert(h <= i);
    }
    if b < e {
        lemma_rank_select_roundtrip(offs, i);
        assert(count_le(offs, b) == i + 1);
        assert(query_lo(offs, b) == i);
        lemma_count_le_lt_le(offs, b, e - 1);
        assert(count_le(offs, b) <= count_lt(offs, e));
    }
}

} // verus!
