//! The compressed sorted position set behind each path's position index.
//!
//! The set is held in a `roaring::RoaringBitmap`.  Its contents are named by
//! the uninterpreted function [`rb_seq`], read as the stored integers in
//! ascending order; every operation the index needs is a thin wrapper whose
//! contract speaks over that name.  The counting functions [`count_le`],
//! [`count_lt`] and [`count_in`] state what rank and range-cardinality
//! queries return, and the lemmas below give the rank/select algebra that
//! holds of a strictly sorted sequence.

use vstd::prelude::*;
use roaring::RoaringBitmap;

verus! {

/// Declares `roaring::RoaringBitmap` to the verifier as an opaque type.
#[verifier::external_type_specification]
#[verifier::external_body]
pub struct ExRoaringBitmap(RoaringBitmap);

/// The integers stored in the bitmap, in ascending order.
pub uninterp spec fn rb_seq(b: RoaringBitmap) -> Seq<u32>;

/// `s[i] < s[j]` whenever `i < j`: strictly ascending, hence duplicate-free.
pub open spec fn sorted_strict(s: Seq<u32>) -> bool {
    forall|i: int, j: int| 0 <= i < j < s.len() ==> #[trigger] s[i] < #[trigger] s[j]
}

/// How many entries of `s` are `<= x`.
pub open spec fn count_le(s: Seq<u32>, x: int) -> int
    decreases s.len(),
{
    if s.len() == 0 {
        0
    } else {
        count_le(s.drop_last(), x) + if s.last() <= x {
            1int
        } else {
            0int
        }
    }
}

/// How many entries of `s` are `< x`.
pub open spec fn count_lt(s: Seq<u32>, x: int) -> int
    decreases s.len(),
{
    if s.len() == 0 {
        0
    } else {
        count_lt(s.drop_last(), x) + if s.last() < x {
            1int
        } else {
            0int
        }
    }
}

/// How many entries of `s` lie in the half-open range `[lo, hi)`.
pub open spec fn count_in(s: Seq<u32>, lo: int, hi: int) -> int
    decreases s.len(),
{
    if s.len() == 0 {
        0
    } else {
        count_in(s.drop_last(), lo, hi) + if lo <= s.last() < hi {
            1int
        } else {
            0int
        }
    }
}

/// Relies on `roaring::RoaringBitmap::new`: creates an empty set.
#[verifier::external_body]
pub fn rb_new() -> (r: RoaringBitmap)
    ensures
        rb_seq(r) == Seq::<u32>::empty(),
{
    RoaringBitmap::new()
}

/// Relies on `roaring::RoaringBitmap::try_push`: appends `v` exactly when it
/// is strictly greater than the current maximum (or the set is empty), and
/// reports whether it was inserted.
#[verifier::external_body]
pub fn rb_push(b: &mut RoaringBitmap, v: u32) -> (r: bool)
    ensures
        (rb_seq(*old(b)).len() == 0 || rb_seq(*old(b)).last() < v) ==> (r && rb_seq(*final(b))
            == rb_seq(*old(b)).push(v)),
        !(rb_seq(*old(b)).len() == 0 || rb_seq(*old(b)).last() < v) ==> (!r && rb_seq(*final(b))
            == rb_seq(*old(b))),
{
    b.try_push(v).is_ok()
}

/// Relies on `roaring::RoaringBitmap::rank`: the number of stored integers
/// that are `<= v`.
#[verifier::external_body]
pub fn rb_rank(b: &RoaringBitmap, v: u32) -> (r: u64)
    ensures
        r as int == count_le(rb_seq(*b), v as int),
{
    b.rank(v)
}

/// Relies on `roaring::RoaringBitmap::select`: the `n`-th smallest stored
/// integer, or `None` when fewer than `n + 1` are stored.
#[verifier::external_body]
pub fn rb_select(b: &RoaringBitmap, n: u32) -> (r: Option<u32>)
    ensures
        (n as int) < rb_seq(*b).len() ==> r == Some(rb_seq(*b)[n as int]),
        (n as int) >= rb_seq(*b).len() ==> r is None,
{
    b.select(n)
}

/// Relies on `roaring::RoaringBitmap::range_cardinality`: the number of
/// stored integers in `[lo, hi)`.
#[verifier::external_body]
pub fn rb_range_cardinality(b: &RoaringBitmap, lo: u32, hi: u32) -> (r: u64)
    ensures
        r as int == count_in(rb_seq(*b), lo as int, hi as int),
{
    b.range_cardinality(lo..hi)
}

/// Relies on `roaring::RoaringBitmap::iter`: yields the stored integers in
/// ascending order.
#[verifier::external_body]
pub fn rb_to_vec(b: &RoaringBitmap) -> (r: Vec<u32>)
    ensures
        r@ == rb_seq(*b),
{
    b.iter().collect()
}

pub proof fn lemma_count_le_bounds(s: Seq<u32>, x: int)
    ensures
        0 <= count_le(s, x) <= s.len(),
    decreases s.len(),
{
    if s.len() > 0 {
        lemma_count_le_bounds(s.drop_last(), x);
    }
}

pub proof fn lemma_count_lt_bounds(s: Seq<u32>, x: int)
    ensures
        0 <= count_lt(s, x) <= s.len(),
    decreases s.len(),
{
    if s.len() > 0 {
        lemma_count_lt_bounds(s.drop_last(), x);
    }
}

/// Counting strictly below `x` is counting at-or-below `x - 1`.
pub proof fn lemma_count_lt_is_le_pred(s: Seq<u32>, x: int)
    ensures
        count_lt(s, x) == count_le(s, x - 1),
    decreases s.len(),
{
    if s.len() > 0 {
        lemma_count_lt_is_le_pred(s.drop_last(), x);
    }
}

pub proof fn lemma_count_le_lt_le(s: Seq<u32>, x: int, y: int)
    requires
        x <= y,
    ensures
        count_le(s, x) <= count_lt(s, y + 1),
    decreases s.len(),
{
    if s.len() > 0 {
        lemma_count_le_lt_le(s.drop_last(), x, y);
    }
}

/// Every stored integer fits the coordinate type, so any threshold at or
/// beyond it counts the whole sequence.
pub proof fn lemma_count_le_all(s: Seq<u32>, x: int)
    requires
        x >= u32::MAX,
    ensures
        count_le(s, x) == s.len(),
    decreases s.len(),
{
    if s.len() > 0 {
        lemma_count_le_all(s.drop_last(), x);
    }
}

/// A strictly ascending sequence grows at least as fast as its indices.
pub proof fn lemma_sorted_index_lower(s: Seq<u32>, i: int)
    requires
        sorted_strict(s),
        0 <= i < s.len(),
    ensures
        s[i] as int >= i,
    decreases i,
{
    if i > 0 {
        lemma_sorted_index_lower(s, i - 1);
    }
}

/// In a strictly sorted sequence, the entries `<= x` are exactly the first
/// `count_le(s, x)` of them.
pub proof fn lemma_count_le_sorted(s: Seq<u32>, x: int)
    requires
        sorted_strict(s),
    ensures
        forall|i: int|
            0 <= i < s.len() ==> ((#[trigger] s[i] <= x) <==> i < count_le(s, x)),
    decreases s.len(),
{
    if s.len() > 0 {
        let t = s.drop_last();
        assert(sorted_strict(t));
        lemma_count_le_sorted(t, x);
        lemma_count_le_bounds(t, x);
        let c = count_le(t, x);
        if s.last() <= x {
            // all earlier entries are below the last one, so c covers them all
            if c < t.len() {
                assert(!(t[c] <= x));
                assert(t[c] < s.last());
                assert(false);
            }
            assert(c == t.len());
        } else {
            assert(count_le(s, x) == c);
        }
        assert(forall|i: int|
            0 <= i < t.len() ==> (#[trigger] s[i] == t[i]));
    }
}

/// In a strictly sorted sequence, the entries `< x` are exactly the first
/// `count_lt(s, x)` of them.
pub proof fn lemma_count_lt_sorted(s: Seq<u32>, x: int)
    requires
        sorted_strict(s),
    ensures
        forall|i: int|
            0 <= i < s.len() ==> ((#[trigger] s[i] < x) <==> i < count_lt(s, x)),
    decreases s.len(),
{
    if s.len() > 0 {
        let t = s.drop_last();
        assert(sorted_strict(t));
        lemma_count_lt_sorted(t, x);
        lemma_count_lt_bounds(t, x);
        let c = count_lt(t, x);
        if s.last() < x {
            if c < t.len() {
                assert(!(t[c] < x));
                assert(t[c] < s.last());
                assert(false);
            }
            assert(c == t.len());
        } else {
            assert(count_lt(s, x) == c);
        }
        assert(forall|i: int|
            0 <= i < t.len() ==> (#[trigger] s[i] == t[i]));
    }
}

/// Rank and select round-trip at exact boundaries: in a strictly sorted
/// sequence, the number of entries at or below the `i`-th entry is `i + 1`.
pub proof fn lemma_rank_select_roundtrip(s: Seq<u32>, i: int)
    requires
        sorted_strict(s),
        0 <= i < s.len(),
    ensures
        count_le(s, s[i] as int) == i + 1,
{
    lemma_count_le_sorted(s, s[i] as int);
    lemma_count_le_bounds(s, s[i] as int);
    let c = count_le(s, s[i] as int);
    assert(s[i] <= s[i] as int);
    assert(i < c);
    if c > i + 1 {
        assert(s[c - 1] <= s[i] as int);
        assert(s[i] < s[c - 1]);
        assert(false);
    }
}

} // verus!
