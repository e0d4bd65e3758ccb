//! Byte-string utilities for the line-oriented graph text: splitting on a
//! separator byte, trimming ASCII whitespace, and slice equality.

use vstd::prelude::*;

verus! {

/// No byte of `s` equals `sep`.
pub open spec fn no_sep(s: Seq<u8>, sep: u8) -> bool {
    forall|i: int| 0 <= i < s.len() ==> #[trigger] s[i] != sep
}

/// The fields of `s` delimited by `sep`, in order.  An empty string has one
/// empty field; `n` separators delimit `n + 1` fields.
pub open spec fn split_on(s: Seq<u8>, sep: u8) -> Seq<Seq<u8>>
    decreases s.len(),
{
    if s.len() == 0 {
        seq![Seq::<u8>::empty()]
    } else if s[0] == sep {
        seq![Seq::<u8>::empty()] + split_on(s.skip(1), sep)
    } else {
        let rest = split_on(s.skip(1), sep);
        seq![seq![s[0]] + rest[0]] + rest.skip(1)
    }
}

pub proof fn lemma_split_nonempty(s: Seq<u8>, sep: u8)
    ensures
        split_on(s, sep).len() >= 1,
    decreases s.len(),
{
    if s.len() > 0 {
        lemma_split_nonempty(s.skip(1), sep);
    }
}

/// A separator-free string is one single field.
pub proof fn lemma_split_no_sep(s: Seq<u8>, sep: u8)
    requires
        no_sep(s, sep),
    ensures
        split_on(s, sep) == seq![s],
    decreases s.len(),
{
    if s.len() == 0 {
        assert(split_on(s, sep) =~~= seq![s]);
    } else {
        assert(s[0] != sep);
        assert(no_sep(s.skip(1), sep)) by {
            assert(forall|i: int|
                0 <= i < s.skip(1).len() ==> #[trigger] s.skip(1)[i] == s[i + 1]);
        }
        lemma_split_no_sep(s.skip(1), sep);
        assert(seq![s[0]] + s.skip(1) =~= s);
        assert(split_on(s, sep) =~~= seq![s]);
    }
}

/// Splitting off a leading separator-free field: the remainder splits on
/// its own.
pub proof fn lemma_split_first_field(u: Seq<u8>, v: Seq<u8>, sep: u8)
    requires
        no_sep(u, sep),
    ensures
        split_on(u + seq![sep] + v, sep) == seq![u] + split_on(v, sep),
    decreases u.len(),
{
    let s = u + seq![sep] + v;
    lemma_split_nonempty(v, sep);
    if u.len() == 0 {
        assert(s[0] == sep);
        assert(s.skip(1) =~= v);
        assert(split_on(s, sep) =~~= seq![u] + split_on(v, sep));
    } else {
        assert(s[0] == u[0]);
        assert(s[0] != sep);
        assert(no_sep(u.skip(1), sep)) by {
            assert(forall|i: int|
                0 <= i < u.skip(1).len() ==> #[trigger] u.skip(1)[i] == u[i + 1]);
        }
        lemma_split_first_field(u.skip(1), v, sep);
        assert(s.skip(1) =~= u.skip(1) + seq![sep] + v);
        let rest = split_on(s.skip(1), sep);
        assert(rest == seq![u.skip(1)] + split_on(v, sep));
        assert(rest[0] == u.skip(1));
        assert(seq![s[0]] + rest[0] =~= u);
        assert(rest.skip(1) =~= split_on(v, sep));
        assert(split_on(s, sep) =~~= seq![u] + split_on(v, sep));
    }
}

/// Copies `s[a..b]` into a fresh vector.
pub fn slice_to_vec(s: &[u8], a: usize, b: usize) -> (r: Vec<u8>)
    requires
        a <= b <= s@.len(),
    ensures
        r@ == s@.subrange(a as int, b as int),
{
    let mut r: Vec<u8> = Vec::new();
    let mut i: usize = a;
    while i < b
        invariant
            a <= i <= b <= s@.len(),
            r@ == s@.subrange(a as int, i as int),
        decreases b - i,
    {
        r.push(s[i]);
        assert(r@ =~= s@.subrange(a as int, i + 1));
        i = i + 1;
    }
    r
}

/// Splits `s` into the fields delimited by `sep`.
pub fn split_bytes(s: &[u8], sep: u8) -> (r: Vec<Vec<u8>>)
    ensures
        r@.map_values(|p: Vec<u8>| p@) == split_on(s@, sep),
        r@.len() >= 1,
{
    let mut parts: Vec<Vec<u8>> = Vec::new();
    let mut start: usize = 0;
    let mut i: usize = 0;
    proof {
        assert(s@.skip(0) =~= s@);
        assert(parts@.map_values(|p: Vec<u8>| p@) + split_on(s@, sep)
            =~= split_on(s@, sep));
    }
    while i < s.len()
        invariant
            0 <= start <= i <= s@.len(),
            no_sep(s@.subrange(start as int, i as int), sep),
            split_on(s@, sep) == parts@.map_values(|p: Vec<u8>| p@)
                + split_on(s@.skip(start as int), sep),
        decreases s@.len() - i,
    {
        if s[i] == sep {
            let field = slice_to_vec(s, start, i);
            proof {
                let u = s@.subrange(start as int, i as int);
                let v = s@.skip(i + 1);
                assert(s@.skip(start as int) =~= u + seq![sep] + v);
                lemma_split_first_field(u, v, sep);
                assert(parts@.push(field).map_values(|p: Vec<u8>| p@)
                    =~= parts@.map_values(|p: Vec<u8>| p@) + seq![u]);
                assert(parts@.map_values(|p: Vec<u8>| p@) + (seq![u] + split_on(v, sep))
                    =~= (parts@.map_values(|p: Vec<u8>| p@) + seq![u]) + split_on(v, sep));
            }
            parts.push(field);
            start = i + 1;
            assert(no_sep(s@.subrange(start as int, (i + 1) as int), sep));
        } else {
            assert(no_sep(s@.subrange(start as int, i + 1), sep)) by {
                let t = s@.subrange(start as int, i + 1);
                assert(forall|k: int| 0 <= k < t.len() ==> #[trigger] t[k] == s@[start + k]);
                assert(forall|k: int|
                    0 <= k < t.len() - 1 ==>
                        #[trigger] t[k] == s@.subrange(start as int, i as int)[k]);
                assert(t[t.len() - 1] == s@[i as int]);
            }
        }
        i = i + 1;
    }
    let field = slice_to_vec(s, start, s.len());
    proof {
        let u = s@.subrange(start as int, s@.len() as int);
        assert(u =~= s@.skip(start as int));
        lemma_split_no_sep(u, sep);
        assert(parts@.push(field).map_values(|p: Vec<u8>| p@)
            =~= parts@.map_values(|p: Vec<u8>| p@) + seq![u]);
        assert(parts@.map_values(|p: Vec<u8>| p@) + seq![u] =~= split_on(s@, sep));
    }
    parts.push(field);
    parts
}

/// ASCII whitespace, as trimmed from the ends of a field.
pub open spec fn is_space(b: u8) -> bool {
    b == 32 || b == 9 || b == 10 || b == 11 || b == 12 || b == 13
}

/// `s` with leading whitespace removed.
pub open spec fn trim_left(s: Seq<u8>) -> Seq<u8>
    decreases s.len(),
{
    if s.len() > 0 && is_space(s[0]) {
        trim_left(s.skip(1))
    } else {
        s
    }
}

/// `s` with trailing whitespace removed.
pub open spec fn trim_right(s: Seq<u8>) -> Seq<u8>
    decreases s.len(),
{
    if s.len() > 0 && is_space(s.last()) {
        trim_right(s.drop_last())
    } else {
        s
    }
}

/// `s` with whitespace removed from both ends.
pub open spec fn trim_spec(s: Seq<u8>) -> Seq<u8> {
    trim_right(trim_left(s))
}

proof fn lemma_trim_left_step(s: Seq<u8>, k: int)
    requires
        0 <= k <= s.len(),
        forall|i: int| 0 <= i < k ==> is_space(#[trigger] s[i]),
    ensures
        trim_left(s) == trim_left(s.skip(k)),
    decreases k,
{
    if k > 0 {
        assert(is_space(s[0]));
        assert(s.len() > 0);
        lemma_trim_left_step(s.skip(1), k - 1);
        assert(s.skip(1).skip(k - 1) =~= s.skip(k));
    } else {
        assert(s.skip(0) =~= s);
    }
}

proof fn lemma_trim_right_step(s: Seq<u8>, k: int)
    requires
        0 <= k <= s.len(),
        forall|i: int| k <= i < s.len() ==> is_space(#[trigger] s[i]),
    ensures
        trim_right(s) == trim_right(s.take(k)),
    decreases s.len() - k,
{
    if k < s.len() {
        assert(is_space(s.last()));
        lemma_trim_right_step(s.drop_last(), k);
        assert(s.drop_last().take(k) =~= s.take(k));
    } else {
        assert(s.take(k) =~= s);
    }
}

/// Removes ASCII whitespace from both ends of `s`.
pub fn trim_ascii(s: &[u8]) -> (r: Vec<u8>)
    ensures
        r@ == trim_spec(s@),
{
    let mut lo: usize = 0;
    while lo < s.len() && (s[lo] == 32 || s[lo] == 9 || s[lo] == 10 || s[lo] == 11
        || s[lo] == 12 || s[lo] == 13)
        invariant
            0 <= lo <= s@.len(),
            forall|i: int| 0 <= i < lo ==> is_space(#[trigger] s@[i]),
        decreases s@.len() - lo,
    {
        lo = lo + 1;
    }
    proof {
        lemma_trim_left_step(s@, lo as int);
        if lo < s@.len() {
            assert(!is_space(s@.skip(lo as int)[0]));
        }
        assert(trim_left(s@) == s@.skip(lo as int));
    }
    let mut hi: usize = s.len();
    while hi > lo && (s[hi - 1] == 32 || s[hi - 1] == 9 || s[hi - 1] == 10 || s[hi - 1] == 11
        || s[hi - 1] == 12 || s[hi - 1] == 13)
        invariant
            lo <= hi <= s@.len(),
            forall|i: int| hi <= i < s@.len() ==> is_space(#[trigger] s@[i]),
        decreases hi,
    {
        hi = hi - 1;
    }
    proof {
        let t = s@.skip(lo as int);
        assert(forall|i: int|
            hi - lo <= i < t.len() ==> is_space(#[trigger] t[i]));
        lemma_trim_right_step(t, hi - lo);
        if hi > lo {
            assert(t.take(hi - lo).last() == s@[hi - 1]);
            assert(!is_space(t.take(hi - lo).last()));
        }
        assert(trim_right(t) == t.take(hi - lo));
        assert(t.take(hi - lo) =~= s@.subrange(lo as int, hi as int));
    }
    slice_to_vec(s, lo, hi)
}

/// Appends every byte of `s` to `out`.
pub fn append_bytes(out: &mut Vec<u8>, s: &[u8])
    ensures
        final(out)@ == old(out)@ + s@,
{
    let mut i: usize = 0;
    proof {
        assert(out@ =~= old(out)@ + s@.take(0));
    }
    while i < s.len()
        invariant
            0 <= i <= s@.len(),
            out@ == old(out)@ + s@.take(i as int),
        decreases s@.len() - i,
    {
        out.push(s[i]);
        assert(out@ =~= old(out)@ + s@.take(i + 1));
        i = i + 1;
    }
    assert(s@.take(i as int) =~= s@);
}

/// Whether a byte string is valid UTF-8.
pub uninterp spec fn utf8_ok(s: Seq<u8>) -> bool;

/// Relies on `std::str::from_utf8`: it accepts exactly the valid UTF-8 byte
/// strings.
#[verifier::external_body]
pub fn check_utf8(s: &[u8]) -> (r: bool)
    ensures
        r == utf8_ok(s@),
{
    std::str::from_utf8(s).is_ok()
}

/// Byte-for-byte equality of two slices.
pub fn bytes_eq(a: &[u8], b: &[u8]) -> (r: bool)
    ensures
        r == (a@ == b@),
{
    if a.len() != b.len() {
        assert(a@ != b@) by {
            assert(a@.len() != b@.len());
        }
        return false;
    }
    let mut i: usize = 0;
    while i < a.len()
        invariant
            0 <= i <= a@.len(),
            a@.len() == b@.len(),
            forall|k: int| 0 <= k < i ==> #[trigger] a@[k] == b@[k],
        decreases a@.len() - i,
    {
        if a[i] != b[i] {
            return false;
        }
        i = i + 1;
    }
    proof {
        assert(a@ =~= b@);
    }
    true
}

} // verus!
