//! Decimal text: parsing unsigned integers from byte strings and rendering
//! them back.  Segment identifiers in the graph text are decimal, and every
//! numeric field of an output line is rendered in decimal.

use vstd::prelude::*;

verus! {

/// An ASCII decimal digit.
pub open spec fn is_dec_digit(b: u8) -> bool {
    48 <= b && b <= 57
}

/// Every byte of `s` is an ASCII decimal digit.
pub open spec fn all_dec_digits(s: Seq<u8>) -> bool {
    forall|i: int| 0 <= i < s.len() ==> is_dec_digit(#[trigger] s[i])
}

/// The integer a digit string denotes, most significant digit first.
pub open spec fn dec_val(s: Seq<u8>) -> int
    decreases s.len(),
{
    if s.len() == 0 {
        0
    } else {
        dec_val(s.drop_last()) * 10 + (s.last() - 48)
    }
}

/// The canonical digit string of `n`: no leading zeros except for `n == 0`.
pub open spec fn dec_digits(n: nat) -> Seq<u8>
    decreases n,
{
    if n < 10 {
        seq![(48 + n) as u8]
    } else {
        dec_digits(n / 10).push((48 + n % 10) as u8)
    }
}

pub proof fn lemma_dec_val_nonneg(s: Seq<u8>)
    requires
        all_dec_digits(s),
    ensures
        dec_val(s) >= 0,
    decreases s.len(),
{
    if s.len() > 0 {
        assert(all_dec_digits(s.drop_last()));
        lemma_dec_val_nonneg(s.drop_last());
    }
}

/// A digit prefix never denotes more than the whole string.
pub proof fn lemma_dec_val_take_le(s: Seq<u8>, i: int)
    requires
        all_dec_digits(s),
        0 <= i <= s.len(),
    ensures
        dec_val(s.take(i)) <= dec_val(s),
    decreases s.len() - i,
{
    if i < s.len() {
        lemma_dec_val_take_le(s, i + 1);
        assert(s.take(i + 1).drop_last() =~= s.take(i));
        assert(all_dec_digits(s.take(i)));
        lemma_dec_val_nonneg(s.take(i));
        assert(dec_val(s.take(i + 1)) == dec_val(s.take(i)) * 10 + (s[i] - 48));
        assert(dec_val(s.take(i)) * 10 >= dec_val(s.take(i)));
    } else {
        assert(s.take(i) =~= s);
    }
}

/// Parses a byte string as an unsigned decimal integer.  Returns `None` on
/// an empty string, a non-digit byte, or a value that does not fit in `u64`.
pub fn parse_dec(s: &[u8]) -> (r: Option<u64>)
    ensures
        r is Some <==> (s@.len() > 0 && all_dec_digits(s@) && dec_val(s@) <= u64::MAX),
        r matches Some(v) ==> v as int == dec_val(s@),
{
    if s.len() == 0 {
        return None;
    }
    let mut acc: u64 = 0;
    let mut i: usize = 0;
    while i < s.len()
        invariant
            0 <= i <= s@.len(),
            all_dec_digits(s@.take(i as int)),
            acc as int == dec_val(s@.take(i as int)),
        decreases s@.len() - i,
    {
        let b = s[i];
        if b < 48 || b > 57 {
            assert(!is_dec_digit(s@[i as int]));
            return None;
        }
        let d: u64 = (b - 48) as u64;
        assert(s@.take(i + 1).drop_last() =~= s@.take(i as int));
        assert(dec_val(s@.take(i + 1)) == acc * 10 + d);
        if acc > (u64::MAX - d) / 10 {
            proof {
                assert(all_dec_digits(s@.take(i + 1)));
                // acc * 10 + d > u64::MAX, hence the prefix already overflows
                let m = (u64::MAX - d) as int;
                assert(m == (m / 10) * 10 + m % 10) by {
                    vstd::arithmetic::div_mod::lemma_fundamental_div_mod(m, 10);
                }
                assert(m % 10 < 10) by {
                    vstd::arithmetic::div_mod::lemma_mod_bound(m, 10);
                }
                assert(acc as int >= m / 10 + 1);
                assert((m / 10 + 1) * 10 == (m / 10) * 10 + 10) by (nonlinear_arith);
                assert(acc as int * 10 >= (m / 10 + 1) * 10) by (nonlinear_arith)
                    requires
                        acc as int >= m / 10 + 1,
                ;
                assert(acc as int * 10 > m);
                assert(dec_val(s@.take(i + 1)) > u64::MAX);
                if all_dec_digits(s@) {
                    lemma_dec_val_take_le(s@, i + 1);
                    assert(dec_val(s@) > u64::MAX);
                }
            }
            return None;
        }
        proof {
            let m = (u64::MAX - d) as int;
            assert(acc as int <= m / 10);
            assert((m / 10) * 10 <= m) by {
                vstd::arithmetic::div_mod::lemma_fundamental_div_mod(m, 10);
                vstd::arithmetic::div_mod::lemma_mod_bound(m, 10);
            }
            assert(acc as int * 10 <= (m / 10) * 10) by (nonlinear_arith)
                requires
                    acc as int <= m / 10,
            ;
            assert(acc as int * 10 + d <= u64::MAX);
        }
        acc = acc * 10 + d;
        i = i + 1;
    }
    assert(s@.take(i as int) =~= s@);
    Some(acc)
}

/// Renders `n` as its canonical decimal digit string.
pub fn format_dec(n: u64) -> (r: Vec<u8>)
    ensures
        r@ == dec_digits(n as nat),
    decreases n,
{
    if n < 10 {
        let mut v: Vec<u8> = Vec::new();
        v.push((48 + n) as u8);
        assert(v@ =~= dec_digits(n as nat));
        v
    } else {
        let mut v = format_dec(n / 10);
        v.push((48 + n % 10) as u8);
        assert(v@ =~= dec_digits(n as nat));
        v
    }
}

} // verus!
