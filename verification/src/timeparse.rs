//! Decimal parsing for the epoch-second timestamps that every series stores
//! as text.
//!
//! Timestamps are kept as decimal text end to end (never binary floats), so
//! the one numeric operation the core needs is reading an unsigned decimal
//! string. `dec_val` is the mathematical value of a digit string and the sole
//! meaning the rest of the crate assigns to a stored time.

use vstd::prelude::*;

verus! {

/// `c` is one of the ten decimal digits.
pub open spec fn is_dec_digit(c: char) -> bool {
    48 <= c as u32 <= 57
}

/// Every character of `s` is a decimal digit.
pub open spec fn all_digits(s: Seq<char>) -> bool {
    forall|i: int| 0 <= i < s.len() ==> is_dec_digit(#[trigger] s[i])
}

/// Value of `s` read as a base-ten numeral (most significant digit first).
pub open spec fn dec_val(s: Seq<char>) -> int
    decreases s.len(),
{
    if s.len() == 0 {
        0
    } else {
        dec_val(s.drop_last()) * 10 + (s.last() as u32 - 48)
    }
}

/// `s` is a non-empty digit string whose value fits in a `u64`: exactly the
/// strings `parse_u64` accepts.
pub open spec fn parses_to_u64(s: Seq<char>) -> bool {
    s.len() > 0 && all_digits(s) && dec_val(s) <= u64::MAX
}

/// The value of a digit string is never negative.
pub proof fn lemma_dec_val_nonneg(s: Seq<char>)
    requires
        all_digits(s),
    ensures
        dec_val(s) >= 0,
    decreases s.len(),
{
    if s.len() > 0 {
        assert(all_digits(s.drop_last())) by {
            assert(forall|i: int|
                0 <= i < s.len() - 1 ==> s.drop_last()[i] == #[trigger] s[i]);
        }
        lemma_dec_val_nonneg(s.drop_last());
    }
}

/// Extending a digit string on the right can only increase its value.
pub proof fn lemma_dec_val_prefix_le(s: Seq<char>, j: int)
    requires
        all_digits(s),
        0 <= j <= s.len(),
    ensures
        dec_val(s.take(j)) <= dec_val(s),
    decreases s.len() - j,
{
    if j < s.len() {
        let t = s.take(j + 1);
        assert(t.drop_last() =~= s.take(j));
        assert(all_digits(s.take(j))) by {
            assert(forall|i: int| 0 <= i < j ==> s.take(j)[i] == #[trigger] s[i]);
        }
        lemma_dec_val_nonneg(s.take(j));
        assert(dec_val(t) == dec_val(s.take(j)) * 10 + (s[j] as u32 - 48));
        assert(dec_val(s.take(j)) <= dec_val(s.take(j)) * 10) by (nonlinear_arith)
            requires dec_val(s.take(j)) >= 0;
        lemma_dec_val_prefix_le(s, j + 1);
    } else {
        assert(s.take(j) =~= s);
    }
}

/// Parse a non-empty decimal string into a `u64`.
///
/// Returns `Some(v)` exactly when `s` is a non-empty string of decimal
/// digits whose value fits in a `u64`; `v` is then that value. Anything
/// else (empty, a sign, other characters, overflow) yields `None`.
pub fn parse_u64(s: &str) -> (r: Option<u64>)
    ensures
        match r {
            Some(v) => parses_to_u64(s@) && v == dec_val(s@),
            None => !parses_to_u64(s@),
        },
{
    let n = s.unicode_len();
    if n == 0 {
        return None;
    }
    let mut acc: u64 = 0;
    let mut i: usize = 0;
    while i < n
        invariant
            0 <= i <= n,
            n == s@.len(),
            all_digits(s@.take(i as int)),
            acc == dec_val(s@.take(i as int)),
        decreases n - i,
    {
        let c = s.get_char(i);
        let d = c as u32;
        if d < 48 || d > 57 {
            assert(!all_digits(s@)) by {
                assert(s@[i as int] == c);
            }
            return None;
        }
        let dd: u64 = (d - 48) as u64;
        proof {
            assert(s@.take(i + 1).drop_last() =~= s@.take(i as int));
            assert(s@.take(i + 1).last() == s@[i as int]);
            assert(forall|k: int|
                0 <= k < i + 1 ==> s@.take(i + 1)[k] == #[trigger] s@[k]);
        }
        if acc > (u64::MAX - dd) / 10 {
            // The prefix up to and including this digit already exceeds
            // u64::MAX, so the whole string cannot fit.
            proof {
                let limit = (u64::MAX - dd) as int;
                assert((limit / 10) * 10 + 9 < limit + 10) by (nonlinear_arith);
                assert(acc * 10 >= (limit / 10) * 10 + 10) by (nonlinear_arith)
                    requires acc as int > limit / 10;
                assert(dec_val(s@.take(i + 1)) > u64::MAX);
                if all_digits(s@) {
                    lemma_dec_val_prefix_le(s@, i + 1);
                }
            }
            return None;
        }
        proof {
            assert(acc * 10 <= ((u64::MAX - dd) / 10) * 10) by (nonlinear_arith)
                requires acc <= (u64::MAX - dd) / 10;
            assert(((u64::MAX - dd) / 10) * 10 <= (u64::MAX - dd) as int) by (nonlinear_arith);
        }
        acc = acc * 10 + dd;
        i = i + 1;
    }
    proof {
        assert(s@.take(n as int) =~= s@);
    }
    Some(acc)
}

} // verus!
