//! Parsing the unsigned decimal integers the exchange wire formats quote
//! as strings (update ids and timestamps), proved against the value of a
//! digit string.
use vstd::prelude::*;

use crate::error::ObaggError;

verus! {

/// The character is a decimal digit.
pub open spec fn is_digit(c: char) -> bool {
    48 <= c as int <= 57
}

/// Every character of the sequence is a decimal digit.
pub open spec fn all_digits(s: Seq<char>) -> bool {
    forall|i: int| 0 <= i < s.len() ==> is_digit(#[trigger] s[i])
}

/// The number a digit string denotes, most significant digit first.
pub open spec fn digits_value(s: Seq<char>) -> int
    decreases s.len(),
{
    if s.len() == 0 {
        0
    } else {
        digits_value(s.drop_last()) * 10 + (s.last() as int - 48)
    }
}

/// A digit string denotes a non-negative number.
pub proof fn lemma_digits_value_nonneg(s: Seq<char>)
    requires
        all_digits(s),
    ensures
        digits_value(s) >= 0,
    decreases s.len(),
{
    if s.len() > 0 {
        let dl = s.drop_last();
        assert(all_digits(dl)) by {
            assert(forall|i: int| 0 <= i < dl.len() ==> #[trigger] dl[i] == s[i]);
        }
        lemma_digits_value_nonneg(dl);
    }
}

/// A prefix of a digit string never denotes more than the whole string.
pub proof fn lemma_digits_prefix(s: Seq<char>, i: int)
    requires
        all_digits(s),
        0 <= i <= s.len(),
    ensures
        digits_value(s.take(i)) <= digits_value(s),
    decreases s.len(),
{
    if i == s.len() {
        assert(s.take(i) =~= s);
    } else {
        let dl = s.drop_last();
        assert(all_digits(dl)) by {
            assert(forall|q: int| 0 <= q < dl.len() ==> #[trigger] dl[q] == s[q]);
        }
        assert(s.take(i) =~= dl.take(i));
        lemma_digits_prefix(dl, i);
        lemma_digits_value_nonneg(dl);
        assert(digits_value(s) == digits_value(dl) * 10 + (s.last() as int - 48));
    }
}

/// Parses a non-empty decimal digit string to its value, refusing any
/// other string and any value over `max`: `Ok` exactly when the whole
/// string is digits and its value fits.
fn parse_digits(s: &str, max: u64) -> (r: Result<u64, ObaggError>)
    ensures
        r is Ok <==> (s@.len() > 0 && all_digits(s@) && digits_value(s@) <= max as int),
        r matches Ok(v) ==> v as int == digits_value(s@),
{
    let n = s.unicode_len();
    if n == 0 {
        return Err(ObaggError("empty numeric string".to_owned()));
    }
    let mut acc: u64 = 0;
    let mut k: usize = 0;
    proof {
        assert(s@.take(0) =~= Seq::<char>::empty());
    }
    while k < n
        invariant
            k <= n,
            n == s@.len(),
            forall|q: int| 0 <= q < k ==> is_digit(#[trigger] s@[q]),
            acc as int == digits_value(s@.take(k as int)),
            acc <= max,
        decreases n - k,
    {
        let c = s.get_char(k);
        let d = c as u32;
        proof {
            assert(s@.take(k as int + 1).drop_last() =~= s@.take(k as int));
            assert(s@.take(k as int + 1).last() == s@[k as int]);
        }
        if d < 48 || d > 57 {
            return Err(ObaggError("invalid digit".to_owned()));
        }
        let wide: u128 = acc as u128 * 10 + (d - 48) as u128;
        if wide > max as u128 {
            proof {
                if all_digits(s@) && digits_value(s@) <= max as int {
                    lemma_digits_prefix(s@, k as int + 1);
                }
            }
            return Err(ObaggError("numeric value out of range".to_owned()));
        }
        acc = wide as u64;
        k += 1;
    }
    proof {
        assert(s@.take(n as int) =~= s@);
    }
    Ok(acc)
}

/// Parses the decimal digit string `s` as a `u32`: `Ok` with its value
/// exactly when `s` is non-empty, all digits, and in range.
pub fn u32_from_str(s: &str) -> (r: Result<u32, ObaggError>)
    ensures
        r is Ok <==> (s@.len() > 0 && all_digits(s@) && digits_value(s@) <= u32::MAX as int),
        r matches Ok(v) ==> v as int == digits_value(s@),
{
    match parse_digits(s, 0xffff_ffff) {
        Ok(v) => Ok(v as u32),
        Err(e) => Err(e),
    }
}

/// Parses the decimal digit string `s` as a `u64`: `Ok` with its value
/// exactly when `s` is non-empty, all digits, and in range.
pub fn u64_from_str(s: &str) -> (r: Result<u64, ObaggError>)
    ensures
        r is Ok <==> (s@.len() > 0 && all_digits(s@) && digits_value(s@) <= u64::MAX as int),
        r matches Ok(v) ==> v as int == digits_value(s@),
{
    parse_digits(s, u64::MAX)
}

} // verus!
