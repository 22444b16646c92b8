//! Raw endpoint specifiers: `[count:]name` tokens from the caller.

use vstd::prelude::*;
use crate::EngineError;

verus! {

/// How many colons the token holds.
pub open spec fn colon_count(s: Seq<char>) -> int
    decreases s.len(),
{
    if s.len() == 0 {
        0
    } else {
        colon_count(s.drop_last()) + if s.last() == ':' { 1int } else { 0int }
    }
}

/// A decimal digit.
pub open spec fn is_digit(c: char) -> bool {
    48 <= c as u32 <= 57
}

/// A non-empty, all-digit character sequence.
pub open spec fn is_digits(s: Seq<char>) -> bool {
    s.len() > 0 && forall|i: int| 0 <= i < s.len() ==> is_digit(#[trigger] s[i])
}

/// The number the digit sequence denotes.
pub open spec fn digits_value(s: Seq<char>) -> int
    decreases s.len(),
{
    if s.len() == 0 {
        0
    } else {
        digits_value(s.drop_last()) * 10 + (s.last() as u32 - 48)
    }
}

/// A colon anywhere means at least one colon in the count.
proof fn lemma_colon_count_pos(s: Seq<char>, p: int)
    requires
        0 <= p < s.len(),
        s[p] == ':',
    ensures
        colon_count(s) >= 1,
        colon_count(s) >= 0,
    decreases s.len(),
{
    lemma_colon_count_nonneg(s.drop_last());
    if p < s.len() - 1 {
        lemma_colon_count_pos(s.drop_last(), p);
    }
}

proof fn lemma_colon_count_nonneg(s: Seq<char>)
    ensures
        colon_count(s) >= 0,
    decreases s.len(),
{
    if s.len() > 0 {
        lemma_colon_count_nonneg(s.drop_last());
    }
}

/// Two colons at distinct places mean at least two in the count.
proof fn lemma_colon_two(s: Seq<char>, p1: int, p2: int)
    requires
        0 <= p1 < p2 < s.len(),
        s[p1] == ':',
        s[p2] == ':',
    ensures
        colon_count(s) >= 2,
    decreases s.len(),
{
    if p2 == s.len() - 1 {
        lemma_colon_count_pos(s.drop_last(), p1);
    } else {
        lemma_colon_two(s.drop_last(), p1, p2);
        lemma_colon_count_nonneg(s);
    }
}

/// Reading further digits never shrinks the value.
proof fn lemma_digits_prefix_le(s: Seq<char>, i: int)
    requires
        0 <= i <= s.len(),
        forall|j: int| 0 <= j < s.len() ==> is_digit(#[trigger] s[j]),
    ensures
        digits_value(s.take(i)) <= digits_value(s),
        digits_value(s.take(i)) >= 0,
    decreases s.len() - i,
{
    if i == s.len() {
        assert(s.take(i) =~= s);
        lemma_digits_nonneg(s);
    } else {
        assert(s.take(i + 1).drop_last() =~= s.take(i));
        assert(s.take(i + 1).last() == s[i]);
        lemma_digits_prefix_le(s, i + 1);
        lemma_digits_nonneg(s.take(i));
        assert(digits_value(s.take(i)) * 10 >= digits_value(s.take(i))) by (nonlinear_arith)
            requires digits_value(s.take(i)) >= 0;
    }
}

proof fn lemma_digits_nonneg(s: Seq<char>)
    requires
        forall|j: int| 0 <= j < s.len() ==> is_digit(#[trigger] s[j]),
    ensures
        digits_value(s) >= 0,
    decreases s.len(),
{
    if s.len() > 0 {
        assert(forall|j: int| 0 <= j < s.len() - 1 ==> #[trigger] s.drop_last()[j] == s[j]);
        lemma_digits_nonneg(s.drop_last());
        assert(digits_value(s.drop_last()) * 10 >= 0) by (nonlinear_arith)
            requires digits_value(s.drop_last()) >= 0;
    }
}

/// What one raw specifier means.  A token without a colon names one
/// device; `count:name` gives an explicit decimal count; anything
/// else — several colons, an empty or non-numeric count, or one too
/// large to hold — is malformed.
pub open spec fn split_ensures(cs: Seq<char>, r: Result<(u64, String), EngineError>) -> bool {
    &&& (colon_count(cs) == 0 ==> (match r {
        Ok((c, name)) => c == 1 && name@ == cs,
        Err(_) => false,
    }))
    &&& (colon_count(cs) == 1 ==> (forall|p: int| 0 <= p < cs.len() && cs[p] == ':' ==> {
        let cnt = cs.take(p);
        let nm = #[trigger] cs.skip(p + 1);
        if is_digits(cnt) && digits_value(cnt) <= u64::MAX {
            match r {
                Ok((c, name)) => c == digits_value(cnt) && name@ == nm,
                Err(_) => false,
            }
        } else {
            r matches Err(EngineError::InvalidSpecifier)
        }
    }))
    &&& (colon_count(cs) >= 2 ==> (r matches Err(EngineError::InvalidSpecifier)))
}

/// Splits a raw `[count:]name` token into the count (one when
/// omitted) and the device key.
pub fn split_antenna_arg(s: &str) -> (r: Result<(u64, String), EngineError>)
    ensures
        split_ensures(s@, r),
{
    let ghost cs = s@;
    let n = s.unicode_len();
    let mut colons: usize = 0;
    let mut pos: usize = 0;
    let mut i: usize = 0;
    proof {
        assert(cs.take(0) =~= Seq::<char>::empty());
    }
    while i < n
        invariant
            i <= n,
            n == cs.len(),
            cs == s@,
            colons <= i,
            colons == colon_count(cs.take(i as int)),
            colons >= 1 ==> pos < i && cs[pos as int] == ':',
        decreases n - i,
    {
        proof {
            assert(cs.take(i + 1).drop_last() =~= cs.take(i as int));
            assert(cs.take(i + 1).last() == cs[i as int]);
        }
        let c = s.get_char(i);
        if c == ':' {
            if colons == 0 {
                pos = i;
            }
            colons = colons + 1;
        }
        i = i + 1;
    }
    proof {
        assert(cs.take(n as int) =~= cs);
    }
    if colons == 0 {
        return Ok((1, s.to_owned()));
    }
    if colons >= 2 {
        return Err(EngineError::InvalidSpecifier);
    }
    // Exactly one colon, at `pos`: parse the count, take the name.
    let ghost cnt = cs.take(pos as int);
    proof {
        assert forall|p: int| #![trigger cs[p]] 0 <= p < cs.len() && cs[p] == ':' implies p == pos as int by {
            if p < pos as int {
                lemma_colon_two(cs, p, pos as int);
            } else if p > pos as int {
                lemma_colon_two(cs, pos as int, p);
            }
        }
    }
    if pos == 0 {
        return Err(EngineError::InvalidSpecifier);
    }
    let mut value: u64 = 0;
    let mut i: usize = 0;
    proof {
        assert(cs.take(pos as int).take(0) =~= Seq::<char>::empty());
    }
    while i < pos
        invariant
            i <= pos < n,
            n == cs.len(),
            cs == s@,
            colon_count(cs) == 1,
            cs[pos as int] == ':',
            pos >= 1,
            forall|p: int| #![trigger cs[p]] 0 <= p < cs.len() && cs[p] == ':' ==> p == pos as int,
            cnt == cs.take(pos as int),
            value == digits_value(cnt.take(i as int)),
            forall|j: int| 0 <= j < i ==> is_digit(#[trigger] cnt[j]),
        decreases pos - i,
    {
        proof {
            assert(cnt.take(i + 1).drop_last() =~= cnt.take(i as int));
            assert(cnt.take(i + 1).last() == cnt[i as int]);
            assert(cnt[i as int] == cs[i as int]);
        }
        let c = s.get_char(i);
        let code: u32 = c as u32;
        if code < 48 || code > 57 {
            proof {
                assert(!is_digit(cnt[i as int]));
            }
            return Err(EngineError::InvalidSpecifier);
        }
        let d: u64 = (code - 48) as u64;
        if value > (18_446_744_073_709_551_615u64 - d) / 10 {
            proof {
                vstd::arithmetic::div_mod::lemma_fundamental_div_mod(
                    18_446_744_073_709_551_615 - d as int, 10);
                assert(value * 10 + d > 18_446_744_073_709_551_615) by (nonlinear_arith)
                    requires
                        value as int >= (18_446_744_073_709_551_615 - d as int) / 10 + 1,
                        18_446_744_073_709_551_615 - d as int == 10 * ((18_446_744_073_709_551_615 - d as int) / 10)
                            + (18_446_744_073_709_551_615 - d as int) % 10,
                        0 <= (18_446_744_073_709_551_615 - d as int) % 10 < 10;
                if is_digits(cnt) {
                    lemma_digits_prefix_le(cnt, i + 1);
                }
            }
            return Err(EngineError::InvalidSpecifier);
        }
        proof {
            vstd::arithmetic::div_mod::lemma_fundamental_div_mod(
                18_446_744_073_709_551_615 - d as int, 10);
            assert(value * 10 + d <= 18_446_744_073_709_551_615) by (nonlinear_arith)
                requires
                    value as int <= (18_446_744_073_709_551_615 - d as int) / 10,
                    18_446_744_073_709_551_615 - d as int == 10 * ((18_446_744_073_709_551_615 - d as int) / 10)
                        + (18_446_744_073_709_551_615 - d as int) % 10,
                    0 <= (18_446_744_073_709_551_615 - d as int) % 10 < 10;
        }
        value = value * 10 + d;
        i = i + 1;
    }
    proof {
        assert(cnt.take(pos as int) =~= cnt);
        assert(is_digits(cnt));
    }
    let name = s.substring_char(pos + 1, n).to_owned();
    proof {
        assert(name@ == cs.skip(pos + 1));
    }
    Ok((value, name))
}

} // verus!
