//! Reading unsigned decimal numerals.

use vstd::prelude::*;

verus! {

/// `c` is one of the ASCII digits `0`..`9`.
pub open spec fn is_ascii_digit(c: char) -> bool {
    '0' <= c && c <= '9'
}

/// `s` is a non-empty run of ASCII digits.
pub open spec fn is_decimal(s: Seq<char>) -> bool {
    s.len() > 0 && forall|i: int| 0 <= i < s.len() ==> is_ascii_digit(#[trigger] s[i])
}

/// The value of the ASCII digits of `s`, read in base ten.
pub open spec fn decimal_value(s: Seq<char>) -> int
    decreases s.len(),
{
    if s.len() == 0 {
        0
    } else {
        decimal_value(s.drop_last()) * 10 + (s.last() as int - '0' as int)
    }
}

/// The value of the numeral `s` when it is one and does not exceed `limit`.
pub open spec fn decimal_within(s: Seq<char>, limit: int) -> Option<int> {
    if is_decimal(s) && decimal_value(s) <= limit {
        Some(decimal_value(s))
    } else {
        None
    }
}

/// Reads `s` as a base-ten numeral of ASCII digits no greater than `limit`.
pub fn parse_decimal(s: &str, limit: u64) -> (r: Option<u64>)
    ensures
        match r {
            Some(v) => decimal_within(s@, limit as int) == Some(v as int),
            None => decimal_within(s@, limit as int) is None,
        },
{
    let mut v: u64 = 0;
    let mut over = false;
    let mut seen = false;
    for c in it: s.chars()
        invariant
            it.seq() == s@,
            seen == (it.index() > 0),
            forall|i: int| 0 <= i < it.index() ==> is_ascii_digit(#[trigger] s@[i]),
            !over ==> v == decimal_value(s@.take(it.index() as int)) && v <= limit,
            over ==> decimal_value(s@.take(it.index() as int)) > limit,
    {
        let ghost n = it.index() as int;
        if !('0' <= c && c <= '9') {
            proof {
                assert(!is_ascii_digit(s@[n]));
            }
            return None;
        }
        let d = (c as u32 - '0' as u32) as u64;
        proof {
            assert(s@.take(n + 1).drop_last() =~= s@.take(n));
            assert(s@.take(n + 1).last() == c);
        }
        if !over {
            let w: u128 = v as u128 * 10 + d as u128;
            if w > limit as u128 {
                over = true;
            } else {
                v = w as u64;
            }
        } else {
            let ghost w = decimal_value(s@.take(n));
            assert(w * 10 + d > limit) by (nonlinear_arith)
                requires
                    w > limit,
                    d >= 0,
                    limit >= 0,
            ;
        }
        seen = true;
    }
    proof {
        assert(s@.take(s@.len() as int) =~= s@);
    }
    if !seen || over {
        None
    } else {
        Some(v)
    }
}

} // verus!
