use vstd::prelude::*;

use crate::report::parser::IntErrorKind;
use crate::text::chars_of;

verus! {

pub open spec fn is_digit(c: char) -> bool {
    '0' <= c && c <= '9'
}

/// The value of the first `n` chars of `s` read as an unsigned decimal `i64`,
/// or the first error met reading them from left to right.
pub open spec fn int_prefix_value(s: Seq<char>, n: nat) -> Result<int, IntErrorKind>
    decreases n,
{
    if n == 0 {
        Ok(0)
    } else {
        match int_prefix_value(s, (n - 1) as nat) {
            Err(e) => Err(e),
            Ok(v) => if !is_digit(s[n - 1]) {
                Err(IntErrorKind::InvalidDigit)
            } else if v * 10 + (s[n - 1] as int - '0' as int) > i64::MAX {
                Err(IntErrorKind::PosOverflow)
            } else {
                Ok(v * 10 + (s[n - 1] as int - '0' as int))
            },
        }
    }
}

/// What `str::parse::<i64>` gives for text without a sign.
pub open spec fn int_literal_value(s: Seq<char>) -> Result<int, IntErrorKind> {
    if s.len() == 0 {
        Err(IntErrorKind::Empty)
    } else {
        int_prefix_value(s, s.len())
    }
}

proof fn lemma_int_prefix_bounds(s: Seq<char>, n: nat)
    ensures
        int_prefix_value(s, n) matches Ok(v) ==> 0 <= v <= i64::MAX,
    decreases n,
{
    if n > 0 {
        lemma_int_prefix_bounds(s, (n - 1) as nat);
    }
}

/// Reads decimal digits (no sign) as an `i64`, as `str::parse::<i64>` does.
pub fn parse_int_literal(s: &str) -> (r: Result<i64, IntErrorKind>)
    ensures
        match int_literal_value(s@) {
            Ok(v) => r == Ok::<i64, IntErrorKind>(v as i64),
            Err(e) => r == Err::<i64, IntErrorKind>(e),
        },
        r matches Ok(v) ==> int_literal_value(s@) == Ok::<int, IntErrorKind>(v as int),
{
    let cs = chars_of(s);
    if cs.len() == 0 {
        return Err(IntErrorKind::Empty);
    }
    let mut v: i64 = 0;
    let mut i: usize = 0;
    while i < cs.len()
        invariant
            cs@ == s@,
            i <= cs@.len(),
            int_prefix_value(s@, i as nat) == Ok::<int, IntErrorKind>(v as int),
            0 <= v,
        decreases cs@.len() - i,
    {
        let c = cs[i];
        if !('0' <= c && c <= '9') {
            proof {
                lemma_prefix_error_stays(s@, (i + 1) as nat, s@.len());
            }
            return Err(IntErrorKind::InvalidDigit);
        }
        let d = (c as u32 - '0' as u32) as i64;
        if v > (i64::MAX - d) / 10 {
            proof {
                assert(v * 10 + d > i64::MAX) by (nonlinear_arith)
                    requires v > (i64::MAX - d) / 10, 0 <= d <= 9;
                lemma_prefix_error_stays(s@, (i + 1) as nat, s@.len());
            }
            return Err(IntErrorKind::PosOverflow);
        }
        proof {
            assert(v * 10 + d <= i64::MAX) by (nonlinear_arith)
                requires v <= (i64::MAX - d) / 10, 0 <= d <= 9;
        }
        v = v * 10 + d;
        i = i + 1;
    }
    Ok(v)
}

/// An error met in a prefix is the result for any longer prefix.
proof fn lemma_prefix_error_stays(s: Seq<char>, n: nat, m: nat)
    requires
        n <= m,
        int_prefix_value(s, n) is Err,
    ensures
        int_prefix_value(s, m) == int_prefix_value(s, n),
    decreases m - n,
{
    if n < m {
        lemma_prefix_error_stays(s, n, (m - 1) as nat);
    }
}

/// Whether `s` holds an underscore.
pub open spec fn has_underscore(s: Seq<char>) -> bool {
    exists|i: int| 0 <= i < s.len() && s[i] == '_'
}

/// Whether the float text `s` (digits, underscores and one `.`) is accepted
/// by `str::parse::<f64>`: it is when it holds no underscore.
pub fn float_literal_ok(s: &str) -> (r: bool)
    ensures
        r == !has_underscore(s@),
{
    let cs = chars_of(s);
    let mut i: usize = 0;
    while i < cs.len()
        invariant
            cs@ == s@,
            i <= cs@.len(),
            forall|k: int| 0 <= k < i ==> s@[k] != '_',
        decreases cs@.len() - i,
    {
        if cs[i] == '_' {
            return false;
        }
        i = i + 1;
    }
    true
}

} // verus!
