//! Validation of command-line values.

use vstd::prelude::*;
use vstd::string::*;
use crate::text::chars_of;

verus! {

/// Whether `c` is one of the ten decimal digits.
pub open spec fn is_digit(c: char) -> bool {
    '0' <= c && c <= '9'
}

/// The number that the decimal digit `c` stands for.
pub open spec fn digit_value(c: char) -> nat {
    (c as u32 - '0' as u32) as nat
}

/// Whether `s` consists of decimal digits only.
pub open spec fn all_digits(s: Seq<char>) -> bool {
    forall|i: int| 0 <= i < s.len() ==> is_digit(#[trigger] s[i])
}

/// The number that the decimal digits `s` stand for.
pub open spec fn decimal_value(s: Seq<char>) -> nat
    decreases s.len(),
{
    if s.len() == 0 {
        0
    } else {
        decimal_value(s.drop_last()) * 10 + digit_value(s.last())
    }
}

/// `s` without the one `+` that may stand before its digits.
pub open spec fn unsigned_digits(s: Seq<char>) -> Seq<char> {
    if s.len() > 1 && s[0] == '+' {
        s.skip(1)
    } else {
        s
    }
}

/// The number that `s` denotes: an optional `+` and then one or more decimal
/// digits, with nothing before, between or after.
pub open spec fn unsigned_value(s: Seq<char>) -> Option<nat> {
    let digits = unsigned_digits(s);
    if digits.len() > 0 && all_digits(digits) {
        Some(decimal_value(digits))
    } else {
        None
    }
}

/// The complaint about a concurrency that is no number a machine word holds.
pub open spec fn invalid_concurrency(value: Seq<char>) -> Seq<char> {
    "invalid value '"@ + value + "': expected a positive integer"@
}

/// The digits read so far never stand for more than all of them do.
pub proof fn lemma_decimal_prefix(s: Seq<char>, k: int)
    requires
        0 <= k <= s.len(),
    ensures
        decimal_value(s.take(k)) <= decimal_value(s),
    decreases s.len() - k,
{
    if k == s.len() {
        assert(s.take(k) =~= s);
    } else {
        lemma_decimal_prefix(s.drop_last(), k);
        assert(s.drop_last().take(k) =~= s.take(k));
    }
}

fn invalid(value: &str) -> (res: Result<usize, String>)
    ensures
        res is Err,
        res->Err_0@ == invalid_concurrency(value@),
{
    let mut message = String::from_str("invalid value '");
    message.append(value);
    message.append("': expected a positive integer");
    Err(message)
}

/// Reads the number of tasks that may run at once.
///
/// The value is an optional `+` followed by decimal digits, fits a machine
/// word, and is at least 1.
pub fn parse_concurrency(value: &str) -> (res: Result<usize, String>)
    ensures
        match unsigned_value(value@) {
            Some(n) => if n == 0 {
                res is Err && res->Err_0@ == "concurrency must be at least 1"@
            } else if n <= usize::MAX {
                res == Ok::<usize, String>(n as usize)
            } else {
                res is Err && res->Err_0@ == invalid_concurrency(value@)
            },
            None => res is Err && res->Err_0@ == invalid_concurrency(value@),
        },
{
    let chars = chars_of(value);
    let n = chars.len();
    let start: usize = if n > 1 && chars[0] == '+' {
        1
    } else {
        0
    };
    let ghost digits = unsigned_digits(value@);
    assert(digits =~= chars@.subrange(start as int, n as int));
    if start == n {
        return invalid(value);
    }
    let mut parsed: usize = 0;
    let mut i: usize = start;
    assert(digits.take(0) =~= Seq::<char>::empty());
    while i < n
        invariant
            start <= i <= n,
            n == chars.len(),
            digits == chars@.subrange(start as int, n as int),
            digits == unsigned_digits(value@),
            all_digits(digits.take(i - start)),
            parsed == decimal_value(digits.take(i - start)),
        decreases n - i,
    {
        let c = chars[i];
        let ghost read = digits.take(i - start);
        let ghost next = digits.take(i - start + 1);
        assert(digits[i - start] == c);
        assert(next.drop_last() =~= read);
        assert(next.last() == c);
        if !('0' <= c && c <= '9') {
            assert(!is_digit(digits[i - start]));
            return invalid(value);
        }
        assert(all_digits(next)) by {
            assert forall|j: int| 0 <= j < next.len() implies is_digit(#[trigger] next[j]) by {
                if j < read.len() {
                    assert(read[j] == next[j]);
                }
            }
        }
        let d: usize = (c as u32 - '0' as u32) as usize;
        proof {
            lemma_decimal_prefix(digits, i - start + 1);
        }
        let scaled = match parsed.checked_mul(10) {
            Some(x) => x,
            None => {
                return invalid(value);
            },
        };
        parsed = match scaled.checked_add(d) {
            Some(x) => x,
            None => {
                return invalid(value);
            },
        };
        i = i + 1;
    }
    assert(digits.take(n - start) =~= digits);
    if parsed == 0 {
        return Err(String::from_str("concurrency must be at least 1"));
    }
    Ok(parsed)
}

} // verus!
