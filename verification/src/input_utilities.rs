//! Parsing of terminal responses: the checked, pure decisions behind the
//! interactive prompts (which themselves live outside the library).

use vstd::prelude::*;
use vstd::string::StrSliceExecFns;

verus! {

/// Whether the character is an ASCII decimal digit.
pub open spec fn is_digit(c: char) -> bool {
    0x30 <= c as u32 && c as u32 <= 0x39
}

/// The numerical value of an ASCII decimal digit.
pub open spec fn digit_val(c: char) -> int {
    c as u32 - 0x30
}

/// Whether every character of the text is an ASCII decimal digit.
pub open spec fn all_digits(s: Seq<char>) -> bool {
    forall|i: int| 0 <= i < s.len() ==> is_digit(#[trigger] s[i])
}

/// The value of a string of decimal digits, most significant first.
pub open spec fn digits_val(s: Seq<char>) -> int
    decreases s.len(),
{
    if s.len() == 0 {
        0
    } else {
        digits_val(s.drop_last()) * 10 + digit_val(s.last())
    }
}

/// The text with a single leading sign character removed.
pub open spec fn int_text(s: Seq<char>) -> Seq<char> {
    if s.len() > 0 && (s[0] == '+' || s[0] == '-') {
        s.drop_first()
    } else {
        s
    }
}

/// The sign the text denotes: negative exactly under a leading minus.
pub open spec fn int_sign(s: Seq<char>) -> int {
    if s.len() > 0 && s[0] == '-' {
        -1
    } else {
        1
    }
}

/// Whether the text is an optional sign followed by one or more digits.
pub open spec fn is_int_string(s: Seq<char>) -> bool {
    int_text(s).len() > 0 && all_digits(int_text(s))
}

/// The integer the text denotes.
pub open spec fn int_value(s: Seq<char>) -> int {
    int_sign(s) * digits_val(int_text(s))
}

/// What parsing the text as an `i64` yields: its value when the text is an
/// optional sign followed by digits and the value fits, nothing otherwise.
pub open spec fn parse_i64_spec(s: Seq<char>) -> Option<i64> {
    if is_int_string(s) && i64::MIN <= int_value(s) <= i64::MAX {
        Some(int_value(s) as i64)
    } else {
        None
    }
}

/// The value of a digit string is never negative, and appending digits never
/// decreases it.
proof fn lemma_digits_val_prefix(s: Seq<char>, n: int)
    requires
        all_digits(s),
        0 <= n <= s.len(),
    ensures
        0 <= digits_val(s.take(n)) <= digits_val(s),
    decreases s.len(),
{
    if s.len() == 0 {
        assert(s.take(n) =~= s);
    } else {
        assert(all_digits(s.drop_last()));
        lemma_digits_val_prefix(s.drop_last(), if n < s.len() {
            n
        } else {
            s.len() - 1
        });
        if n < s.len() {
            assert(s.drop_last().take(n) =~= s.take(n));
        } else {
            assert(s.take(n) =~= s);
            assert(s.drop_last().take(s.len() - 1) =~= s.drop_last());
        }
    }
}

/// Parse the string as a decimal integer: an optional sign followed by one
/// or more ASCII digits, rejected when the value does not fit in an `i64`.
pub fn parse_i64(s: &str) -> (r: Option<i64>)
    ensures
        r == parse_i64_spec(s@),
{
    let len = s.unicode_len();
    let mut start: usize = 0;
    let mut neg = false;
    if len > 0 {
        let c0 = s.get_char(0);
        if c0 == '+' {
            start = 1;
        } else if c0 == '-' {
            neg = true;
            start = 1;
        }
    }
    let ghost body = int_text(s@);
    proof {
        assert(body =~= s@.subrange(start as int, len as int));
    }
    if start == len {
        return None;
    }
    let bound: u64 = if neg {
        9223372036854775808
    } else {
        9223372036854775807
    };
    let mut acc: u64 = 0;
    let mut j: usize = start;
    proof {
        assert(body.take(0) =~= Seq::<char>::empty());
    }
    while j < len
        invariant
            start <= j <= len,
            start < len,
            len == s@.len(),
            body == int_text(s@),
            body =~= s@.subrange(start as int, len as int),
            int_sign(s@) == if neg {
                -1int
            } else {
                1int
            },
            bound == if neg {
                9223372036854775808u64
            } else {
                9223372036854775807u64
            },
            all_digits(body.take(j - start)),
            acc as int == digits_val(body.take(j - start)),
            acc <= bound,
        decreases len - j,
    {
        let c = s.get_char(j);
        let cv = c as u32;
        if cv < 48 || cv > 57 {
            proof {
                assert(body[j - start] == s@[j as int]);
                assert(!all_digits(body));
            }
            return None;
        }
        let d = (cv - 48) as u64;
        proof {
            assert(body[j - start] == s@[j as int]);
            assert(body.take(j - start + 1).drop_last() =~= body.take(j - start));
            assert(body.take(j - start + 1).last() == s@[j as int]);
            assert(digits_val(body.take(j - start + 1)) == acc * 10 + d);
            assert(all_digits(body.take(j - start + 1)));
        }
        let over = if neg {
            acc > 922337203685477580 || (acc == 922337203685477580 && d > 8)
        } else {
            acc > 922337203685477580 || (acc == 922337203685477580 && d > 7)
        };
        if over {
            proof {
                assert(acc * 10 + d > bound);
                if is_int_string(s@) {
                    lemma_digits_val_prefix(body, j - start + 1);
                    assert(digits_val(body) > bound);
                }
            }
            return None;
        }
        acc = acc * 10 + d;
        j = j + 1;
    }
    proof {
        assert(body.take(len - start) =~= body);
        assert(is_int_string(s@));
        assert(digits_val(body) == acc);
    }
    if neg {
        if acc == 9223372036854775808 {
            Some(i64::MIN)
        } else {
            Some(-(acc as i64))
        }
    } else {
        Some(acc as i64)
    }
}

/// How a typed response relates to a requested integer range.
#[derive(Debug, PartialEq, Eq, Structural)]
pub enum RangeCheck {
    /// The response denotes an integer within the range.
    InRange(i64),
    /// The response denotes an integer, but one outside the range.
    OutOfRange,
    /// The response does not denote an integer at all.
    Invalid,
}

/// Decide a ranged numeric response: the parsed value when it lies within
/// `min..=max`, and otherwise which of the two ways it failed.
pub fn parse_i64_in_range(s: &str, min: i64, max: i64) -> (r: RangeCheck)
    ensures
        match r {
            RangeCheck::InRange(v) => parse_i64_spec(s@) == Some(v) && min <= v <= max,
            RangeCheck::OutOfRange => parse_i64_spec(s@) matches Some(v) && !(min <= v <= max),
            RangeCheck::Invalid => parse_i64_spec(s@) is None,
        },
{
    match parse_i64(s) {
        None => RangeCheck::Invalid,
        Some(v) => if min <= v && v <= max {
            RangeCheck::InRange(v)
        } else {
            RangeCheck::OutOfRange
        },
    }
}

/// Whether the text affirms, in any letter case: yes, y, true or t.
pub open spec fn is_yes_response(s: Seq<char>) -> bool {
    ||| (s.len() == 1 && (s[0] == 'y' || s[0] == 'Y'))
    ||| (s.len() == 3 && (s[0] == 'y' || s[0] == 'Y') && (s[1] == 'e' || s[1] == 'E') && (s[2]
        == 's' || s[2] == 'S'))
    ||| (s.len() == 1 && (s[0] == 't' || s[0] == 'T'))
    ||| (s.len() == 4 && (s[0] == 't' || s[0] == 'T') && (s[1] == 'r' || s[1] == 'R') && (s[2]
        == 'u' || s[2] == 'U') && (s[3] == 'e' || s[3] == 'E'))
}

/// Whether the text denies, in any letter case: no, n, false or f.
pub open spec fn is_no_response(s: Seq<char>) -> bool {
    ||| (s.len() == 1 && (s[0] == 'n' || s[0] == 'N'))
    ||| (s.len() == 2 && (s[0] == 'n' || s[0] == 'N') && (s[1] == 'o' || s[1] == 'O'))
    ||| (s.len() == 1 && (s[0] == 'f' || s[0] == 'F'))
    ||| (s.len() == 5 && (s[0] == 'f' || s[0] == 'F') && (s[1] == 'a' || s[1] == 'A') && (s[2]
        == 'l' || s[2] == 'L') && (s[3] == 's' || s[3] == 'S') && (s[4] == 'e' || s[4] == 'E'))
}

/// Classify a yes-or-no response, accepting several forms of affirmation and
/// denial in any letter case; anything else yields nothing, so that a prompt
/// may ask again.
pub fn bool_from_response(s: &str) -> (r: Option<bool>)
    ensures
        r == if is_yes_response(s@) {
            Some(true)
        } else if is_no_response(s@) {
            Some(false)
        } else {
            None::<bool>
        },
{
    let len = s.unicode_len();
    if len == 0 || len > 5 {
        return None;
    }
    let c0 = s.get_char(0);
    if c0 == 'y' || c0 == 'Y' {
        if len == 1 {
            return Some(true);
        }
        if len == 3 {
            let c1 = s.get_char(1);
            let c2 = s.get_char(2);
            if (c1 == 'e' || c1 == 'E') && (c2 == 's' || c2 == 'S') {
                return Some(true);
            }
        }
        return None;
    }
    if c0 == 't' || c0 == 'T' {
        if len == 1 {
            return Some(true);
        }
        if len == 4 {
            let c1 = s.get_char(1);
            let c2 = s.get_char(2);
            let c3 = s.get_char(3);
            if (c1 == 'r' || c1 == 'R') && (c2 == 'u' || c2 == 'U') && (c3 == 'e' || c3 == 'E') {
                return Some(true);
            }
        }
        return None;
    }
    if c0 == 'n' || c0 == 'N' {
        if len == 1 {
            return Some(false);
        }
        if len == 2 {
            let c1 = s.get_char(1);
            if c1 == 'o' || c1 == 'O' {
                return Some(false);
            }
        }
        return None;
    }
    if c0 == 'f' || c0 == 'F' {
        if len == 1 {
            return Some(false);
        }
        if len == 5 {
            let c1 = s.get_char(1);
            let c2 = s.get_char(2);
            let c3 = s.get_char(3);
            let c4 = s.get_char(4);
            if (c1 == 'a' || c1 == 'A') && (c2 == 'l' || c2 == 'L') && (c3 == 's' || c3 == 'S') && (
            c4 == 'e' || c4 == 'E') {
                return Some(false);
            }
        }
        return None;
    }
    None
}

/// The first character of a string, or nothing when the string is empty.
pub fn first_char(s: &str) -> (r: Option<char>)
    ensures
        r == if s@.len() == 0 {
            None::<char>
        } else {
            Some(s@[0])
        },
{
    if s.unicode_len() == 0 {
        None
    } else {
        Some(s.get_char(0))
    }
}

} // verus!
