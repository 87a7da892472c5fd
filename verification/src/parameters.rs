//! Reading a session's parameters: each parameter is a key with a value
//! written as text.

use vstd::prelude::*;
use vstd::string::StrSliceExecFns;

verus! {

/// The value of the first parameter whose key is `key`.
pub open spec fn parameter_value(params: Seq<(String, String)>, key: Seq<char>) -> Option<Seq<char>>
    decreases params.len(),
{
    if params.len() == 0 {
        None
    } else if params[0].0@ == key {
        Some(params[0].1@)
    } else {
        parameter_value(params.drop_first(), key)
    }
}

pub open spec fn is_digit(c: char) -> bool {
    '0' <= c && c <= '9'
}

/// The number that the decimal digits `s` write.
pub open spec fn digits_value(s: Seq<char>) -> nat
    decreases s.len(),
{
    if s.len() == 0 {
        0
    } else {
        digits_value(s.drop_last()) * 10 + ((s.last() as nat) - 48) as nat
    }
}

/// The text of an unsigned number without its optional leading `+`.
pub open spec fn unsigned_digits(s: Seq<char>) -> Seq<char> {
    if s.len() > 0 && s[0] == '+' {
        s.drop_first()
    } else {
        s
    }
}

/// An unsigned number as text: an optional `+` and at least one decimal
/// digit, whose value fits in a `usize`.
pub open spec fn parse_usize_text(s: Seq<char>) -> Option<usize> {
    let digits = unsigned_digits(s);
    if digits.len() > 0 && (forall|i: int| 0 <= i < digits.len() ==> is_digit(#[trigger] digits[i]))
        && digits_value(digits) <= usize::MAX {
        Some(digits_value(digits) as usize)
    } else {
        None
    }
}

/// A boolean as text: `true` or `false`.
pub open spec fn parse_bool_text(s: Seq<char>) -> Option<bool> {
    if s == "true"@ {
        Some(true)
    } else if s == "false"@ {
        Some(false)
    } else {
        None
    }
}

/// The value of the first parameter whose key is `key`.
pub fn find_parameter<'a>(params: &'a Vec<(String, String)>, key: &str) -> (r: Option<&'a String>)
    ensures
        match r {
            Some(v) => parameter_value(params@, key@) == Some(v@),
            None => parameter_value(params@, key@) is None,
        },
{
    let wanted = String::from_str(key);
    let n = params.len();
    assert(params@.skip(0) =~= params@);
    let mut i: usize = 0;
    while i < n
        invariant
            n == params@.len(),
            i <= n,
            wanted@ == key@,
            parameter_value(params@, key@) == parameter_value(params@.skip(i as int), key@),
        decreases n - i,
    {
        assert(params@.skip(i as int).drop_first() =~= params@.skip(i + 1));
        assert(params@.skip(i as int)[0] == params@[i as int]);
        if params[i].0 == wanted {
            return Some(&params[i].1);
        }
        i = i + 1;
    }
    None
}

/// Reads an unsigned number written as text (see `parse_usize_text`).
pub fn parse_usize(s: &str) -> (r: Option<usize>)
    ensures
        r == parse_usize_text(s@),
{
    let n = s.unicode_len();
    let mut start: usize = 0;
    if n > 0 && s.get_char(0) == '+' {
        start = 1;
    }
    let ghost digits = s@.skip(start as int);
    assert(digits == unsigned_digits(s@));
    if start >= n {
        return None;
    }
    // `value` is the value of the digits read so far, or usize::MAX + 1 once
    // it is larger.
    let mut value: u128 = 0;
    let mut i: usize = start;
    while i < n
        invariant
            n == s@.len(),
            start <= i <= n,
            digits == s@.skip(start as int),
            digits == unsigned_digits(s@),
            forall|k: int| 0 <= k < i - start ==> is_digit(#[trigger] digits[k]),
            value == if digits_value(digits.take(i - start)) <= usize::MAX {
                digits_value(digits.take(i - start)) as int
            } else {
                usize::MAX + 1
            },
        decreases n - i,
    {
        let c = s.get_char(i);
        assert(c == digits[i - start]);
        if !('0' <= c && c <= '9') {
            assert(!is_digit(digits[i - start]));
            return None;
        }
        let d: u128 = (c as u32 - 48) as u128;
        let ghost t = digits.take(i - start);
        let ghost t1 = digits.take(i - start + 1);
        assert(t1.drop_last() =~= t);
        assert(t1.last() == c);
        assert(digits_value(t1) == digits_value(t) * 10 + d);
        let m: u128 = usize::MAX as u128;
        if value > m {
            proof {
                assert(digits_value(t) * 10 + d > usize::MAX) by (nonlinear_arith)
                    requires
                        digits_value(t) > usize::MAX,
                        d >= 0,
                ;
            }
            value = m + 1;
        } else {
            let next = value * 10 + d;
            if next > m {
                value = m + 1;
            } else {
                value = next;
            }
        }
        i = i + 1;
    }
    assert(digits.take(n - start) =~= digits);
    if value > usize::MAX as u128 {
        None
    } else {
        Some(value as usize)
    }
}

/// Reads a boolean written as text (see `parse_bool_text`).
pub fn parse_bool(s: &String) -> (r: Option<bool>)
    ensures
        r == parse_bool_text(s@),
{
    let t = String::from_str("true");
    let f = String::from_str("false");
    if *s == t {
        Some(true)
    } else if *s == f {
        Some(false)
    } else {
        None
    }
}

} // verus!
