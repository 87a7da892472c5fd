//! Text formatting used by the report: decimal numbers, digit grouping and
//! HTML text escaping.

use vstd::prelude::*;
use thousands::Separable;

verus! {

/// The ASCII character of a decimal digit `d` (`d < 10`).
pub open spec fn digit_char(d: nat) -> char {
    (48 + d) as char
}

/// The decimal representation of `n`, most significant digit first, without
/// leading zeros (`0` is written as a single `0`).
pub open spec fn decimal(n: nat) -> Seq<char>
    decreases n,
{
    if n < 10 {
        seq![digit_char(n)]
    } else {
        decimal(n / 10).push(digit_char(n % 10))
    }
}

/// `digits` with `sep` inserted between groups of `group` digits, counted
/// from the right (the leftmost group may be shorter).
pub open spec fn group_digits(digits: Seq<char>, sep: Seq<char>, group: nat) -> Seq<char>
    decreases digits.len(),
{
    if group == 0 || digits.len() <= group {
        digits
    } else {
        group_digits(digits.take(digits.len() - group), sep, group) + sep + digits.skip(
            digits.len() - group,
        )
    }
}

/// How one character is written in HTML text: `&`, `<` and `>` become
/// entities, every other character stands for itself.
pub open spec fn escape_char(c: char) -> Seq<char> {
    if c == '&' {
        seq!['&', 'a', 'm', 'p', ';']
    } else if c == '<' {
        seq!['&', 'l', 't', ';']
    } else if c == '>' {
        seq!['&', 'g', 't', ';']
    } else {
        seq![c]
    }
}

/// `s` escaped for use as HTML text, character by character.
pub open spec fn html_escaped(s: Seq<char>) -> Seq<char>
    decreases s.len(),
{
    if s.len() == 0 {
        Seq::empty()
    } else {
        html_escaped(s.drop_last()) + escape_char(s.last())
    }
}

/// The one-character string of the decimal digit `d`.
fn digit_str(d: u8) -> (s: &'static str)
    requires
        d < 10,
    ensures
        s@ == seq![digit_char(d as nat)],
{
    proof {
        reveal_strlit("0");
        reveal_strlit("1");
        reveal_strlit("2");
        reveal_strlit("3");
        reveal_strlit("4");
        reveal_strlit("5");
        reveal_strlit("6");
        reveal_strlit("7");
        reveal_strlit("8");
        reveal_strlit("9");
    }
    if d == 0 {
        "0"
    } else if d == 1 {
        "1"
    } else if d == 2 {
        "2"
    } else if d == 3 {
        "3"
    } else if d == 4 {
        "4"
    } else if d == 5 {
        "5"
    } else if d == 6 {
        "6"
    } else if d == 7 {
        "7"
    } else if d == 8 {
        "8"
    } else {
        "9"
    }
}

/// Writes `n` in decimal.
pub fn decimal_string(n: u128) -> (s: String)
    ensures
        s@ == decimal(n as nat),
    decreases n,
{
    if n < 10 {
        String::from_str(digit_str(n as u8))
    } else {
        let mut s = decimal_string(n / 10);
        s.append(digit_str((n % 10) as u8));
        s
    }
}

/// `thousands::Separable::separate_by_policy` on `n`, with the policy that
/// inserts `separator` between groups of `group` ASCII decimal digits.
/// Trusted: the crate writes `n` in decimal and inserts the separator between
/// groups counted from the right (its documentation and `SeparatorIterator`),
/// which is what the contract states.
#[verifier::external_body]
pub(crate) fn separate_by_policy(n: u128, separator: &str, group: u8) -> (s: String)
    requires
        group > 0,
    ensures
        s@ == group_digits(decimal(n as nat), separator@, group as nat),
{
    let groups = [group];
    n.separate_by_policy(
        thousands::SeparatorPolicy {
            separator,
            groups: &groups,
            digits: thousands::digits::ASCII_DECIMAL,
        },
    )
}

/// `html_escape::encode_text`, made into an owned `String`.
/// Trusted: the crate replaces `&`, `<` and `>` by `&amp;`, `&lt;` and `&gt;`
/// and copies every other character, which is what the contract states.
#[verifier::external_body]
pub(crate) fn encode_text(text: &str) -> (s: String)
    ensures
        s@ == html_escaped(text@),
{
    html_escape::encode_text(text).into_owned()
}

} // verus!
