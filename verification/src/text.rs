//! Text operations of std: trimming, case, search and replace, parsing
//! integers, and the decimal text of numbers.

use vstd::prelude::*;

verus! {

/// What `str::trim` returns for a text: the text without leading and trailing
/// Unicode white space.
pub uninterp spec fn trimmed(s: Seq<char>) -> Seq<char>;

/// `str::trim`: its result's text is `trimmed` of the argument's text.
#[verifier::external_body]
pub(crate) fn trim_text(s: &str) -> (r: &str)
    ensures
        r@ == trimmed(s@),
{
    s.trim()
}

/// The decimal digit `d` (0 to 9).
pub open spec fn digit_char(d: nat) -> char {
    (48 + d) as char
}

/// The decimal text of `n`: its digits, most significant first, without leading
/// zeros ("0" for zero).
pub open spec fn decimal_text(n: nat) -> Seq<char>
    decreases n,
{
    if n < 10 {
        seq![digit_char(n)]
    } else {
        decimal_text(n / 10).push(digit_char(n % 10))
    }
}

/// `u64::to_string`: the number's decimal text.
#[verifier::external_body]
pub(crate) fn u64_text(n: u64) -> (r: String)
    ensures
        r@ == decimal_text(n as nat),
{
    n.to_string()
}

/// `t` occurs in `s` at some position.
pub open spec fn has_substring(s: Seq<char>, t: Seq<char>) -> bool {
    exists|i: int| 0 <= i <= s.len() - t.len() && #[trigger] s.subrange(i, i + t.len()) == t
}

/// `str::contains` with a text pattern: whether `needle` occurs in `haystack`.
#[verifier::external_body]
pub(crate) fn text_contains(haystack: &str, needle: &str) -> (r: bool)
    ensures
        r == has_substring(haystack@, needle@),
{
    haystack.contains(needle)
}

/// What `str::to_uppercase` returns for a text: its Unicode upper case.
pub uninterp spec fn upper_text(s: Seq<char>) -> Seq<char>;

/// `str::to_uppercase`: its result's text is `upper_text` of the argument's text.
#[verifier::external_body]
pub(crate) fn to_upper(s: &str) -> (r: String)
    ensures
        r@ == upper_text(s@),
{
    s.to_uppercase()
}

/// What `str::to_lowercase` returns for a text: its Unicode lower case.
pub uninterp spec fn lower_text(s: Seq<char>) -> Seq<char>;

/// `str::to_lowercase`: its result's text is `lower_text` of the argument's text.
#[verifier::external_body]
pub(crate) fn to_lower(s: &str) -> (r: String)
    ensures
        r@ == lower_text(s@),
{
    s.to_lowercase()
}

/// What `str::replace` returns: `s` with every non-overlapping occurrence of
/// `from`, left to right, replaced by `to`.
pub uninterp spec fn replaced(s: Seq<char>, from: Seq<char>, to: Seq<char>) -> Seq<char>;

/// `str::replace` with text patterns: its result's text is `replaced` of the
/// arguments' texts.
#[verifier::external_body]
pub(crate) fn replace_text(s: &str, from: &str, to: &str) -> (r: String)
    ensures
        r@ == replaced(s@, from@, to@),
{
    s.replace(from, to)
}

/// `c` is an ASCII decimal digit.
pub open spec fn is_digit(c: char) -> bool {
    '0' <= c && c <= '9'
}

/// The value of the decimal digits `s`.
pub open spec fn digits_value(s: Seq<char>) -> int
    decreases s.len(),
{
    if s.len() == 0 {
        0
    } else {
        digits_value(s.drop_last()) * 10 + (s.last() as int - '0' as int)
    }
}

/// The integer that `s` spells, as `i64`'s `FromStr` reads it: an optional `+`
/// or `-` followed by one or more decimal digits, within the range of `i64`; none
/// otherwise.
pub open spec fn parsed_i64(s: Seq<char>) -> Option<i64> {
    let signed = s.len() > 0 && (s[0] == '+' || s[0] == '-');
    let negative = s.len() > 0 && s[0] == '-';
    let digits = if signed {
        s.drop_first()
    } else {
        s
    };
    let value = if negative {
        -digits_value(digits)
    } else {
        digits_value(digits)
    };
    if digits.len() > 0 && (forall|i: int| 0 <= i < digits.len() ==> is_digit(#[trigger] digits[i])) && i64::MIN <= value
        <= i64::MAX {
        Some(value as i64)
    } else {
        None
    }
}

/// `str::parse::<i64>`: the integer the text spells, if any (see `parsed_i64`).
#[verifier::external_body]
pub(crate) fn parse_i64(s: &str) -> (r: Option<i64>)
    ensures
        r == parsed_i64(s@),
{
    s.parse::<i64>().ok()
}

} // verus!
