use vstd::prelude::*;

use crate::decimal::{all_ascii_digits, decimal_digits, digits_value};

verus! {

/// `std::num::ParseIntError`, the error of `str::parse` for integers; opaque here.
#[verifier::external_type_specification]
#[verifier::external_body]
pub struct ExParseIntError(std::num::ParseIntError);

/// `Clone::clone` of `std::num::ParseIntError` (derived there); nothing is stated of
/// the copy, which is opaque here.
pub assume_specification[ <std::num::ParseIntError as Clone>::clone ](e: &std::num::ParseIntError) -> std::num::ParseIntError;

/// The characters of `s`, in order.
pub fn chars_of(s: &str) -> (v: Vec<char>)
    ensures
        v@ == s@,
{
    broadcast use vstd::string::group_string_axioms;

    let mut v: Vec<char> = Vec::new();
    for c in it: s.chars()
        invariant
            it.seq() == s@,
            v@ == s@.take(it.index() as int),
    {
        v.push(c);
        assert(v@ =~= s@.take(it.index() + 1));
    }
    assert(v@ =~= s@);
    v
}

/// The digits of the text of an unsigned integer: the text without one leading `+`.
pub open spec fn unsigned_digits(s: Seq<char>) -> Seq<char> {
    if s.len() > 0 && s[0] == '+' {
        s.drop_first()
    } else {
        s
    }
}

/// Whether `s` is the decimal text of a `u64`: an optional `+`, then one or more
/// ASCII digits whose value fits in 64 bits.
pub open spec fn is_u64_text(s: Seq<char>) -> bool {
    let d = unsigned_digits(s);
    &&& d.len() > 0
    &&& all_ascii_digits(d)
    &&& digits_value(d) <= u64::MAX
}

/// The value of the decimal text `s` of a `u64`.
pub open spec fn u64_text_value(s: Seq<char>) -> u64 {
    digits_value(unsigned_digits(s)) as u64
}

/// Calls `u64::from_str` (`str::parse::<u64>`). Its documentation says that the text
/// must be an optional `+` followed by decimal digits only, and that a value too large
/// for the type is an error; otherwise the result is the value of those digits.
/// Which `ParseIntError` comes back on failure is not stated.
#[verifier::external_body]
pub(crate) fn parse_u64(s: &str) -> (res: Result<u64, std::num::ParseIntError>)
    ensures
        res is Ok <==> is_u64_text(s@),
        res matches Ok(v) ==> v == u64_text_value(s@),
{
    s.parse::<u64>()
}

/// Whether the class `\d` of the `regex` crate holds `c`. The crate documents `\d` as
/// the Unicode class `\p{Nd}`: the decimal digits of every script.
pub uninterp spec fn regex_decimal_digit(c: char) -> bool;

/// Calls `regex::Regex::new` with the pattern `\d` and `regex::Regex::is_match` on the
/// one-character text `c`. The result is the name `regex_decimal_digit(c)`; which
/// characters the class holds is the crate's Unicode table, not stated here.
#[verifier::external_body]
pub(crate) fn is_regex_decimal_digit(c: char) -> (b: bool)
    ensures
        b == regex_decimal_digit(c),
{
    let mut buf = [0u8; 4];
    let re = regex::Regex::new(r"\d").expect("the pattern is valid");
    re.is_match(c.encode_utf8(&mut buf))
}

/// The digits `d` grouped by threes from the right, with `,` between groups
/// (`1234567` becomes `1,234,567`).
pub open spec fn group_thousands(d: Seq<char>) -> Seq<char>
    decreases d.len(),
{
    if d.len() <= 3 {
        d
    } else {
        group_thousands(d.take(d.len() - 3)) + seq![','] + d.skip(d.len() - 3)
    }
}

/// Calls `num_format::Buffer::write_formatted` with `num_format::Locale::en`, whose
/// separator is `,` and whose grouping is `Grouping::Standard` (groups of three digits):
/// the result is the decimal digits of `n` grouped by thousands.
#[verifier::external_body]
pub(crate) fn format_thousands_en(n: u64) -> (s: String)
    ensures
        s@ == group_thousands(decimal_digits(n as nat)),
{
    let mut buf = num_format::Buffer::default();
    buf.write_formatted(&n, &num_format::Locale::en);
    buf.as_str().to_string()
}

} // verus!
