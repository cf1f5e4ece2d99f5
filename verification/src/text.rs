//! Text operations of std that the library relies on, each behind one
//! trusted wrapper.

use vstd::prelude::*;
use vstd::string::StringSliceAdditionalSpecFns;
use vstd::utf8::*;

verus! {

/// Whether a character has the Unicode `White_Space` property, as
/// `char::is_whitespace` tests it.
pub open spec fn is_white_space(c: char) -> bool {
    ||| '\u{9}' <= c <= '\u{d}'
    ||| c == ' '
    ||| c == '\u{85}'
    ||| c == '\u{a0}'
    ||| c == '\u{1680}'
    ||| '\u{2000}' <= c <= '\u{200a}'
    ||| c == '\u{2028}'
    ||| c == '\u{2029}'
    ||| c == '\u{202f}'
    ||| c == '\u{205f}'
    ||| c == '\u{3000}'
}

/// A text without its leading white space.
pub open spec fn trimmed_start(s: Seq<char>) -> Seq<char>
    decreases s.len(),
{
    if s.len() > 0 && is_white_space(s[0]) {
        trimmed_start(s.skip(1))
    } else {
        s
    }
}

/// A text without its trailing white space.
pub open spec fn trimmed_end(s: Seq<char>) -> Seq<char>
    decreases s.len(),
{
    if s.len() > 0 && is_white_space(s.last()) {
        trimmed_end(s.drop_last())
    } else {
        s
    }
}

/// What `str::trim` leaves of a text: the text without its leading and
/// trailing white space.
pub open spec fn trimmed(s: Seq<char>) -> Seq<char> {
    trimmed_end(trimmed_start(s))
}

/// What `str::to_lowercase` makes of a text.
pub uninterp spec fn lowercased(s: Seq<char>) -> Seq<char>;

/// Whether every character is an ASCII digit.
pub open spec fn all_digits(s: Seq<char>) -> bool {
    forall|i: int| 0 <= i < s.len() ==> '0' <= #[trigger] s[i] <= '9'
}

/// The number that ASCII digits write in decimal.
pub open spec fn digits_value(s: Seq<char>) -> int
    decreases s.len(),
{
    if s.len() == 0 {
        0
    } else {
        digits_value(s.drop_last()) * 10 + (s.last() as int - '0' as int)
    }
}

/// The integer that a text writes as `FromStr` of the signed integer types
/// reads it: an optional `+` or `-`, then one or more ASCII digits, and
/// nothing else.
pub open spec fn decimal_value(s: Seq<char>) -> Option<int> {
    let negative = s.len() > 0 && s[0] == '-';
    let digits = if s.len() > 0 && (s[0] == '-' || s[0] == '+') {
        s.skip(1)
    } else {
        s
    };
    if digits.len() > 0 && all_digits(digits) {
        Some(if negative { -digits_value(digits) } else { digits_value(digits) })
    } else {
        None
    }
}

/// What `<i64 as FromStr>::from_str` gives for a text (`None` for its
/// error): the decimal value, where it fits.
pub open spec fn parsed_i64(s: Seq<char>) -> Option<i64> {
    match decimal_value(s) {
        Some(v) => if i64::MIN <= v <= i64::MAX {
            Some(v as i64)
        } else {
            None
        },
        None => None,
    }
}

/// What `Display` writes for the `ParseIntError` that reading this text as
/// an `i64` gives.
pub uninterp spec fn i64_error_text(s: Seq<char>) -> Seq<char>;

/// What `<i32 as FromStr>::from_str` gives for a text (`None` for its
/// error): the decimal value, where it fits.
pub open spec fn parsed_i32(s: Seq<char>) -> Option<i32> {
    match decimal_value(s) {
        Some(v) => if i32::MIN <= v <= i32::MAX {
            Some(v as i32)
        } else {
            None
        },
        None => None,
    }
}

/// What `<i16 as FromStr>::from_str` gives for a text (`None` for its
/// error): the decimal value, where it fits.
pub open spec fn parsed_i16(s: Seq<char>) -> Option<i16> {
    match decimal_value(s) {
        Some(v) => if i16::MIN <= v <= i16::MAX {
            Some(v as i16)
        } else {
            None
        },
        None => None,
    }
}

/// What `Display` writes for the `Utf8Error` that `std::str::from_utf8`
/// gives for these bytes.
pub uninterp spec fn utf8_error_text(v: Seq<u8>) -> Seq<char>;

/// Calls `std::str::from_utf8`. As std documents, it succeeds exactly on
/// valid UTF-8, and the string slice then holds the same bytes; the error is
/// turned into its `Display` text, which is named by `utf8_error_text`.
#[verifier::external_body]
pub(crate) fn str_from_utf8(v: &[u8]) -> (r: Result<&str, String>)
    ensures
        r is Ok <==> valid_utf8(v@),
        r matches Ok(s) ==> s.spec_bytes() == v@,
        r matches Err(e) ==> e@ == utf8_error_text(v@),
{
    match std::str::from_utf8(v) {
        Ok(s) => Ok(s),
        Err(e) => Err(e.to_string()),
    }
}

/// Calls `PartialEq::eq` on two string slices, which compares their text.
#[verifier::external_body]
pub(crate) fn str_eq(a: &str, b: &str) -> (r: bool)
    ensures
        r == (a@ == b@),
{
    a == b
}

/// Calls `String::from_utf8`. As std documents, it succeeds exactly on valid
/// UTF-8, and the string then holds the same bytes.
#[verifier::external_body]
pub(crate) fn string_from_utf8(v: Vec<u8>) -> (r: Option<String>)
    ensures
        r is Some <==> valid_utf8(v@),
        r matches Some(s) ==> s@ == decode_utf8(v@),
{
    String::from_utf8(v).ok()
}

/// Calls `str::trim`, which, as std documents, removes leading and
/// trailing white space as `char::is_whitespace` defines it.
#[verifier::external_body]
pub(crate) fn trim(s: &str) -> (r: &str)
    ensures
        r@ == trimmed(s@),
{
    s.trim()
}

/// Calls `str::to_lowercase`; its result is named by `lowercased`.
#[verifier::external_body]
pub(crate) fn to_lowercase(s: &str) -> (r: String)
    ensures
        r@ == lowercased(s@),
{
    s.to_lowercase()
}

/// Calls `str::parse::<i64>`, which reads an optional sign and one or more
/// ASCII digits and fails where the value does not fit; the `Display` text
/// of its error is named by `i64_error_text`.
#[verifier::external_body]
pub(crate) fn parse_i64(s: &str) -> (r: Result<i64, String>)
    ensures
        r is Ok <==> parsed_i64(s@) is Some,
        r matches Ok(v) ==> parsed_i64(s@) == Some(v),
        r matches Err(e) ==> e@ == i64_error_text(s@),
{
    match s.parse::<i64>() {
        Ok(v) => Ok(v),
        Err(e) => Err(e.to_string()),
    }
}

/// Calls `str::parse::<i32>`, which reads as `parsed_i32` states.
#[verifier::external_body]
pub(crate) fn parse_i32(s: &str) -> (r: Option<i32>)
    ensures
        r == parsed_i32(s@),
{
    s.parse::<i32>().ok()
}

/// Calls `str::parse::<i16>`, which reads as `parsed_i16` states.
#[verifier::external_body]
pub(crate) fn parse_i16(s: &str) -> (r: Option<i16>)
    ensures
        r == parsed_i16(s@),
{
    s.parse::<i16>().ok()
}

} // verus!
