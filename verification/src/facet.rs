//! Facets: the classifier string of a tag, optionally carrying a date-like
//! suffix (`@` followed by exactly 8 ASCII digits).

use vstd::prelude::*;
use vstd::string::{StringExecFns, StringSliceAdditionalSpecFns};

use crate::text;
use crate::text::{is_ws_byte, str_bytes};

verus! {

broadcast use vstd::utf8::group_utf8_lib;

/// Check if the given facet is valid.
///
/// A facet is valid when it equals its own ASCII-whitespace-trimmed form
/// and does not start with a slash.  An empty facet is valid.
pub fn is_valid(facet: &str) -> (r: bool)
    ensures
        r == crate::text::spec_text_valid(str_bytes(facet@)),
{
    text::str_text_valid(facet)
}

/// Check if the given facet is empty.
pub fn is_empty(facet: &str) -> (r: bool)
    ensures
        r == (str_bytes(facet@).len() == 0),
{
    proof {
        text::lemma_str_bytes_empty(facet@);
    }
    facet.is_empty()
}

/// An ASCII decimal digit.
pub open spec fn is_digit(b: u8) -> bool {
    0x30 <= b && b <= 0x39
}

/// A date-like suffix occupies the last 9 bytes: `@` followed by exactly 8
/// ASCII digits, where the byte before the `@` (if any) is not whitespace.
pub open spec fn spec_has_date_like_suffix(s: Seq<u8>) -> bool {
    &&& s.len() >= 9
    &&& s[s.len() - 9] == 0x40
    &&& (forall|i: int| s.len() - 8 <= i < s.len() ==> is_digit(#[trigger] s[i]))
    &&& (s.len() == 9 || !is_ws_byte(s[s.len() - 10]))
}

/// A malformed marker: the string ends in `@` plus 8 digits, but that suffix
/// is preceded by whitespace.
pub open spec fn spec_has_invalid_date_like_suffix(s: Seq<u8>) -> bool {
    &&& s.len() >= 10
    &&& s[s.len() - 9] == 0x40
    &&& (forall|i: int| s.len() - 8 <= i < s.len() ==> is_digit(#[trigger] s[i]))
    &&& is_ws_byte(s[s.len() - 10])
}

/// Check that the 8 bytes starting at `start` are all ASCII digits.
fn bytes_are_digits8(s: &[u8], start: usize) -> (r: bool)
    requires
        start + 8 <= s@.len(),
    ensures
        r == (forall|i: int| start <= i < start + 8 ==> is_digit(#[trigger] s@[i])),
{
    let n: usize = s.len();
    let mut i: usize = 0;
    while i < 8
        invariant
            0 <= i <= 8,
            start + 8 <= n,
            n == s@.len(),
            forall|j: int| start <= j < start + i ==> is_digit(#[trigger] s@[j]),
        decreases 8 - i,
    {
        let b: u8 = *vstd::slice::slice_index_get(s, start + i);
        if !(0x30 <= b && b <= 0x39) {
            return false;
        }
        i = i + 1;
    }
    true
}

/// Check for a date-like suffix in the facet.
pub fn has_date_like_suffix(facet: &str) -> (r: bool)
    ensures
        r == spec_has_date_like_suffix(str_bytes(facet@)),
{
    let s: &[u8] = facet.as_bytes();
    let n = s.len();
    if n < 9 {
        return false;
    }
    let sep: u8 = *vstd::slice::slice_index_get(s, n - 9);
    if sep != 0x40 {
        return false;
    }
    if !bytes_are_digits8(s, n - 8) {
        return false;
    }
    if n == 9 {
        true
    } else {
        let before: u8 = *vstd::slice::slice_index_get(s, n - 10);
        !text::byte_is_ws(before)
    }
}

/// Check a string for an invalid (whitespace-preceded) date-like suffix.
pub fn has_invalid_date_like_suffix(facet: &str) -> (r: bool)
    ensures
        r == spec_has_invalid_date_like_suffix(str_bytes(facet@)),
{
    let s: &[u8] = facet.as_bytes();
    let n = s.len();
    if n < 10 {
        return false;
    }
    let sep: u8 = *vstd::slice::slice_index_get(s, n - 9);
    if sep != 0x40 {
        return false;
    }
    if !bytes_are_digits8(s, n - 8) {
        return false;
    }
    let before: u8 = *vstd::slice::slice_index_get(s, n - 10);
    text::byte_is_ws(before)
}

/// The lexical split is possible when the facet is at least 9 bytes long and
/// its last 9 bytes are ASCII.
pub open spec fn spec_can_split_date_like_suffix(s: Seq<u8>) -> bool {
    s.len() >= 9 && (forall|i: int| s.len() - 9 <= i < s.len() ==> #[trigger] s[i] < 0x80)
}

/// Split a facet into a prefix and the date-like suffix.
///
/// This is a purely lexical split on the last 9 bytes; it does not require
/// that the suffix actually is date-like.  Callers check that separately.
pub fn try_split_into_prefix_and_date_like_suffix<'a>(facet: &'a str) -> (r: Option<
    (&'a str, &'a str),
>)
    ensures
        r is Some <==> spec_can_split_date_like_suffix(str_bytes(facet@)),
        r is Some ==> ({
            let bytes = str_bytes(facet@);
            let pair = r->0;
            &&& str_bytes(pair.0@) == bytes.subrange(0, bytes.len() - 9)
            &&& str_bytes(pair.1@) == bytes.subrange(bytes.len() - 9, bytes.len() as int)
        }),
{
    let s: &[u8] = facet.as_bytes();
    let n = s.len();
    if n < 9 {
        return None;
    }
    let mut i: usize = n - 9;
    while i < n
        invariant
            n == str_bytes(facet@).len(),
            n >= 9,
            n - 9 <= i <= n,
            s@ == str_bytes(facet@),
            forall|j: int| n - 9 <= j < i ==> #[trigger] s@[j] < 0x80,
        decreases n - i,
    {
        let b: u8 = *vstd::slice::slice_index_get(s, i);
        if b >= 0x80 {
            return None;
        }
        i = i + 1;
    }
    proof {
        assert(vstd::utf8::valid_utf8(facet.spec_bytes()));
        assert(vstd::utf8::is_leading_byte_width_1(facet.spec_bytes()[n - 9]));
        assert(vstd::utf8::is_char_boundary(facet.spec_bytes(), n - 9 as int));
    }
    let (prefix, suffix) = facet.split_at(n - 9);
    Some((prefix, suffix))
}

/// Whether a year of the proleptic Gregorian calendar is a leap year.
pub open spec fn spec_is_leap_year(y: int) -> bool {
    (y % 4 == 0 && y % 100 != 0) || y % 400 == 0
}

/// The number of days in a month of the proleptic Gregorian calendar.
pub open spec fn spec_days_in_month(y: int, m: int) -> int
    recommends
        1 <= m <= 12,
{
    if m == 2 {
        if spec_is_leap_year(y) {
            29
        } else {
            28
        }
    } else if m == 4 || m == 6 || m == 9 || m == 11 {
        30
    } else {
        31
    }
}

/// A calendar date with a four-digit year, as carried by a date suffix.
#[derive(Debug, Clone, Copy, PartialEq, Eq, Structural)]
pub struct Date {
    /// The year, between 0 and 9999.
    pub year: u16,
    /// The month, between 1 and 12.
    pub month: u8,
    /// The day of the month.
    pub day: u8,
}

/// A date is valid when its year has at most four digits and the (year,
/// month, day) triple exists in the proleptic Gregorian calendar.
pub open spec fn spec_date_valid(d: Date) -> bool {
    &&& d.year <= 9999
    &&& 1 <= d.month <= 12
    &&& 1 <= d.day <= spec_days_in_month(d.year as int, d.month as int)
}

/// Relies on `time::Month::try_from` and `time::Date::from_calendar_date`:
/// for a year within time's supported range, construction succeeds exactly
/// for the (year, month, day) triples of the proleptic Gregorian calendar.
#[verifier::external_body]
fn calendar_date_exists(year: u16, month: u8, day: u8) -> (r: bool)
    requires
        year <= 9999,
    ensures
        r == (1 <= month <= 12 && 1 <= day <= spec_days_in_month(year as int, month as int)),
{
    match time::Month::try_from(month) {
        Ok(m) => time::Date::from_calendar_date(year as i32, m, day).is_ok(),
        Err(_) => false,
    }
}

impl Date {
    /// Construct a date from year, month and day.
    ///
    /// Returns `None` for a year above 9999 or for a (year, month, day)
    /// triple that does not exist in the calendar.
    pub fn new(year: u16, month: u8, day: u8) -> (r: Option<Date>)
        ensures
            r is Some <==> spec_date_valid(Date { year, month, day }),
            r is Some ==> r->0 == (Date { year, month, day }),
    {
        if year > 9999 {
            return None;
        }
        if calendar_date_exists(year, month, day) {
            Some(Date { year, month, day })
        } else {
            None
        }
    }
}

/// The year encoded in the four digit bytes at positions 1 to 4 of a 9-byte
/// date-like suffix.
pub open spec fn spec_suffix_year(s: Seq<u8>) -> int
    recommends
        s.len() == 9,
{
    1000 * (s[1] - 0x30) + 100 * (s[2] - 0x30) + 10 * (s[3] - 0x30) + (s[4] - 0x30)
}

/// The month encoded in the digit bytes at positions 5 and 6.
pub open spec fn spec_suffix_month(s: Seq<u8>) -> int
    recommends
        s.len() == 9,
{
    10 * (s[5] - 0x30) + (s[6] - 0x30)
}

/// The day encoded in the digit bytes at positions 7 and 8.
pub open spec fn spec_suffix_day(s: Seq<u8>) -> int
    recommends
        s.len() == 9,
{
    10 * (s[7] - 0x30) + (s[8] - 0x30)
}

/// A 9-byte suffix parses as a date when it is `@` followed by 8 digits and
/// the encoded (year, month, day) triple exists in the calendar.
pub open spec fn spec_suffix_parses_as_date(s: Seq<u8>) -> bool
    recommends
        s.len() == 9,
{
    &&& s[0] == 0x40
    &&& (forall|i: int| 1 <= i < 9 ==> is_digit(#[trigger] s[i]))
    &&& 1 <= spec_suffix_month(s) <= 12
    &&& 1 <= spec_suffix_day(s) <= spec_days_in_month(spec_suffix_year(s), spec_suffix_month(s))
}

/// The date encoded in a 9-byte suffix that parses as a date.
pub open spec fn spec_suffix_date(s: Seq<u8>) -> Date
    recommends
        s.len() == 9,
{
    Date {
        year: spec_suffix_year(s) as u16,
        month: spec_suffix_month(s) as u8,
        day: spec_suffix_day(s) as u8,
    }
}

/// Split a facet into a prefix and parse the date suffix.
///
/// Performs the lexical split and then attempts to read the suffix as `@`
/// plus year, month and day digits; an impossible calendar date is not an
/// error but yields `None` for the date.
pub fn try_split_into_prefix_and_parse_date_suffix<'a>(facet: &'a str) -> (r: Option<
    (&'a str, Option<Date>),
>)
    ensures
        r is Some <==> spec_can_split_date_like_suffix(str_bytes(facet@)),
        r is Some ==> ({
            let bytes = str_bytes(facet@);
            let suffix = bytes.subrange(bytes.len() - 9, bytes.len() as int);
            let pair = r->0;
            &&& str_bytes(pair.0@) == bytes.subrange(0, bytes.len() - 9)
            &&& (pair.1 is Some <==> spec_suffix_parses_as_date(suffix))
            &&& (pair.1 is Some ==> pair.1->0 == spec_suffix_date(suffix))
        }),
{
    let split = try_split_into_prefix_and_date_like_suffix(facet);
    match split {
        None => None,
        Some((prefix, suffix)) => {
            let s: &[u8] = suffix.as_bytes();
            assert(s@.len() == 9);
            let sep: u8 = *vstd::slice::slice_index_get(s, 0);
            if sep != 0x40 {
                return Some((prefix, None));
            }
            if !bytes_are_digits8(s, 1) {
                return Some((prefix, None));
            }
            let d1: u16 = (*vstd::slice::slice_index_get(s, 1) - 0x30) as u16;
            let d2: u16 = (*vstd::slice::slice_index_get(s, 2) - 0x30) as u16;
            let d3: u16 = (*vstd::slice::slice_index_get(s, 3) - 0x30) as u16;
            let d4: u16 = (*vstd::slice::slice_index_get(s, 4) - 0x30) as u16;
            let year: u16 = 1000 * d1 + 100 * d2 + 10 * d3 + d4;
            let month: u8 = 10 * (*vstd::slice::slice_index_get(s, 5) - 0x30)
                + (*vstd::slice::slice_index_get(s, 6) - 0x30);
            let day: u8 = 10 * (*vstd::slice::slice_index_get(s, 7) - 0x30)
                + (*vstd::slice::slice_index_get(s, 8) - 0x30);
            Some((prefix, Date::new(year, month, day)))
        },
    }
}

/// The 9 bytes `@YYYYMMDD` that format a date as a suffix.
pub open spec fn spec_format_date_suffix(d: Date) -> Seq<u8>
    recommends
        spec_date_valid(d),
{
    seq![
        0x40u8,
        (0x30 + d.year / 1000) as u8,
        (0x30 + (d.year / 100) % 10) as u8,
        (0x30 + (d.year / 10) % 10) as u8,
        (0x30 + d.year % 10) as u8,
        (0x30 + d.month / 10) as u8,
        (0x30 + d.month % 10) as u8,
        (0x30 + d.day / 10) as u8,
        (0x30 + d.day % 10) as u8,
    ]
}

/// Concatenate a prefix and a formatted date suffix to a facet string.
///
/// The prefix must not end with whitespace if the result is to be a valid,
/// date-like facet; this function itself only concatenates.
pub fn from_prefix_with_date_suffix(prefix: &str, date: Date) -> (r: String)
    requires
        spec_date_valid(date),
    ensures
        str_bytes(r@) == str_bytes(prefix@) + spec_format_date_suffix(date),
{
    let mut suffix_bytes: Vec<u8> = Vec::new();
    suffix_bytes.push(0x40u8);
    suffix_bytes.push(0x30 + (date.year / 1000) as u8);
    suffix_bytes.push(0x30 + ((date.year / 100) % 10) as u8);
    suffix_bytes.push(0x30 + ((date.year / 10) % 10) as u8);
    suffix_bytes.push(0x30 + (date.year % 10) as u8);
    suffix_bytes.push(0x30 + date.month / 10);
    suffix_bytes.push(0x30 + date.month % 10);
    suffix_bytes.push(0x30 + date.day / 10);
    suffix_bytes.push(0x30 + date.day % 10);
    let ghost suffix_model: Seq<u8> = suffix_bytes@;
    proof {
        assert(suffix_model =~= spec_format_date_suffix(date));
        text::lemma_ascii_bytes_valid_utf8(suffix_model);
    }
    let suffix = text::string_from_utf8(suffix_bytes);
    match suffix {
        Some(suffix_str) => {
            let mut result = String::new();
            result.append(prefix);
            result.append(suffix_str.as_str());
            proof {
                text::lemma_encode_utf8_concat(prefix@, suffix_str@);
                assert(result@ =~= prefix@ + suffix_str@);
            }
            result
        },
        None => {
            proof {
                assert(false);
            }
            String::new()
        },
    }
}

} // verus!
