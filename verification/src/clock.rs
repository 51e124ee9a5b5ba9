//! Dates and times from chrono.
use vstd::prelude::*;

verus! {

pub open spec fn is_digit(c: char) -> bool {
    '0' <= c && c <= '9'
}

pub open spec fn digit(c: char) -> int {
    c as int - '0' as int
}

/// The number that the digits at two positions make.
pub open spec fn two_digits(text: Seq<char>, at: int) -> int {
    10 * digit(text[at]) + digit(text[at + 1])
}

pub open spec fn days_in_month(year: int, month: int) -> int {
    if month == 2 {
        if year % 4 == 0 && (year % 100 != 0 || year % 400 == 0) {
            29
        } else {
            28
        }
    } else if month == 4 || month == 6 || month == 9 || month == 11 {
        30
    } else {
        31
    }
}

pub open spec fn year(text: Seq<char>) -> int {
    100 * two_digits(text, 0) + two_digits(text, 2)
}

pub open spec fn month(text: Seq<char>) -> int {
    two_digits(text, 5)
}

pub open spec fn day(text: Seq<char>) -> int {
    two_digits(text, 8)
}

/// The text is a day of the calendar, written `YYYY-MM-DD`.
pub open spec fn calendar_day(text: Seq<char>) -> bool {
    &&& text.len() == 10
    &&& forall|i: int|
        0 <= i < 10 ==> if i == 4 || i == 7 {
            #[trigger] text[i] == '-'
        } else {
            is_digit(text[i])
        }
    &&& 1 <= month(text) <= 12
    &&& 1 <= day(text) <= days_in_month(year(text), month(text))
}

/// One calendar day comes before another.
pub open spec fn earlier(a: Seq<char>, b: Seq<char>) -> bool {
    ||| year(a) < year(b)
    ||| year(a) == year(b) && month(a) < month(b)
    ||| year(a) == year(b) && month(a) == month(b) && day(a) < day(b)
}

/// The text starts with a sign, as years before 0 and after 9999 do.
pub open spec fn signed(text: Seq<char>) -> bool {
    text.len() > 0 && (text[0] == '+' || text[0] == '-')
}

/// Whether the text starts with a sign.
pub(crate) fn has_sign(text: &str) -> (r: bool)
    ensures
        r == signed(text@),
{
    let chars = crate::text::chars_of(text);
    chars.len() > 0 && (chars[0] == '+' || chars[0] == '-')
}

/// What can be stored as a due date: nothing, or a calendar day written
/// `YYYY-MM-DD`.
pub open spec fn is_due(due: Option<Seq<char>>) -> bool {
    due matches Some(text) ==> calendar_day(text)
}

/// What a text and its canonical spelling say of it as a due date. A signed
/// year is never one: it would not compare with the others as text.
pub open spec fn spelled(due: Option<Seq<char>>, canonical: Option<Seq<char>>) -> bool {
    due matches Some(text) ==> !signed(text) && canonical == Some(text)
}

/// Parses with `chrono::NaiveDate::parse_from_str` under the format
/// `%Y-%m-%d` and writes the date back in the same format with
/// `NaiveDate::format`. Claimed is that a text without a sign comes back as
/// it is exactly where it is a calendar day written `YYYY-MM-DD`. Left unsaid
/// is which other texts (short numbers, blanks, signed years) are read as
/// which date.
#[verifier::external_body]
pub(crate) fn canonical(text: &str) -> (r: Option<String>)
    ensures
        !signed(text@) ==> ((r matches Some(s) && s@ == text@) <==> calendar_day(text@)),
{
    match chrono::NaiveDate::parse_from_str(text, "%Y-%m-%d") {
        Ok(date) => Some(date.format("%Y-%m-%d").to_string()),
        Err(_) => None,
    }
}

/// The current time, from `chrono::Utc::now`, written by
/// `DateTime::to_rfc3339_opts` to whole seconds with a `Z`. It depends on the
/// clock, so nothing is claimed of it.
#[verifier::external_body]
pub(crate) fn now() -> String {
    chrono::Utc::now().to_rfc3339_opts(chrono::SecondsFormat::Secs, true)
}

/// A date as the clock gives it: a calendar day written `YYYY-MM-DD`, or one
/// with a sign before a year that four digits cannot hold.
pub open spec fn is_date(text: Seq<char>) -> bool {
    calendar_day(text) || signed(text)
}

/// The current local date, from `chrono::Local::now`, written by
/// `DateTime::format` under the format `%Y-%m-%d`. Claimed is the shape: in
/// the years 0 to 9999 it is a calendar day written `YYYY-MM-DD`, and any
/// other year is written with a sign. Which day it is depends on the clock
/// and the time zone, so nothing is claimed of that.
#[verifier::external_body]
pub(crate) fn today() -> (r: String)
    ensures
        is_date(r@),
{
    chrono::Local::now().format("%Y-%m-%d").to_string()
}

/// The canonical spelling of an optional date.
pub(crate) fn canonical_option(due: Option<&str>) -> (r: Option<String>)
    ensures
        spelled(crate::db::str_option(due), crate::task::text_option(r)) == is_due(
            crate::db::str_option(due),
        ),
{
    match due {
        Some(text) => {
            let r = canonical(text);
            assert(signed(text@) ==> !is_digit(text@[0]));
            r
        },
        None => None,
    }
}

} // verus!
