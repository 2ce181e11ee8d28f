//! Normalising timestamp cells to `YYYY/MM/DD` dates.
use vstd::prelude::*;

use polars::export::arrow::temporal_conversions::date32_to_date_opt;
use polars::prelude::{NewChunkedArray, StringChunked, StringMethods};

use crate::table::cell_view;

verus! {

/// How many leading characters of a timestamp spell its date (`YYYY-MM-DD`).
pub const DATE_PREFIX_LEN: usize = 10;

/// The date part of a timestamp: its first `DATE_PREFIX_LEN` characters, or
/// all of it when it is shorter.
pub open spec fn date_prefix(s: Seq<char>) -> Seq<char> {
    if s.len() <= DATE_PREFIX_LEN {
        s
    } else {
        s.take(DATE_PREFIX_LEN as int)
    }
}

/// The text that is read as a date for a cell: the date part of its
/// timestamp, or the empty text for a null cell.
pub open spec fn date_input(cell: Option<Seq<char>>) -> Seq<char> {
    match cell {
        Some(s) => date_prefix(s),
        None => Seq::empty(),
    }
}

/// The day number (days after 1970-01-01) of the date that `s` spells in the
/// form `%Y-%m-%d`, as polars reads it, or `None` where it reads no date.
pub uninterp spec fn iso_date_days(s: Seq<char>) -> Option<i32>;

/// The text `%Y/%m/%d` of a day number, or `None` for a day number outside
/// the calendar's range.
pub uninterp spec fn slash_date_text(days: i32) -> Option<Seq<char>>;

/// The normalised date of a timestamp cell, or `None` when it holds no date.
pub open spec fn normalized_date(cell: Option<Seq<char>>) -> Option<Seq<char>> {
    match iso_date_days(date_input(cell)) {
        Some(days) => slash_date_text(days),
        None => None,
    }
}

/// The widest day numbers that a calendar date of chrono's range (years
/// -262143 to 262142) can have, with room to spare.
pub const DAY_NUMBER_BOUND: i32 = 100_000_000;

/// Relies on polars' `StringMethods::as_date` with the format `%Y-%m-%d`:
/// the day number of the date that `text` spells, or `None` (polars leaves a
/// null where the text is no such date). A day number comes from a chrono
/// `NaiveDate`, so it lies within chrono's calendar range.
#[verifier::external_body]
fn parse_iso_date(text: &str) -> (r: Option<i32>)
    ensures
        r == iso_date_days(text@),
        r matches Some(d) ==> -DAY_NUMBER_BOUND <= d <= DAY_NUMBER_BOUND,
{
    let column = StringChunked::from_slice("", &[text]);
    match column.as_date(Some("%Y-%m-%d"), false) {
        Ok(dates) => dates.get(0),
        Err(_) => None,
    }
}

/// Relies on polars' `date32_to_date_opt` (day number to calendar date,
/// `None` out of range) and on chrono's `%Y/%m/%d` formatting of that date.
#[verifier::external_body]
fn format_slash_date(days: i32) -> (r: Option<String>)
    requires
        -DAY_NUMBER_BOUND <= days <= DAY_NUMBER_BOUND,
    ensures
        cell_view(r) == slash_date_text(days),
{
    date32_to_date_opt(days).map(|date| date.format("%Y/%m/%d").to_string())
}

/// The date part of a timestamp (see `date_prefix`).
pub fn date_prefix_of(text: &str) -> (r: &str)
    ensures
        r@ == date_prefix(text@),
{
    let n = text.unicode_len();
    if n <= DATE_PREFIX_LEN {
        text
    } else {
        text.substring_char(0, DATE_PREFIX_LEN)
    }
}

/// The text that is read as a date for a cell (see `date_input`).
pub fn date_input_of(cell: &Option<String>) -> (r: String)
    ensures
        r@ == date_input(cell_view(*cell)),
{
    match cell {
        Some(t) => String::from_str(date_prefix_of(t.as_str())),
        None => String::new(),
    }
}

/// Reads the date at the head of a timestamp cell and writes it as
/// `YYYY/MM/DD`; `None` when the cell holds no such date.
pub fn normalize_date_cell(cell: &Option<String>) -> (r: Option<String>)
    ensures
        cell_view(r) == normalized_date(cell_view(*cell)),
{
    let input = date_input_of(cell);
    match parse_iso_date(input.as_str()) {
        Some(days) => format_slash_date(days),
        None => None,
    }
}


/// Only the first `DATE_PREFIX_LEN` characters of a timestamp decide its
/// date: a longer timestamp gives the date of its first ten characters, and a
/// timestamp of exactly ten characters is read whole.
pub proof fn lemma_date_reads_prefix(s: Seq<char>)
    requires
        s.len() >= DATE_PREFIX_LEN,
    ensures
        normalized_date(Some(s)) == normalized_date(Some(s.take(DATE_PREFIX_LEN as int))),
        s.len() == DATE_PREFIX_LEN ==> date_input(Some(s)) == s,
{
    assert(s.len() == DATE_PREFIX_LEN ==> s.take(DATE_PREFIX_LEN as int) =~= s);
    assert(s.take(DATE_PREFIX_LEN as int).take(DATE_PREFIX_LEN as int) =~= s.take(
        DATE_PREFIX_LEN as int,
    ));
}

} // verus!
