//! Calendar days and the keys of journal files.
//!
//! A day is held as its number in the proleptic Gregorian calendar, with
//! January 1 of year 1 as day 1, so that days are ordered and counted as
//! integers. The calendar itself (which numbers are days, how a day is
//! written and read as `YYYY-MM-DD`) is that of the `chrono` crate.

use crate::text::{ends_with, same_text};
use chrono::Datelike;
use chrono::NaiveDate;
use vstd::prelude::*;

verus! {

/// Whether `chrono`'s calendar has a day with this number.
pub uninterp spec fn day_in_calendar(day: int) -> bool;

/// The day number that `chrono` reads from a text in the form `%Y-%m-%d`,
/// if it reads one.
pub uninterp spec fn day_of_text(text: Seq<char>) -> Option<i32>;

/// The text that `chrono` writes for a day in the form `%Y-%m-%d`.
pub uninterp spec fn text_of_day(day: int) -> Seq<char>;

/// Trusted, not proved: calls `chrono::NaiveDate::from_num_days_from_ce_opt`,
/// which makes a date from a day number and returns `None` when the number
/// is out of range. The result says whether a date came back, and that is
/// what `day_in_calendar` stands for.
#[verifier::external_body]
fn calendar_has_day(days: i32) -> (b: bool)
    ensures
        b == day_in_calendar(days as int),
{
    NaiveDate::from_num_days_from_ce_opt(days).is_some()
}

/// Trusted, not proved: calls `chrono::NaiveDate::parse_from_str` with the
/// format `%Y-%m-%d`. The result is the day number (`num_days_from_ce`) of
/// the date that was read, `None` for any parse error; the contract only
/// gives that result its name, `day_of_text`.
#[verifier::external_body]
fn read_day(text: &str) -> (r: Option<i32>)
    ensures
        r == day_of_text(text@),
{
    NaiveDate::parse_from_str(text, "%Y-%m-%d").ok().map(|d| d.num_days_from_ce())
}

/// Trusted, not proved: calls `chrono::NaiveDate::format` with the format
/// `%Y-%m-%d` on the date with the given day number, and takes the text it
/// displays; the contract only gives that text its name, `text_of_day`.
/// The day must be one of the calendar, so that the date can be made.
#[verifier::external_body]
fn write_day(days: i32) -> (r: String)
    requires
        day_in_calendar(days as int),
    ensures
        r@ == text_of_day(days as int),
{
    NaiveDate::from_num_days_from_ce_opt(days).unwrap().format("%Y-%m-%d").to_string()
}

/// The day of the week of a day as `chrono` counts it: 0 for Monday up to
/// 6 for Sunday.
pub uninterp spec fn weekday_of(day: int) -> int;

/// The year of a day in `chrono`'s calendar.
pub uninterp spec fn year_of(day: int) -> int;

/// The month of a day in `chrono`'s calendar: 1 for January up to 12 for
/// December.
pub uninterp spec fn month_of(day: int) -> int;

/// Trusted, not proved: calls `chrono::Datelike::weekday` on the date with
/// the given day number, and takes the number of the day of the week from
/// `num_days_from_monday`. The contract gives that number its name,
/// `weekday_of`, and says that it is below 7, as the table in the
/// documentation of `num_days_from_monday` shows.
#[verifier::external_body]
fn weekday_number(days: i32) -> (r: u32)
    requires
        day_in_calendar(days as int),
    ensures
        r == weekday_of(days as int),
        r < 7,
{
    NaiveDate::from_num_days_from_ce_opt(days).unwrap().weekday().num_days_from_monday()
}

/// Trusted, not proved: calls `chrono::Datelike::year` on the date with the
/// given day number; the contract only gives the year its name, `year_of`.
#[verifier::external_body]
fn year_number(days: i32) -> (r: i32)
    requires
        day_in_calendar(days as int),
    ensures
        r == year_of(days as int),
{
    NaiveDate::from_num_days_from_ce_opt(days).unwrap().year()
}

/// Trusted, not proved: calls `chrono::Datelike::month` on the date with
/// the given day number. The contract gives the month its name,
/// `month_of`, and says that it ranges from 1 to 12, as the documentation
/// of `month` does.
#[verifier::external_body]
fn month_number(days: i32) -> (r: u32)
    requires
        day_in_calendar(days as int),
    ensures
        r == month_of(days as int),
        1 <= r <= 12,
{
    NaiveDate::from_num_days_from_ce_opt(days).unwrap().month()
}

/// The day that `text` names: the day number read from it, where the
/// calendar has that day.
pub open spec fn day_named(text: Seq<char>) -> Option<int> {
    match day_of_text(text) {
        Some(d) => if day_in_calendar(d as int) {
            Some(d as int)
        } else {
            None
        },
        None => None,
    }
}

/// The day with the given number, where the calendar has it.
pub open spec fn day_if_any(day: int) -> Option<int> {
    if i32::MIN <= day <= i32::MAX && day_in_calendar(day) {
        Some(day)
    } else {
        None
    }
}

/// A calendar day. Its view is its day number.
#[derive(Clone, Copy, Debug, PartialEq, Eq, Structural)]
pub struct DateKey {
    days: i32,
}

impl View for DateKey {
    type V = int;

    closed spec fn view(&self) -> int {
        self.days as int
    }
}

impl DateKey {
    /// Every `DateKey` is a day of the calendar.
    #[verifier::type_invariant]
    pub closed spec fn in_calendar(self) -> bool {
        day_in_calendar(self.days as int)
    }

    /// Two keys are the same exactly if their day numbers are.
    pub proof fn lemma_same_day(self, other: DateKey)
        ensures
            (self@ == other@) <==> (self == other),
            i32::MIN <= self@ <= i32::MAX,
    {
    }

    /// The day with the given number, if the calendar has it.
    pub fn from_days(days: i32) -> (r: Option<DateKey>)
        ensures
            r is Some <==> day_in_calendar(days as int),
            r matches Some(k) ==> k@ == days,
    {
        if calendar_has_day(days) {
            Some(DateKey { days })
        } else {
            None
        }
    }

    /// The day that a text of the form `YYYY-MM-DD` names, if it names one.
    pub fn parse(text: &str) -> (r: Option<DateKey>)
        ensures
            match r {
                Some(k) => day_named(text@) == Some(k@),
                None => day_named(text@) is None,
            },
    {
        match read_day(text) {
            Some(d) => DateKey::from_days(d),
            None => None,
        }
    }

    /// The day number.
    pub fn days(&self) -> (d: i32)
        ensures
            d == self@,
            day_in_calendar(d as int),
    {
        proof {
            use_type_invariant(self);
        }
        self.days
    }

    /// The day written as `YYYY-MM-DD`.
    pub fn text(&self) -> (r: String)
        ensures
            r@ == text_of_day(self@),
    {
        proof {
            use_type_invariant(self);
        }
        write_day(self.days)
    }

    /// The day of the week: 0 for Monday up to 6 for Sunday.
    pub fn weekday(&self) -> (r: u32)
        ensures
            r == weekday_of(self@),
            r < 7,
    {
        proof {
            use_type_invariant(self);
        }
        weekday_number(self.days)
    }

    /// The year of the day.
    pub fn year(&self) -> (r: i32)
        ensures
            r == year_of(self@),
    {
        proof {
            use_type_invariant(self);
        }
        year_number(self.days)
    }

    /// The month of the day, from 1 to 12.
    pub fn month(&self) -> (r: u32)
        ensures
            r == month_of(self@),
            1 <= r <= 12,
    {
        proof {
            use_type_invariant(self);
        }
        month_number(self.days)
    }

    /// The day that is `offset` days after this one, or before it where
    /// `offset` is negative, if the calendar has that day.
    pub fn shifted(&self, offset: i64) -> (r: Option<DateKey>)
        ensures
            match r {
                Some(k) => day_if_any(self@ + offset) == Some(k@),
                None => day_if_any(self@ + offset) is None,
            },
    {
        match (self.days as i64).checked_add(offset) {
            Some(day) => if day < i32::MIN as i64 || day > i32::MAX as i64 {
                None
            } else {
                DateKey::from_days(day as i32)
            },
            None => None,
        }
    }

    /// Whether this day comes before `other`.
    pub fn is_before(&self, other: &DateKey) -> (b: bool)
        ensures
            b == (self@ < other@),
    {
        self.days < other.days
    }

    /// Whether this day is `other`.
    pub fn is_same(&self, other: &DateKey) -> (b: bool)
        ensures
            b == (self@ == other@),
    {
        self.days == other.days
    }
}

/// What a journal file is identified by, as a mathematical value.
pub enum KeyView {
    /// The file of the day with this number.
    Day(int),
    /// The undated bucket.
    Later,
}

/// What a journal file is identified by: a day, or the undated bucket.
#[derive(Clone, Copy, Debug, PartialEq, Eq, Structural)]
pub enum FileKey {
    /// The file of one day.
    Day(DateKey),
    /// The undated bucket, for tasks that belong to no day.
    Later,
}

impl View for FileKey {
    type V = KeyView;

    open spec fn view(&self) -> KeyView {
        match self {
            FileKey::Day(d) => KeyView::Day(d@),
            FileKey::Later => KeyView::Later,
        }
    }
}

/// The name of the undated bucket.
pub open spec fn later_name() -> Seq<char> {
    "later"@
}

/// The name of a file without its extension: the day as `YYYY-MM-DD`, or
/// the reserved name of the undated bucket.
pub open spec fn name_of(key: KeyView) -> Seq<char> {
    match key {
        KeyView::Day(d) => text_of_day(d),
        KeyView::Later => later_name(),
    }
}

/// The key that a name stands for: the undated bucket for its reserved
/// name, a day for a name that reads as one, else none.
pub open spec fn key_named(name: Seq<char>) -> Option<KeyView> {
    if name == later_name() {
        Some(KeyView::Later)
    } else {
        match day_named(name) {
            Some(d) => Some(KeyView::Day(d)),
            None => None,
        }
    }
}

/// The extension of a journal file.
pub open spec fn extension() -> Seq<char> {
    ".md"@
}

/// The key of the file with the given name: the key that the name stands
/// for once its extension is taken off. A name without the extension has
/// none.
pub open spec fn key_of_file_name(file_name: Seq<char>) -> Option<KeyView> {
    if ends_with(file_name, extension()) {
        key_named(file_name.take(file_name.len() - extension().len()))
    } else {
        None
    }
}

/// The first line of the file with the given key.
pub open spec fn title_of(key: KeyView) -> Seq<char> {
    "# "@ + name_of(key)
}

impl FileKey {
    /// Whether two keys name the same file.
    pub fn is_same(&self, other: &FileKey) -> (b: bool)
        ensures
            b == (self@ == other@),
    {
        match (self, other) {
            (FileKey::Day(a), FileKey::Day(b)) => a.is_same(b),
            (FileKey::Later, FileKey::Later) => true,
            _ => false,
        }
    }

    /// The name of the file without its extension.
    pub fn name(&self) -> (r: String)
        ensures
            r@ == name_of(self@),
    {
        match self {
            FileKey::Day(d) => d.text(),
            FileKey::Later => String::from_str("later"),
        }
    }

    /// The key that `name` stands for, if it stands for one.
    pub fn named(name: &str) -> (r: Option<FileKey>)
        ensures
            match r {
                Some(k) => key_named(name@) == Some(k@),
                None => key_named(name@) is None,
            },
    {
        if same_text(name, "later") {
            Some(FileKey::Later)
        } else {
            match DateKey::parse(name) {
                Some(d) => Some(FileKey::Day(d)),
                None => None,
            }
        }
    }

    /// The name of the file on disk: the name and the extension.
    pub fn file_name(&self) -> (r: String)
        ensures
            r@ == name_of(self@) + extension(),
    {
        let mut r = self.name();
        r.append(".md");
        r
    }

    /// The key of the file with the given name on disk, if it is the name of
    /// a journal file.
    pub fn of_file_name(file_name: &str) -> (r: Option<FileKey>)
        ensures
            match r {
                Some(k) => key_of_file_name(file_name@) == Some(k@),
                None => key_of_file_name(file_name@) is None,
            },
    {
        let n = file_name.unicode_len();
        let m = ".md".unicode_len();
        if n < m {
            return None;
        }
        if !same_text(file_name.substring_char(n - m, n), ".md") {
            assert(file_name@.subrange(n - m, n as int) =~= file_name@.skip(n - m));
            return None;
        }
        assert(file_name@.subrange(n - m, n as int) =~= file_name@.skip(n - m));
        assert(file_name@.subrange(0, n - m) =~= file_name@.take(n - m));
        FileKey::named(file_name.substring_char(0, n - m))
    }

    /// The first line of the file: `# ` and the name.
    pub fn title_line(&self) -> (r: String)
        ensures
            r@ == title_of(self@),
    {
        let mut r = String::from_str("# ");
        let name = self.name();
        r.append(name.as_str());
        r
    }
}

} // verus!
