//! Which file is asked for.
//!
//! A file is asked for by the name of the undated bucket, by a word for a
//! day near today (`today`, `yesterday`, `tomorrow`, a day of the week), or
//! by a date of which the year, or the year and the month, may be left
//! out.

use crate::date::{
    day_if_any, day_named, month_of, weekday_of, year_of, DateKey, FileKey, KeyView,
};
use crate::text::{
    count_char, count_of, decimal, decimal_of, is_word, lowercase_of, lowered, same_text,
    text_is_word,
};
use vstd::prelude::*;

verus! {

/// How many days from today a word for a near day is: 0 for today, -1 for
/// yesterday, 1 for tomorrow.
pub open spec fn near_day(word: Seq<char>) -> Option<int> {
    if word == "now"@ || word == "t"@ || word == "today"@ {
        Some(0)
    } else if word == "prev"@ || word == "yes"@ || word == "yesterday"@ {
        Some(-1)
    } else if word == "next"@ || word == "tom"@ || word == "tomorrow"@ {
        Some(1)
    } else {
        None
    }
}

/// The number of the day of the week that a word names: 0 for Monday up
/// to 6 for Sunday.
pub open spec fn weekday_named(word: Seq<char>) -> Option<int> {
    if word == "mon"@ || word == "monday"@ {
        Some(0)
    } else if word == "tue"@ || word == "tuesday"@ {
        Some(1)
    } else if word == "wed"@ || word == "wednesday"@ {
        Some(2)
    } else if word == "thu"@ || word == "thursday"@ {
        Some(3)
    } else if word == "fri"@ || word == "friday"@ {
        Some(4)
    } else if word == "sat"@ || word == "saturday"@ {
        Some(5)
    } else if word == "sun"@ || word == "sunday"@ {
        Some(6)
    } else {
        None
    }
}

/// How many days from today the day of the week with number `target` is
/// taken to be: back to the Tuesday on or before today, then on to the
/// day of the week, with Monday as the last day of that week.
pub open spec fn weekday_offset(today: int, target: int) -> int {
    (target + 6) % 7 - (weekday_of(today) + 6) % 7
}

/// The day that a word names, seen from `today`.
pub open spec fn day_of_word(word: Seq<char>, today: int) -> Option<int> {
    match near_day(word) {
        Some(offset) => day_if_any(today + offset),
        None => match weekday_named(word) {
            Some(target) => day_if_any(today + weekday_offset(today, target)),
            None => None,
        },
    }
}

/// A date in full: a date of three parts as it is; one of two parts with
/// the year of `today` before it; one of one part with the year and the
/// month of `today` before it. A text of more parts is no date.
pub open spec fn full_date(text: Seq<char>, today: int) -> Option<Seq<char>> {
    let dashes = count_of(text, '-');
    if dashes == 2 {
        Some(text)
    } else if dashes == 1 {
        Some(decimal_of(year_of(today)) + "-"@ + text)
    } else if dashes == 0 {
        Some(decimal_of(year_of(today)) + "-"@ + decimal_of(month_of(today)) + "-"@ + text)
    } else {
        None
    }
}

/// The day that is asked for by `text`, seen from `today`: a text of
/// letters only is read as a word in lower case, any other text as a
/// date.
pub open spec fn day_asked(text: Seq<char>, today: int) -> Option<int> {
    if is_word(text) {
        day_of_word(lowercase_of(text), today)
    } else {
        match full_date(text, today) {
            Some(date) => day_named(date),
            None => None,
        }
    }
}

/// The file that is asked for by `text`, seen from `today`: the undated
/// bucket for its name, else the file of the day that is asked for.
pub open spec fn file_asked(text: Seq<char>, today: int) -> Option<KeyView> {
    if text == "later"@ {
        Some(KeyView::Later)
    } else {
        match day_asked(text, today) {
            Some(day) => Some(KeyView::Day(day)),
            None => None,
        }
    }
}

/// Whether `word` is one of three words.
fn is_one_of(word: &str, a: &str, b: &str, c: &str) -> (r: bool)
    ensures
        r == (word@ == a@ || word@ == b@ || word@ == c@),
{
    same_text(word, a) || same_text(word, b) || same_text(word, c)
}

/// How many days from today a word for a near day is.
fn near_day_of(word: &str) -> (r: Option<i64>)
    ensures
        match r {
            Some(offset) => near_day(word@) == Some(offset as int),
            None => near_day(word@) is None,
        },
{
    if is_one_of(word, "now", "t", "today") {
        Some(0)
    } else if is_one_of(word, "prev", "yes", "yesterday") {
        Some(-1)
    } else if is_one_of(word, "next", "tom", "tomorrow") {
        Some(1)
    } else {
        None
    }
}

/// The number of the day of the week that a word names.
fn weekday_named_by(word: &str) -> (r: Option<u32>)
    ensures
        match r {
            Some(target) => weekday_named(word@) == Some(target as int) && target < 7,
            None => weekday_named(word@) is None,
        },
{
    if is_one_of(word, "mon", "monday", "monday") {
        Some(0)
    } else if is_one_of(word, "tue", "tuesday", "tuesday") {
        Some(1)
    } else if is_one_of(word, "wed", "wednesday", "wednesday") {
        Some(2)
    } else if is_one_of(word, "thu", "thursday", "thursday") {
        Some(3)
    } else if is_one_of(word, "fri", "friday", "friday") {
        Some(4)
    } else if is_one_of(word, "sat", "saturday", "saturday") {
        Some(5)
    } else if is_one_of(word, "sun", "sunday", "sunday") {
        Some(6)
    } else {
        None
    }
}

/// The day that is asked for by `date`, seen from `today`, if the text
/// asks for one.
pub fn parse_day_string(date: &str, today: DateKey) -> (r: Option<DateKey>)
    ensures
        match r {
            Some(day) => day_asked(date@, today@) == Some(day@),
            None => day_asked(date@, today@) is None,
        },
{
    if text_is_word(date) {
        let word = lowered(date);
        match near_day_of(word.as_str()) {
            Some(offset) => today.shifted(offset),
            None => match weekday_named_by(word.as_str()) {
                Some(target) => {
                    let back = (today.weekday() + 6) % 7;
                    let on = (target + 6) % 7;
                    today.shifted(on as i64 - back as i64)
                },
                None => None,
            },
        }
    } else {
        let dashes = count_char(date, '-');
        if dashes > 2 {
            return None;
        }
        let mut full = String::new();
        if dashes < 2 {
            let year = decimal(today.year() as i64);
            full.append(year.as_str());
            full.append("-");
        }
        if dashes < 1 {
            let month = decimal(today.month() as i64);
            full.append(month.as_str());
            full.append("-");
        }
        full.append(date);
        assert(Some(full@) =~= full_date(date@, today@)) by {
            assert(full_date(date@, today@) is Some);
            assert(full@ =~= full_date(date@, today@)->0);
        }
        DateKey::parse(full.as_str())
    }
}

/// The file to open for what was asked: the undated bucket for `later`,
/// else the file of the day that `date` asks for, seen from `today`.
/// `None` says that `date` asks for no day.
pub fn open_date(date: String, today: DateKey) -> (r: Option<FileKey>)
    ensures
        match r {
            Some(key) => file_asked(date@, today@) == Some(key@),
            None => file_asked(date@, today@) is None,
        },
{
    if same_text(date.as_str(), "later") {
        Some(FileKey::Later)
    } else {
        match parse_day_string(date.as_str(), today) {
            Some(day) => Some(FileKey::Day(day)),
            None => None,
        }
    }
}

} // verus!
