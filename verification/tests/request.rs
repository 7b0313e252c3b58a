use doto::date::{DateKey, FileKey};
use doto::request::{open_date, parse_day_string};

fn day(text: &str) -> DateKey {
    DateKey::parse(text).unwrap()
}

// a Friday
fn today() -> DateKey {
    day("2024-02-09")
}

#[test]
fn words_for_today() {
    for word in ["now", "t", "today", "Today", "NOW", "T"] {
        assert_eq!(parse_day_string(word, today()), Some(today()));
    }
}

#[test]
fn words_for_yesterday() {
    for word in ["prev", "yes", "yesterday", "Yesterday"] {
        assert_eq!(parse_day_string(word, today()), Some(day("2024-02-08")));
    }
}

#[test]
fn words_for_tomorrow() {
    for word in ["next", "tom", "tomorrow", "TOM"] {
        assert_eq!(parse_day_string(word, today()), Some(day("2024-02-10")));
    }
}

#[test]
fn days_of_the_week_seen_from_a_friday() {
    // the week runs from the Tuesday on or before today to the Monday after
    assert_eq!(parse_day_string("tue", today()), Some(day("2024-02-06")));
    assert_eq!(parse_day_string("wednesday", today()), Some(day("2024-02-07")));
    assert_eq!(parse_day_string("thu", today()), Some(day("2024-02-08")));
    assert_eq!(parse_day_string("fri", today()), Some(day("2024-02-09")));
    assert_eq!(parse_day_string("Sat", today()), Some(day("2024-02-10")));
    assert_eq!(parse_day_string("sunday", today()), Some(day("2024-02-11")));
    assert_eq!(parse_day_string("mon", today()), Some(day("2024-02-12")));
    assert_eq!(parse_day_string("MONDAY", today()), Some(day("2024-02-12")));
}

#[test]
fn days_of_the_week_seen_from_a_monday_and_a_tuesday() {
    let monday = day("2024-02-05");
    assert_eq!(parse_day_string("mon", monday), Some(monday));
    assert_eq!(parse_day_string("tue", monday), Some(day("2024-01-30")));
    assert_eq!(parse_day_string("sun", monday), Some(day("2024-02-04")));
    let tuesday = day("2024-02-06");
    assert_eq!(parse_day_string("tue", tuesday), Some(tuesday));
    assert_eq!(parse_day_string("mon", tuesday), Some(day("2024-02-12")));
}

#[test]
fn words_that_name_no_day() {
    for word in ["", "later", "soon", "tues", "todays", "mo"] {
        assert_eq!(parse_day_string(word, today()), None);
    }
}

#[test]
fn a_date_in_full() {
    assert_eq!(parse_day_string("2021-01-01", today()), Some(day("2021-01-01")));
    assert_eq!(parse_day_string("2024-02-29", today()), Some(day("2024-02-29")));
    assert_eq!(parse_day_string("2023-02-29", today()), None);
}

#[test]
fn a_date_without_its_year() {
    assert_eq!(parse_day_string("12-01", today()), Some(day("2024-12-01")));
    assert_eq!(parse_day_string("3-7", today()), Some(day("2024-03-07")));
    assert_eq!(parse_day_string("02-30", today()), None);
}

#[test]
fn a_date_without_its_year_and_month() {
    assert_eq!(parse_day_string("07", today()), Some(day("2024-02-07")));
    assert_eq!(parse_day_string("29", today()), Some(day("2024-02-29")));
    assert_eq!(parse_day_string("30", today()), None);
    assert_eq!(parse_day_string("7", day("1999-12-31")), Some(day("1999-12-07")));
}

#[test]
fn texts_that_are_no_dates() {
    for text in ["1-2-3-4", "----", "2024-02-0x", "7th", "-", "2024--02", "to day"] {
        assert_eq!(parse_day_string(text, today()), None);
    }
}

#[test]
fn the_file_to_open() {
    assert_eq!(open_date("later".to_string(), today()), Some(FileKey::Later));
    assert_eq!(open_date("today".to_string(), today()), Some(FileKey::Day(today())));
    assert_eq!(open_date("thu".to_string(), today()), Some(FileKey::Day(day("2024-02-08"))));
    assert_eq!(open_date("2021-01-01".to_string(), today()), Some(FileKey::Day(day("2021-01-01"))));
    assert_eq!(open_date("12-01".to_string(), today()), Some(FileKey::Day(day("2024-12-01"))));
    assert_eq!(open_date("07".to_string(), today()), Some(FileKey::Day(day("2024-02-07"))));
    assert_eq!(open_date("Later".to_string(), today()), None);
    assert_eq!(open_date("nonsense".to_string(), today()), None);
    assert_eq!(open_date("".to_string(), today()), None);
}
