use doto::combined::file_is_titled;
use doto::date::{DateKey, FileKey};
use doto::journal::JournalFile;
use doto::line::{classify, Kind};
use doto::rollover::{carry_line, move_undone, reschedule_line, roll_lines};

fn day(text: &str) -> DateKey {
    DateKey::parse(text).unwrap()
}

fn lines(texts: &[&str]) -> Vec<String> {
    texts.iter().map(|t| t.to_string()).collect()
}

fn file(name: &str, texts: &[&str]) -> JournalFile {
    JournalFile { key: FileKey::named(name).unwrap(), lines: lines(texts) }
}

#[test]
fn an_open_task_keeps_its_indent_when_it_is_moved() {
    assert_eq!(reschedule_line("  - [ ] buy milk", "2024-02-10"), "  - [>] (2024-02-10) buy milk");
}

#[test]
fn an_open_task_without_indent() {
    assert_eq!(reschedule_line("- [ ] call dentist", "2024-02-09"), "- [>] (2024-02-09) call dentist");
}

#[test]
fn the_tight_marker_is_replaced_too() {
    assert_eq!(reschedule_line("- [] call dentist", "2024-02-09"), "- [>] (2024-02-09) call dentist");
    assert_eq!(reschedule_line("\t- [] x", "2024-02-09"), "\t- [>] (2024-02-09) x");
}

#[test]
fn only_one_space_after_the_marker_is_taken() {
    assert_eq!(reschedule_line("- [ ]   wide", "2024-02-09"), "- [>] (2024-02-09)   wide");
    assert_eq!(reschedule_line("- [ ]tight", "2024-02-09"), "- [>] (2024-02-09) tight");
    assert_eq!(reschedule_line("- [ ]\ttab", "2024-02-09"), "- [>] (2024-02-09) \ttab");
}

#[test]
fn an_open_task_that_says_nothing() {
    assert_eq!(reschedule_line("- [ ]", "2024-02-09"), "- [>] (2024-02-09) ");
    assert_eq!(reschedule_line("- [ ] ", "2024-02-09"), "- [>] (2024-02-09) ");
    assert_eq!(reschedule_line("  - []", "2024-02-09"), "  - [>] (2024-02-09) ");
}

#[test]
fn trailing_white_space_of_a_task_stays() {
    assert_eq!(reschedule_line(" - [ ] a  ", "2024-02-09"), " - [>] (2024-02-09) a  ");
}

#[test]
fn text_beyond_ascii_is_kept() {
    assert_eq!(
        reschedule_line("\u{3000}- [ ] caf\u{e9} \u{1f600}", "2024-02-09"),
        "\u{3000}- [>] (2024-02-09) caf\u{e9} \u{1f600}"
    );
}

#[test]
fn other_lines_are_not_changed() {
    for line in ["", "# 2024-02-08", "- [x] done", "- [>] (2024-02-01) moved", "- note", "text", "  "] {
        assert_eq!(reschedule_line(line, "2024-02-09"), line);
    }
}

#[test]
fn a_moved_task_is_a_rescheduled_task() {
    for line in ["- [ ] a", "  - [] b", "- [ ]", "\t- [ ] ", "- [ ]- [ ] twice"] {
        let moved = reschedule_line(line, "2024-02-09");
        assert_eq!(classify(&moved), Kind::RescheduledTask);
        assert_eq!(reschedule_line(&moved, "2024-02-09"), moved);
    }
}

#[test]
fn the_copy_of_a_task_names_the_day_it_came_from() {
    assert_eq!(carry_line("- [ ] call dentist", "2024-02-08"), "- [ ] call dentist (2024-02-08)");
    assert_eq!(carry_line("  - [] x", "2024-02-08"), "  - [] x (2024-02-08)");
}

#[test]
fn rolling_the_lines_of_one_day() {
    let rolled = roll_lines(
        &lines(&["# 2024-02-08", "- [ ] a", "- [x] b", "  - [] c", "note", "- [>] (2024-02-05) d"]),
        "2024-02-09",
        "2024-02-08",
    );
    assert_eq!(
        rolled.lines,
        lines(&[
            "# 2024-02-08",
            "- [>] (2024-02-09) a",
            "- [x] b",
            "  - [>] (2024-02-09) c",
            "note",
            "- [>] (2024-02-05) d",
        ])
    );
    assert_eq!(rolled.carried, lines(&["- [ ] a (2024-02-08)", "  - [] c (2024-02-08)"]));
}

#[test]
fn rolling_no_lines() {
    let rolled = roll_lines(&lines(&[]), "2024-02-09", "2024-02-08");
    assert_eq!(rolled.lines, lines(&[]));
    assert_eq!(rolled.carried, lines(&[]));
}

#[test]
fn one_open_task_of_yesterday_moves_to_today() {
    let journal = vec![
        file("2024-02-08", &["- [ ] call dentist"]),
        file("2024-02-09", &["# 2024-02-09"]),
    ];
    let outcome = move_undone(&journal, day("2024-02-09"));
    assert_eq!(outcome.count, 1);
    assert_eq!(
        outcome.files,
        vec![
            file("2024-02-08", &["- [>] (2024-02-09) call dentist"]),
            file("2024-02-09", &["# 2024-02-09", "- [ ] call dentist (2024-02-08)"]),
        ]
    );
}

#[test]
fn moving_a_second_time_moves_nothing() {
    let journal = vec![
        file("2024-02-07", &["# 2024-02-07", "  - [ ] a", "- [x] b", "- [] c"]),
        file("2024-02-08", &["# 2024-02-08", "- [ ] call dentist"]),
        file("2024-02-09", &["# 2024-02-09", "- [ ] already here"]),
        file("later", &["# later", "- [ ] some day"]),
    ];
    let first = move_undone(&journal, day("2024-02-09"));
    assert_eq!(first.count, 3);
    let second = move_undone(&first.files, day("2024-02-09"));
    assert_eq!(second.count, 0);
    assert_eq!(second.files, first.files);
}

#[test]
fn tasks_move_in_the_order_of_the_files_and_lines() {
    let journal = vec![
        file("2024-02-08", &["# 2024-02-08", "- [ ] b1", "- [ ] b2"]),
        file("2024-02-09", &["# 2024-02-09"]),
        file("2024-02-07", &["# 2024-02-07", "- [ ] a1"]),
    ];
    let outcome = move_undone(&journal, day("2024-02-09"));
    assert_eq!(outcome.count, 3);
    assert_eq!(
        outcome.files[1].lines,
        lines(&["# 2024-02-09", "- [ ] b1 (2024-02-08)", "- [ ] b2 (2024-02-08)", "- [ ] a1 (2024-02-07)"])
    );
    assert_eq!(outcome.files[2].lines, lines(&["# 2024-02-07", "- [>] (2024-02-09) a1"]));
}

#[test]
fn files_of_today_and_later_days_and_the_bucket_are_no_source() {
    let journal = vec![
        file("2024-02-09", &["# 2024-02-09", "- [ ] today"]),
        file("2024-02-10", &["# 2024-02-10", "- [ ] tomorrow"]),
        file("later", &["# later", "- [ ] some day"]),
    ];
    let outcome = move_undone(&journal, day("2024-02-09"));
    assert_eq!(outcome.count, 0);
    assert_eq!(outcome.files, journal);
}

#[test]
fn a_past_day_without_open_tasks_stays_as_it_is() {
    let journal = vec![
        file("2024-02-08", &["# 2024-02-08", "- [x] done", "note"]),
        file("2024-02-09", &["# 2024-02-09"]),
    ];
    let outcome = move_undone(&journal, day("2024-02-09"));
    assert_eq!(outcome.count, 0);
    assert_eq!(outcome.files, journal);
}

#[test]
fn todays_file_is_made_when_tasks_move_and_it_is_missing() {
    let journal = vec![file("2024-02-08", &["# 2024-02-08", "- [ ] a"])];
    let outcome = move_undone(&journal, day("2024-02-09"));
    assert_eq!(outcome.count, 1);
    assert_eq!(
        outcome.files,
        vec![
            file("2024-02-08", &["# 2024-02-08", "- [>] (2024-02-09) a"]),
            file("2024-02-09", &["# 2024-02-09", "- [ ] a (2024-02-08)"]),
        ]
    );
}

#[test]
fn todays_file_is_not_made_when_nothing_moves() {
    let journal = vec![file("2024-02-08", &["# 2024-02-08", "- [x] a"])];
    let outcome = move_undone(&journal, day("2024-02-09"));
    assert_eq!(outcome.count, 0);
    assert_eq!(outcome.files, journal);
}

#[test]
fn an_empty_journal() {
    let outcome = move_undone(&vec![], day("2024-02-09"));
    assert_eq!(outcome.count, 0);
    assert_eq!(outcome.files, vec![]);
}

#[test]
fn titled_files_stay_titled_when_tasks_move() {
    let journal = vec![
        file("2024-02-07", &["# 2024-02-07", "  - [ ] a", "- [x] b", "- [] c"]),
        file("2024-02-08", &["# 2024-02-08", "- [ ] call dentist"]),
    ];
    let outcome = move_undone(&journal, day("2024-02-09"));
    assert_eq!(outcome.files.len(), 3);
    for f in &outcome.files {
        assert!(file_is_titled(f));
    }
}

#[test]
fn the_copy_of_a_task_is_an_open_task() {
    for line in ["- [ ] a", "  - [] b", "- [ ]", "\t- [ ] "] {
        assert_eq!(classify(&carry_line(line, "2024-02-08")), Kind::OpenTask);
    }
}
