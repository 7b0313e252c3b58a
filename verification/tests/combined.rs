use doto::combined::{
    aggregate, file_is_titled, open_week, split, split_step, DateWindow, LineAction, SplitError, SplitState,
    UnknownTitle,
};
use doto::content::{join_lines, split_lines};
use doto::date::{DateKey, FileKey};
use doto::journal::JournalFile;

fn day(text: &str) -> DateKey {
    DateKey::parse(text).unwrap()
}

fn lines(texts: &[&str]) -> Vec<String> {
    texts.iter().map(|t| t.to_string()).collect()
}

fn file(name: &str, texts: &[&str]) -> JournalFile {
    JournalFile { key: FileKey::named(name).unwrap(), lines: lines(texts) }
}

fn week(anchor: &str) -> DateWindow {
    DateWindow::week(day(anchor))
}

#[test]
fn a_window_begins_before_and_ends_after_its_anchor() {
    let w = DateWindow::around(day("2024-02-09"), 4, 3);
    assert_eq!(w.first, 738921);
    assert_eq!(w.end, 738928);
    assert!(!w.contains(day("2024-02-04")));
    assert!(w.contains(day("2024-02-05")));
    assert!(w.contains(day("2024-02-09")));
    assert!(w.contains(day("2024-02-11")));
    assert!(!w.contains(day("2024-02-12")));
}

#[test]
fn a_window_of_no_days() {
    let w = DateWindow::around(day("2024-02-09"), 0, 0);
    assert_eq!(w.first, w.end);
    assert!(!w.contains(day("2024-02-09")));
    let journal = vec![file("2024-02-09", &["# 2024-02-09", "a"]), file("later", &["# later"])];
    assert_eq!(aggregate(&journal, w), lines(&["# later"]));
}

#[test]
fn only_the_day_that_has_a_file_is_in_the_buffer() {
    let journal = vec![
        file("2024-02-09", &["# 2024-02-09", "- [ ] write"]),
        file("later", &["# later", "- [ ] some day"]),
    ];
    let window = DateWindow::around(day("2024-02-09"), 1, 2);
    assert!(window.contains(day("2024-02-08")));
    assert!(window.contains(day("2024-02-10")));
    assert_eq!(
        aggregate(&journal, window),
        lines(&["# 2024-02-09", "- [ ] write", "---", "# later", "- [ ] some day"])
    );
}

#[test]
fn days_come_in_the_order_of_the_calendar() {
    let journal = vec![
        file("2024-02-10", &["# 2024-02-10", "c"]),
        file("later", &["# later"]),
        file("2024-02-08", &["# 2024-02-08", "a"]),
        file("2024-02-09", &["# 2024-02-09", "b"]),
        file("2024-03-09", &["# 2024-03-09", "out of the window"]),
        file("2024-02-04", &["# 2024-02-04", "a day too early"]),
        file("2024-02-12", &["# 2024-02-12", "a day too late"]),
    ];
    assert_eq!(
        aggregate(&journal, week("2024-02-09")),
        lines(&[
            "# 2024-02-08", "a", "---", "# 2024-02-09", "b", "---", "# 2024-02-10", "c", "---",
            "# later",
        ])
    );
}

#[test]
fn an_empty_file_leaves_no_trace() {
    let journal = vec![file("2024-02-09", &[]), file("later", &["# later"])];
    assert_eq!(aggregate(&journal, week("2024-02-09")), lines(&["# later"]));
}

#[test]
fn a_missing_bucket_shows_its_title() {
    let journal = vec![file("2024-02-09", &["# 2024-02-09"])];
    assert_eq!(aggregate(&journal, week("2024-02-09")), lines(&["# 2024-02-09", "---", "# later"]));
    assert_eq!(aggregate(&vec![], week("2024-02-09")), lines(&["# later"]));
}

#[test]
fn an_empty_bucket_shows_nothing() {
    let journal = vec![file("later", &[])];
    assert_eq!(aggregate(&journal, week("2024-02-09")), lines(&[]));
}

#[test]
fn splitting_what_was_put_together_gives_the_files_back() {
    let journal = vec![
        file("2024-02-10", &["# 2024-02-10", "- [ ] c", "", "  text  "]),
        file("later", &["# later", "- [ ] some day"]),
        file("2024-02-08", &["# 2024-02-08", "- [x] a"]),
        file("2024-02-09", &["# 2024-02-09"]),
        file("2024-01-01", &["# 2024-01-01", "not shown"]),
    ];
    let buffer = aggregate(&journal, week("2024-02-09"));
    assert_eq!(
        split(&buffer),
        Ok(vec![journal[2].clone(), journal[3].clone(), journal[0].clone(), journal[1].clone()])
    );
}

#[test]
fn a_new_title_makes_a_new_file() {
    let buffer = lines(&[
        "# 2024-02-09", "- [ ] a", "---", "# 2024-03-01", "- [ ] plan the trip", "notes", "---",
        "# later", "- [ ] some day",
    ]);
    assert_eq!(
        split(&buffer),
        Ok(vec![
            file("2024-02-09", &["# 2024-02-09", "- [ ] a"]),
            file("2024-03-01", &["# 2024-03-01", "- [ ] plan the trip", "notes"]),
            file("later", &["# later", "- [ ] some day"]),
        ])
    );
}

#[test]
fn without_its_title_a_day_merges_into_the_day_before() {
    let buffer = lines(&["# 2024-02-08", "a", "---", "b", "---", "# later"]);
    assert_eq!(
        split(&buffer),
        Ok(vec![file("2024-02-08", &["# 2024-02-08", "a", "b"]), file("later", &["# later"])])
    );
}

#[test]
fn lines_before_the_first_title_are_in_no_file() {
    let buffer = lines(&["stray", "- [ ] lost", "---", "# 2024-02-08", "a"]);
    assert_eq!(split(&buffer), Ok(vec![file("2024-02-08", &["# 2024-02-08", "a"])]));
}

#[test]
fn only_the_exact_line_is_a_separator() {
    let buffer = lines(&["# 2024-02-08", "---", " ---", "--- ", "----", "--"]);
    assert_eq!(
        split(&buffer),
        Ok(vec![file("2024-02-08", &["# 2024-02-08", " ---", "--- ", "----", "--"])])
    );
}

#[test]
fn a_title_that_names_no_file_fails_the_split() {
    let buffer = lines(&["# 2024-02-08", "a", "# shopping", "b", "# also wrong"]);
    assert_eq!(split(&buffer), Err(SplitError::UnknownTitle { line: 2 }));
    assert_eq!(split(&lines(&["# 2024-02-30"])), Err(SplitError::UnknownTitle { line: 0 }));
    assert_eq!(split(&lines(&["", "  # nothing"])), Err(SplitError::UnknownTitle { line: 1 }));
}

#[test]
fn a_file_that_is_named_again_goes_on() {
    let buffer = lines(&["# 2024-02-08", "a", "# later", "x", "# 2024-02-08", "b"]);
    assert_eq!(
        split(&buffer),
        Ok(vec![
            file("2024-02-08", &["# 2024-02-08", "a", "# 2024-02-08", "b"]),
            file("later", &["# later", "x"]),
        ])
    );
}

#[test]
fn the_name_in_a_title_is_trimmed() {
    let buffer = lines(&["  #   2024-02-08  ", "a", "# # later", "b"]);
    assert_eq!(
        split(&buffer),
        Ok(vec![
            file("2024-02-08", &["  #   2024-02-08  ", "a"]),
            file("later", &["# # later", "b"]),
        ])
    );
}

#[test]
fn an_empty_buffer_splits_into_no_files() {
    assert_eq!(split(&lines(&[])), Ok(vec![]));
    assert_eq!(split(&lines(&["---", "text"])), Ok(vec![]));
}

#[test]
fn steps_of_the_splitter() {
    let d = FileKey::Day(day("2024-02-08"));
    assert_eq!(split_step(SplitState::Idle, "text"), Ok((SplitState::Idle, LineAction::Skip)));
    assert_eq!(split_step(SplitState::Idle, "---"), Ok((SplitState::Idle, LineAction::Skip)));
    assert_eq!(
        split_step(SplitState::Idle, "# 2024-02-08"),
        Ok((SplitState::InDestination(d), LineAction::Open(d)))
    );
    assert_eq!(
        split_step(SplitState::InDestination(d), "text"),
        Ok((SplitState::InDestination(d), LineAction::Write))
    );
    assert_eq!(
        split_step(SplitState::InDestination(d), "---"),
        Ok((SplitState::InDestination(d), LineAction::Skip))
    );
    assert_eq!(
        split_step(SplitState::InDestination(d), "# later"),
        Ok((SplitState::InDestination(FileKey::Later), LineAction::Open(FileKey::Later)))
    );
    assert_eq!(split_step(SplitState::InDestination(d), "# nowhere"), Err(UnknownTitle));
    assert_eq!(split_step(SplitState::Idle, "# nowhere"), Err(UnknownTitle));
}

#[test]
fn a_new_file_is_titled() {
    for name in ["later", "2024-02-08", "1999-12-31", "0001-01-01", "2024-02-29"] {
        let key = FileKey::named(name).unwrap();
        assert!(file_is_titled(&JournalFile { key, lines: vec![key.title_line()] }));
    }
}

#[test]
fn titled_files() {
    assert!(file_is_titled(&file("2024-02-08", &["# 2024-02-08", "- [ ] a", "", "text"])));
    assert!(file_is_titled(&file("2024-02-08", &["# 2024-02-08", "a", "# 2024-02-08", "b"])));
    assert!(file_is_titled(&file("later", &["  # later  "])));
}

#[test]
fn files_that_are_not_titled() {
    assert!(!file_is_titled(&file("2024-02-08", &[])));
    assert!(!file_is_titled(&file("2024-02-08", &["- [ ] a"])));
    assert!(!file_is_titled(&file("2024-02-08", &["# 2024-02-09"])));
    assert!(!file_is_titled(&file("2024-02-08", &["# later"])));
    assert!(!file_is_titled(&file("2024-02-08", &["# 2024-02-08", "---"])));
    assert!(!file_is_titled(&file("2024-02-08", &["# 2024-02-08", "a", "# 2024-02-09"])));
    assert!(!file_is_titled(&file("2024-02-08", &["# 2024-02-08", "# shopping"])));
    assert!(!file_is_titled(&file("2024-02-08", &["---", "# 2024-02-08"])));
}

#[test]
fn the_files_of_a_split_are_titled() {
    let buffer = lines(&[
        "stray", "# 2024-02-08", "a", "---", "# later", "x", "# 2024-02-08", "b", "---", "# 2024-03-01",
    ]);
    let files = split(&buffer).unwrap();
    assert_eq!(files.len(), 3);
    for f in &files {
        assert!(file_is_titled(f));
    }
}

#[test]
fn the_week_that_is_shown() {
    assert_eq!(DateWindow::week(day("2024-02-09")), DateWindow::around(day("2024-02-09"), 4, 3));
    let journal = vec![
        file("2024-02-04", &["# 2024-02-04", "too early"]),
        file("2024-02-05", &["# 2024-02-05", "first"]),
        file("2024-02-11", &["# 2024-02-11", "last"]),
        file("2024-02-12", &["# 2024-02-12", "too late"]),
        file("later", &["# later"]),
    ];
    assert_eq!(
        open_week(&journal, day("2024-02-09")),
        lines(&["# 2024-02-05", "first", "---", "# 2024-02-11", "last", "---", "# later"])
    );
}

#[test]
fn the_round_trip_gives_the_bytes_back() {
    let contents = [
        ("2024-02-08", "# 2024-02-08\n- [x] a\n\n  text  \n"),
        ("2024-02-09", "# 2024-02-09\n"),
        ("later", "# later\n- [ ] some day\n"),
    ];
    let journal: Vec<JournalFile> = contents
        .iter()
        .map(|(name, content)| JournalFile {
            key: FileKey::named(name).unwrap(),
            lines: split_lines(content),
        })
        .collect();
    let staged = join_lines(&aggregate(&journal, week("2024-02-09")));
    assert_eq!(
        staged,
        "# 2024-02-08\n- [x] a\n\n  text  \n---\n# 2024-02-09\n---\n# later\n- [ ] some day\n"
    );
    let files = split(&split_lines(&staged)).unwrap();
    assert_eq!(files.len(), 3);
    for (file, (name, content)) in files.iter().zip(contents.iter()) {
        assert_eq!(file.key, FileKey::named(name).unwrap());
        assert_eq!(join_lines(&file.lines), *content);
    }
}
