use doto::line::{
    classify, is_open_task, line_is_completed_todo, line_is_note, line_is_rescheduled_todo,
    line_is_todo, Kind,
};

#[test]
fn open_task_markers() {
    assert_eq!(classify("- [ ] buy milk"), Kind::OpenTask);
    assert_eq!(classify("- [] buy milk"), Kind::OpenTask);
    assert_eq!(classify("- [ ]"), Kind::OpenTask);
    assert_eq!(classify("- []"), Kind::OpenTask);
    assert_eq!(classify("- [ ]buy milk"), Kind::OpenTask);
}

#[test]
fn done_task_markers() {
    assert_eq!(classify("- [x] buy milk"), Kind::DoneTask);
    assert_eq!(classify("- [X] buy milk"), Kind::DoneTask);
}

#[test]
fn rescheduled_task_marker() {
    assert_eq!(classify("- [>] (2024-02-10) buy milk"), Kind::RescheduledTask);
    assert_eq!(classify("- [>]"), Kind::RescheduledTask);
}

#[test]
fn other_bracket_states_are_notes() {
    assert_eq!(classify("- [?] maybe"), Kind::Note);
    assert_eq!(classify("- [-] dropped"), Kind::Note);
    assert_eq!(classify("- a plain note"), Kind::Note);
    assert_eq!(classify("- [  ] two spaces"), Kind::Note);
}

#[test]
fn titles() {
    assert_eq!(classify("# 2024-02-08"), Kind::TitleHeader);
    assert_eq!(classify("# later"), Kind::TitleHeader);
    assert_eq!(classify("  # indented"), Kind::TitleHeader);
}

#[test]
fn everything_else_is_other() {
    assert_eq!(classify(""), Kind::Other);
    assert_eq!(classify("   "), Kind::Other);
    assert_eq!(classify("plain text"), Kind::Other);
    assert_eq!(classify("---"), Kind::Other);
    assert_eq!(classify("-[ ] no space"), Kind::Other);
    assert_eq!(classify("#no space"), Kind::Other);
    assert_eq!(classify("## second level"), Kind::Other);
    assert_eq!(classify("* [ ] star"), Kind::Other);
}

#[test]
fn a_marker_of_only_a_dash_or_a_hash_is_other() {
    // the white space after the marker is trimmed away
    assert_eq!(classify("- "), Kind::Other);
    assert_eq!(classify("-"), Kind::Other);
    assert_eq!(classify("# "), Kind::Other);
    assert_eq!(classify("#   "), Kind::Other);
}

#[test]
fn leading_and_trailing_white_space_is_set_aside() {
    assert_eq!(classify("    - [ ] indented"), Kind::OpenTask);
    assert_eq!(classify("\t- [x] tabbed"), Kind::DoneTask);
    assert_eq!(classify("\u{a0}\u{2003}- [>] wide spaces"), Kind::RescheduledTask);
    assert_eq!(classify("\u{3000}- note\u{3000}"), Kind::Note);
    assert_eq!(classify("  - [ ]   "), Kind::OpenTask);
}

#[test]
fn characters_that_are_no_white_space_are_not_trimmed() {
    // zero width space and the byte order mark are no white space
    assert_eq!(classify("\u{200b}- [ ] task"), Kind::Other);
    assert_eq!(classify("\u{feff}- [ ] task"), Kind::Other);
}

#[test]
fn classify_gives_the_same_kind_each_time() {
    let lines = ["- [ ] a", "- [x] b", "- [>] c", "- d", "# e", "f", ""];
    for line in lines {
        assert_eq!(classify(line), classify(line));
    }
}

#[test]
fn is_open_task_agrees_with_classify() {
    let lines = ["- [ ] a", "  - [] b", "- [x] b", "- [>] c", "- d", "# e", "f", "", "- [ ]"];
    for line in lines {
        assert_eq!(is_open_task(line), classify(line) == Kind::OpenTask);
        assert_eq!(line_is_todo(line), classify(line) == Kind::OpenTask);
    }
}

#[test]
fn line_predicates() {
    assert!(line_is_todo("- [ ] a"));
    assert!(line_is_todo("   - [] a"));
    assert!(!line_is_todo("- [x] a"));
    assert!(!line_is_todo("a - [ ] b"));

    assert!(line_is_completed_todo("- [x] a"));
    assert!(line_is_completed_todo(" - [X] a"));
    assert!(!line_is_completed_todo("- [ ] a"));

    assert!(line_is_rescheduled_todo("- [>] (2024-01-01) a"));
    assert!(!line_is_rescheduled_todo("- [<] a"));

    assert!(line_is_note("- a"));
    assert!(!line_is_note("a"));
}

#[test]
fn a_task_line_is_no_note() {
    for line in ["- [ ] a", "- []a", "  - [] a", "- [x] a", "- [X] a", "- [>] a", "\t- [>] (2024-02-09) a"] {
        assert!(!line_is_note(line));
        assert!(line_is_todo(line) || line_is_completed_todo(line) || line_is_rescheduled_todo(line));
    }
    assert!(line_is_note("- [?] a"));
    assert!(line_is_note("- [  ] a"));
    assert!(line_is_note("  - a"));
    assert!(!line_is_note("- "));
    assert!(!line_is_note("# a"));
    assert!(!line_is_note(""));
}

#[test]
fn every_line_has_one_kind() {
    let lines = [
        "- [ ] a", "- [] a", "- [x] a", "- [X] a", "- [>] a", "- a", "- [?] a", "# a", "a", "", "---",
        "  - [ ] a  ", "- ",
    ];
    for line in lines {
        let kind = classify(line);
        assert_eq!(line_is_todo(line), kind == Kind::OpenTask);
        assert_eq!(line_is_completed_todo(line), kind == Kind::DoneTask);
        assert_eq!(line_is_rescheduled_todo(line), kind == Kind::RescheduledTask);
        assert_eq!(line_is_note(line), kind == Kind::Note);
        let told = [
            line_is_todo(line),
            line_is_completed_todo(line),
            line_is_rescheduled_todo(line),
            line_is_note(line),
        ];
        assert!(told.iter().filter(|t| **t).count() <= 1);
    }
}
