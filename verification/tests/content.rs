use doto::content::{join_lines, split_lines};

fn lines(texts: &[&str]) -> Vec<String> {
    texts.iter().map(|t| t.to_string()).collect()
}

#[test]
fn lines_of_a_content() {
    assert_eq!(split_lines(""), lines(&[]));
    assert_eq!(split_lines("a"), lines(&["a"]));
    assert_eq!(split_lines("a\n"), lines(&["a"]));
    assert_eq!(split_lines("a\nb"), lines(&["a", "b"]));
    assert_eq!(split_lines("a\n\nb\n"), lines(&["a", "", "b"]));
    assert_eq!(split_lines("\n"), lines(&[""]));
    assert_eq!(split_lines("\n\n"), lines(&["", ""]));
}

#[test]
fn a_carriage_return_before_a_line_feed_is_taken_with_it() {
    assert_eq!(split_lines("a\r\nb\r\n"), lines(&["a", "b"]));
    assert_eq!(split_lines("a\r\r\nb"), lines(&["a\r", "b"]));
    assert_eq!(split_lines("a\rb\n"), lines(&["a\rb"]));
    assert_eq!(split_lines("a\r"), lines(&["a\r"]));
    assert_eq!(split_lines("\r\n"), lines(&[""]));
}

#[test]
fn lines_agree_with_the_standard_library() {
    for content in [
        "", "\n", "\r", "\r\n", "a", "a\n", "a\r\n", "a\n\r", "a\r\nb\rc\n\nd", "# t\n- [ ] caf\u{e9}\n",
        "\n\n\n", "x\r\n\r\n", "\u{2028}a\n",
    ] {
        let expected: Vec<String> = content.lines().map(|l| l.to_string()).collect();
        assert_eq!(split_lines(content), expected);
    }
}

#[test]
fn the_content_of_lines() {
    assert_eq!(join_lines(&lines(&[])), "");
    assert_eq!(join_lines(&lines(&["a"])), "a\n");
    assert_eq!(join_lines(&lines(&["a", "", "b"])), "a\n\nb\n");
    assert_eq!(join_lines(&lines(&[""])), "\n");
}

#[test]
fn reading_what_was_written_gives_the_lines_back() {
    for texts in [vec![], vec![""], vec!["a"], vec!["# 2024-02-09", "- [ ] a", "", "  b  "], vec!["", ""]] {
        let written = join_lines(&lines(&texts));
        assert_eq!(split_lines(&written), lines(&texts));
    }
}

#[test]
fn writing_what_was_read_gives_the_content_back() {
    for content in ["", "\n", "a\n", "a\n\nb\n", "# 2024-02-09\n- [ ] caf\u{e9}\n", "\r\ra\rb\n", "\n\n"] {
        assert_eq!(join_lines(&split_lines(content)), content);
    }
}

#[test]
fn a_content_that_is_not_as_files_are_written_changes() {
    assert_eq!(join_lines(&split_lines("a")), "a\n");
    assert_eq!(join_lines(&split_lines("a\r\nb\r\n")), "a\nb\n");
}
