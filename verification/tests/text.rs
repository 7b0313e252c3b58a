use doto::text::{
    char_is_space, chars_of, count_char, decimal, has_prefix_within, same_text, text_is_word,
    trim_bounds, trim_within,
};

fn chars(text: &str) -> Vec<char> {
    text.chars().collect()
}

#[test]
fn white_space_is_what_unicode_says() {
    let mut seen = 0;
    for code in 0..=0x10FFFFu32 {
        if let Some(c) = char::from_u32(code) {
            assert_eq!(char_is_space(c), c.is_whitespace());
            if char_is_space(c) {
                seen += 1;
            }
        }
    }
    assert_eq!(seen, 25);
}

#[test]
fn the_characters_of_a_text() {
    assert_eq!(chars_of(""), chars(""));
    assert_eq!(chars_of("a\u{e9}\u{1f600}b"), vec!['a', '\u{e9}', '\u{1f600}', 'b']);
}

#[test]
fn trimming_agrees_with_the_standard_library() {
    for text in ["", " ", "a", " a", "a ", "  a b  ", "\t\u{a0}x\u{3000}\n", "   ", "\u{200b} a"] {
        let cs = chars(text);
        let (from, to) = trim_bounds(&cs);
        let part: String = cs[from..to].iter().collect();
        assert_eq!(part, text.trim());
        assert_eq!(from, text.chars().count() - text.trim_start().chars().count());
    }
}

#[test]
fn trimming_a_part_of_a_text() {
    let cs = chars("ab  cd  ef");
    assert_eq!(trim_within(&cs, 2, 8), (4, 6));
    assert_eq!(trim_within(&cs, 2, 4), (4, 4));
    assert_eq!(trim_within(&cs, 0, 10), (0, 10));
    assert_eq!(trim_within(&cs, 5, 5), (5, 5));
}

#[test]
fn prefixes_within_a_part() {
    let cs = chars("  - [ ] x");
    assert!(has_prefix_within(&cs, 2, 9, "- [ ]"));
    assert!(has_prefix_within(&cs, 2, 7, "- [ ]"));
    assert!(!has_prefix_within(&cs, 2, 6, "- [ ]"));
    assert!(!has_prefix_within(&cs, 0, 9, "- [ ]"));
    assert!(has_prefix_within(&cs, 0, 9, ""));
    assert!(has_prefix_within(&cs, 9, 9, ""));
    assert!(!has_prefix_within(&cs, 9, 9, "x"));
}

#[test]
fn same_texts() {
    assert!(same_text("", ""));
    assert!(same_text("later", "later"));
    assert!(!same_text("later", "Later"));
    assert!(!same_text("later", "late"));
    assert!(!same_text("late", "later"));
    assert!(same_text("\u{e9}", "\u{e9}"));
    assert!(!same_text("\u{e9}", "e\u{301}"));
}

#[test]
fn words_are_texts_of_letters() {
    assert!(text_is_word(""));
    assert!(text_is_word("today"));
    assert!(text_is_word("Montag\u{e4}"));
    assert!(!text_is_word("to day"));
    assert!(!text_is_word("07"));
    assert!(!text_is_word("mon-day"));
}

#[test]
fn counting_a_character() {
    assert_eq!(count_char("", '-'), 0);
    assert_eq!(count_char("2024-02-09", '-'), 2);
    assert_eq!(count_char("----", '-'), 4);
    assert_eq!(count_char("abc", '-'), 0);
}

#[test]
fn numbers_in_decimal() {
    assert_eq!(decimal(0), "0");
    assert_eq!(decimal(7), "7");
    assert_eq!(decimal(10), "10");
    assert_eq!(decimal(2024), "2024");
    assert_eq!(decimal(-1), "-1");
    assert_eq!(decimal(-308), "-308");
    assert_eq!(decimal(i64::MAX), i64::MAX.to_string());
    assert_eq!(decimal(i64::MIN), i64::MIN.to_string());
    for n in -1000..1000 {
        assert_eq!(decimal(n), n.to_string());
    }
}
