//! What a line of a journal file is: a task in one of three states, a note,
//! a title, or anything else.
//!
//! A line is classified by the marker it begins with once the white space
//! at both ends is set aside.

use crate::text::{chars_of, has_prefix_within, starts_with, trim, trim_bounds};
use vstd::prelude::*;

verus! {

/// The kind of a line.
#[derive(Clone, Copy, Debug, PartialEq, Eq, Structural)]
pub enum Kind {
    /// A task that is still to do: `- [ ]` or `- []`.
    OpenTask,
    /// A task that is done: `- [x]` or `- [X]`.
    DoneTask,
    /// A task that was moved to a later day: `- [>]`.
    RescheduledTask,
    /// Any other list item: `- `.
    Note,
    /// A title: `# `.
    TitleHeader,
    /// Anything else.
    Other,
}

/// Whether the trimmed line begins with the marker of an open task.
pub open spec fn is_todo(line: Seq<char>) -> bool {
    starts_with(trim(line), "- [ ]"@) || starts_with(trim(line), "- []"@)
}

/// Whether the trimmed line begins with the marker of a finished task.
pub open spec fn is_completed_todo(line: Seq<char>) -> bool {
    starts_with(trim(line), "- [x]"@) || starts_with(trim(line), "- [X]"@)
}

/// Whether the trimmed line begins with the marker of a rescheduled task.
pub open spec fn is_rescheduled_todo(line: Seq<char>) -> bool {
    starts_with(trim(line), "- [>]"@)
}

/// Whether the trimmed line begins with the marker of a list item. Every
/// task line is a list item; a list item that is no task is a note.
pub open spec fn is_list_item(line: Seq<char>) -> bool {
    starts_with(trim(line), "- "@)
}

/// Whether the trimmed line begins with the marker of a title.
pub open spec fn is_title(line: Seq<char>) -> bool {
    starts_with(trim(line), "# "@)
}

/// The kind of `line`: the first marker in the order open, done,
/// rescheduled, note, title that the trimmed line begins with.
pub open spec fn kind_of(line: Seq<char>) -> Kind {
    if is_todo(line) {
        Kind::OpenTask
    } else if is_completed_todo(line) {
        Kind::DoneTask
    } else if is_rescheduled_todo(line) {
        Kind::RescheduledTask
    } else if is_list_item(line) {
        Kind::Note
    } else if is_title(line) {
        Kind::TitleHeader
    } else {
        Kind::Other
    }
}

/// Each marker stands for one kind, and no line begins with the markers
/// of two kinds: a line is an open, done or rescheduled task, or a title,
/// exactly if it begins with that marker, and it is a list item exactly if
/// it is a task in any state or a note.
pub proof fn lemma_list_items(line: Seq<char>)
    ensures
        is_todo(line) <==> kind_of(line) == Kind::OpenTask,
        is_completed_todo(line) <==> kind_of(line) == Kind::DoneTask,
        is_rescheduled_todo(line) <==> kind_of(line) == Kind::RescheduledTask,
        is_title(line) <==> kind_of(line) == Kind::TitleHeader,
        is_list_item(line) <==> kind_of(line) == Kind::OpenTask || kind_of(line) == Kind::DoneTask
            || kind_of(line) == Kind::RescheduledTask || kind_of(line) == Kind::Note,
{
    reveal_strlit("- [ ]");
    reveal_strlit("- []");
    reveal_strlit("- [x]");
    reveal_strlit("- [X]");
    reveal_strlit("- [>]");
    reveal_strlit("- ");
    reveal_strlit("# ");
    let t = trim(line);
    let dash = "- "@;
    assert forall|p: Seq<char>| #[trigger]
        starts_with(t, p) && p.len() >= 2 && p[0] == '-' && p[1] == ' ' implies starts_with(
        t,
        dash,
    ) by {
        assert(t.take(2) =~= p.take(2));
        assert(p.take(2) =~= dash);
    }
    if is_list_item(line) && is_title(line) {
        assert(t.take(2)[0] == '-');
        assert(t.take(2)[0] == '#');
    }
    if is_todo(line) {
        assert(t[3] == ' ' || t[3] == ']') by {
            if starts_with(t, "- [ ]"@) {
                assert(t.take(5)[3] == ' ');
            } else {
                assert(t.take(4)[3] == ']');
            }
        }
    }
    if is_completed_todo(line) {
        assert(t[3] == 'x' || t[3] == 'X') by {
            if starts_with(t, "- [x]"@) {
                assert(t.take(5)[3] == 'x');
            } else {
                assert(t.take(5)[3] == 'X');
            }
        }
    }
    if is_rescheduled_todo(line) {
        assert(t.take(5)[3] == '>');
    }
}

/// Whether the trimmed line begins with one of two markers.
fn begins_with_either(line: &str, first: &str, second: &str) -> (b: bool)
    ensures
        b == (starts_with(trim(line@), first@) || starts_with(trim(line@), second@)),
{
    let chars = chars_of(line);
    let (from, to) = trim_bounds(&chars);
    has_prefix_within(&chars, from, to, first) || has_prefix_within(&chars, from, to, second)
}

/// Whether the line is a task that is still to do.
pub fn line_is_todo(l: &str) -> (b: bool)
    ensures
        b == (kind_of(l@) == Kind::OpenTask),
        b == is_todo(l@),
{
    begins_with_either(l, "- [ ]", "- []")
}

/// Whether the line is a task that is done.
pub fn line_is_completed_todo(l: &str) -> (b: bool)
    ensures
        b == (kind_of(l@) == Kind::DoneTask),
        b == is_completed_todo(l@),
{
    proof {
        lemma_list_items(l@);
    }
    begins_with_either(l, "- [x]", "- [X]")
}

/// Whether the line is a task that was moved to a later day.
pub fn line_is_rescheduled_todo(l: &str) -> (b: bool)
    ensures
        b == (kind_of(l@) == Kind::RescheduledTask),
        b == is_rescheduled_todo(l@),
{
    proof {
        lemma_list_items(l@);
    }
    begins_with_either(l, "- [>]", "- [>]")
}

/// Whether the line is a note: a list item that is no task in any state.
pub fn line_is_note(l: &str) -> (b: bool)
    ensures
        b == (kind_of(l@) == Kind::Note),
{
    match classify(l) {
        Kind::Note => true,
        _ => false,
    }
}

/// The kind of a line. Every line has exactly one.
pub fn classify(line: &str) -> (k: Kind)
    ensures
        k == kind_of(line@),
{
    let chars = chars_of(line);
    let (from, to) = trim_bounds(&chars);
    if has_prefix_within(&chars, from, to, "- [ ]") || has_prefix_within(&chars, from, to, "- []") {
        Kind::OpenTask
    } else if has_prefix_within(&chars, from, to, "- [x]") || has_prefix_within(
        &chars,
        from,
        to,
        "- [X]",
    ) {
        Kind::DoneTask
    } else if has_prefix_within(&chars, from, to, "- [>]") {
        Kind::RescheduledTask
    } else if has_prefix_within(&chars, from, to, "- ") {
        Kind::Note
    } else if has_prefix_within(&chars, from, to, "# ") {
        Kind::TitleHeader
    } else {
        Kind::Other
    }
}

/// Whether the line is an open task.
pub fn is_open_task(line: &str) -> (b: bool)
    ensures
        b == (kind_of(line@) == Kind::OpenTask),
        b == is_todo(line@),
{
    line_is_todo(line)
}

} // verus!
