//! Rolling open tasks forward.
//!
//! Every open task of a past day is marked as rescheduled where it stands,
//! with the day it was moved to, and a copy of the task, still open and
//! marked with the day it came from, is added to today's file.

use crate::combined::{belongs, is_separator, is_titled, names};
use crate::date::{name_of, text_of_day, title_of, DateKey, FileKey, KeyView};
use crate::journal::{
    add_lines, copy_file, lemma_position_of, position_of, with_added, FileView, JournalFile,
};
use crate::line::{
    is_rescheduled_todo, is_title, is_todo, kind_of, lemma_list_items, line_is_todo, Kind,
};
use crate::text::{
    chars_of, has_prefix_within, is_space, leading_spaces, lemma_leading_spaces,
    lemma_leading_spaces_is, lemma_trailing_spaces, lemma_trailing_spaces_is,
    lemma_trim_is_subrange, starts_with, trailing_spaces, trim, trim_bounds, trim_start,
};
use vstd::prelude::*;

verus! {

/// The white space that a line begins with.
pub open spec fn indent_of(line: Seq<char>) -> Seq<char> {
    line.take(leading_spaces(line) as int)
}

/// The length of the marker of an open task: `- [ ]` or `- []`.
pub open spec fn marker_len(line: Seq<char>) -> nat {
    if starts_with(trim(line), "- [ ]"@) {
        5
    } else {
        4
    }
}

/// What an open task says: the line after its indent and marker, without
/// the one space that parts the marker from the text.
pub open spec fn task_text(line: Seq<char>) -> Seq<char> {
    let after = line.skip((leading_spaces(line) + marker_len(line)) as int);
    if after.len() > 0 && after[0] == ' ' {
        after.skip(1)
    } else {
        after
    }
}

/// An open task marked as moved to `today`: its indent, the marker
/// `- [>]`, the day in parentheses with one space on either side, and
/// what the task says.
pub open spec fn rescheduled(line: Seq<char>, today: Seq<char>) -> Seq<char> {
    indent_of(line) + "- [>] ("@ + today + ") "@ + task_text(line)
}

/// A line of a past day after rolling: an open task is marked as moved,
/// any other line stays as it is.
pub open spec fn rolled_line(line: Seq<char>, today: Seq<char>) -> Seq<char> {
    if is_todo(line) {
        rescheduled(line, today)
    } else {
        line
    }
}

/// The copy of an open task that goes to today's file: the line as it was,
/// then the day it came from in parentheses.
pub open spec fn carried(line: Seq<char>, origin: Seq<char>) -> Seq<char> {
    line + " ("@ + origin + ")"@
}

/// The lines of a past day after rolling: each line rolled, in order.
pub open spec fn rolled_lines(lines: Seq<Seq<char>>, today: Seq<char>) -> Seq<Seq<char>> {
    lines.map_values(|l: Seq<char>| rolled_line(l, today))
}

/// The open tasks among the lines, in order.
pub open spec fn open_tasks(lines: Seq<Seq<char>>) -> Seq<Seq<char>> {
    lines.filter(|l: Seq<char>| is_todo(l))
}

/// The copies that go to today's file: one for each open task, in order.
pub open spec fn carried_lines(lines: Seq<Seq<char>>, origin: Seq<char>) -> Seq<Seq<char>> {
    open_tasks(lines).map_values(|l: Seq<char>| carried(l, origin))
}

/// Rolling the lines up to and with `line` is rolling the lines before it
/// and then `line`.
pub proof fn lemma_roll_push(
    lines: Seq<Seq<char>>,
    line: Seq<char>,
    today: Seq<char>,
    origin: Seq<char>,
)
    ensures
        rolled_lines(lines.push(line), today) == rolled_lines(lines, today).push(
            rolled_line(line, today),
        ),
        open_tasks(lines.push(line)) == if is_todo(line) {
            open_tasks(lines).push(line)
        } else {
            open_tasks(lines)
        },
        carried_lines(lines.push(line), origin) == if is_todo(line) {
            carried_lines(lines, origin).push(carried(line, origin))
        } else {
            carried_lines(lines, origin)
        },
{
    lines.lemma_push_map_commute(|l: Seq<char>| rolled_line(l, today), line);
    lines.lemma_filter_push(line, |l: Seq<char>| is_todo(l));
    if is_todo(line) {
        open_tasks(lines).lemma_push_map_commute(|l: Seq<char>| carried(l, origin), line);
    }
}

/// Whether a file is one of a day before `today`. The undated bucket is
/// never past.
pub open spec fn is_past(key: KeyView, today: int) -> bool {
    match key {
        KeyView::Day(d) => d < today,
        KeyView::Later => false,
    }
}

/// A file after rolling: a file of a past day has its open tasks marked
/// as moved to `today`; any other file stays as it is.
pub open spec fn rolled_file(file: FileView, today: int) -> FileView {
    if is_past(file.key, today) {
        FileView { key: file.key, lines: rolled_lines(file.lines, text_of_day(today)) }
    } else {
        file
    }
}

/// The copies that a file gives to today's file: those of its open tasks,
/// marked with its name, where it is a file of a past day; else none.
pub open spec fn carried_from(file: FileView, today: int) -> Seq<Seq<char>> {
    if is_past(file.key, today) {
        carried_lines(file.lines, name_of(file.key))
    } else {
        Seq::empty()
    }
}

/// All files after rolling, in their order.
pub open spec fn rolled_files(files: Seq<FileView>, today: int) -> Seq<FileView> {
    files.map_values(|f: FileView| rolled_file(f, today))
}

/// All copies for today's file, file after file in the order of the files.
pub open spec fn carried_all(files: Seq<FileView>, today: int) -> Seq<Seq<char>> {
    files.flat_map(|f: FileView| carried_from(f, today))
}

/// The journal after the open tasks of all past days were moved to
/// `today`: the past days rolled, and the copies added at the end of
/// today's file. Where there is nothing to move, today's file is neither
/// changed nor made.
pub open spec fn moved_files(files: Seq<FileView>, today: int) -> Seq<FileView> {
    let extra = carried_all(files, today);
    if extra.len() == 0 {
        rolled_files(files, today)
    } else {
        with_added(rolled_files(files, today), KeyView::Day(today), extra)
    }
}

/// A task that was marked as moved keeps the indent of the open task, is a
/// rescheduled task, and is no longer an open one.
pub proof fn lemma_rescheduled_keeps_indent(line: Seq<char>, today: Seq<char>)
    ensures
        indent_of(rescheduled(line, today)) == indent_of(line),
        trim_start(rescheduled(line, today)) == "- [>] ("@ + today + ") "@ + task_text(line),
        kind_of(rescheduled(line, today)) == Kind::RescheduledTask,
        !is_todo(rescheduled(line, today)),
{
    reveal_strlit("- [>] (");
    reveal_strlit(") ");
    reveal_strlit("- [>]");
    reveal_strlit("- [ ]");
    reveal_strlit("- []");
    reveal_strlit("- [x]");
    reveal_strlit("- [X]");
    let r = rescheduled(line, today);
    let k = leading_spaces(line) as int;
    let body = "- [>] ("@ + today + ") "@ + task_text(line);
    lemma_leading_spaces(line);
    assert(r =~= indent_of(line) + body);
    assert forall|i: int| 0 <= i < k implies is_space(#[trigger] r[i]) by {
        assert(r[i] == line[i]);
    }
    assert(r[k] == body[0]);
    assert(body[0] == '-');
    lemma_leading_spaces_is(r, k);
    assert(indent_of(r) =~= indent_of(line));
    let t = trim_start(r);
    assert(t =~= body);
    lemma_trailing_spaces(t);
    assert(t[4] == ']');
    if trailing_spaces(t) > t.len() - 5 {
        assert(is_space(t[4]));
    }
    let m = trim(r);
    assert(m == t.take(t.len() - trailing_spaces(t)));
    assert(m.take(5) =~= "- [>]"@);
    assert(is_rescheduled_todo(r));
    if starts_with(m, "- [ ]"@) {
        assert(m.take(5)[3] == ' ');
    }
    if starts_with(m, "- []"@) {
        assert(m.take(4)[3] == ']');
        assert(m.take(5)[3] == m.take(4)[3]);
    }
    if starts_with(m, "- [x]"@) {
        assert(m.take(5)[3] == 'x');
    }
    if starts_with(m, "- [X]"@) {
        assert(m.take(5)[3] == 'X');
    }
}

/// Rolled lines hold no open task, so rolling them again changes nothing
/// and carries nothing.
pub proof fn lemma_rolled_lines_are_settled(
    lines: Seq<Seq<char>>,
    today: Seq<char>,
    origin: Seq<char>,
)
    ensures
        open_tasks(rolled_lines(lines, today)).len() == 0,
        carried_lines(rolled_lines(lines, today), origin).len() == 0,
        rolled_lines(rolled_lines(lines, today), today) == rolled_lines(lines, today),
{
    let once = rolled_lines(lines, today);
    assert forall|i: int| 0 <= i < once.len() implies !is_todo(#[trigger] once[i]) by {
        if is_todo(lines[i]) {
            lemma_rescheduled_keeps_indent(lines[i], today);
        }
    }
    let open = |l: Seq<char>| is_todo(l);
    assert(once.all(|l: Seq<char>| !open(l)));
    once.lemma_all_neg_filter_empty(open);
    assert(rolled_lines(once, today) =~= once);
}

/// Where no file carries anything, nothing is carried.
pub proof fn lemma_nothing_carried(files: Seq<FileView>, today: int)
    requires
        forall|i: int| 0 <= i < files.len() ==> carried_from(#[trigger] files[i], today).len() == 0,
    ensures
        carried_all(files, today).len() == 0,
    decreases files.len(),
{
    if files.len() > 0 {
        let front = files.drop_last();
        assert forall|i: int| 0 <= i < front.len() implies carried_from(
            #[trigger] front[i],
            today,
        ).len() == 0 by {
            assert(front[i] == files[i]);
        }
        lemma_nothing_carried(front, today);
        front.lemma_flat_map_push(|f: FileView| carried_from(f, today), files.last());
        assert(files =~= front.push(files.last()));
    }
}

/// Moving the open tasks a second time, right after the first, moves
/// nothing and leaves every file as the first move left it.
pub proof fn lemma_move_undone_twice(files: Seq<FileView>, today: int)
    ensures
        carried_all(moved_files(files, today), today).len() == 0,
        moved_files(moved_files(files, today), today) == moved_files(files, today),
{
    let rolled = rolled_files(files, today);
    let after = moved_files(files, today);
    assert forall|i: int| 0 <= i < rolled.len() implies carried_from(
        #[trigger] rolled[i],
        today,
    ).len() == 0 && rolled_file(rolled[i], today) == rolled[i] by {
        if is_past(files[i].key, today) {
            lemma_rolled_lines_are_settled(
                files[i].lines,
                text_of_day(today),
                name_of(files[i].key),
            );
        }
    }
    lemma_position_of(rolled, KeyView::Day(today));
    assert forall|i: int| 0 <= i < after.len() implies carried_from(
        #[trigger] after[i],
        today,
    ).len() == 0 && rolled_file(after[i], today) == after[i] by {
        if i < rolled.len() && after[i] == rolled[i] {
        } else {
            assert(after[i].key == KeyView::Day(today));
        }
    }
    lemma_nothing_carried(after, today);
    assert(rolled_files(after, today) =~= after);
}

/// The copy of an open task is an open task.
pub proof fn lemma_carried_is_open(line: Seq<char>, origin: Seq<char>)
    requires
        is_todo(line),
    ensures
        is_todo(carried(line, origin)),
{
    reveal_strlit(" (");
    reveal_strlit(")");
    reveal_strlit("- [ ]");
    reveal_strlit("- []");
    let copy = carried(line, origin);
    let k = leading_spaces(line) as int;
    lemma_leading_spaces(line);
    let head = trim_start(line);
    lemma_trailing_spaces(head);
    assert(trim(line).len() >= 4);
    assert(head.len() >= 4);
    assert forall|i: int| 0 <= i < k implies is_space(#[trigger] copy[i]) by {
        assert(copy[i] == line[i]);
    }
    assert(copy[k] == line[k]);
    lemma_leading_spaces_is(copy, k);
    let rest = trim_start(copy);
    assert(rest.last() == ')');
    lemma_trailing_spaces_is(rest, 0);
    assert(trim(copy) =~= rest);
    let open = "- [ ]"@;
    let tight = "- []"@;
    if starts_with(trim(line), open) {
        assert(trim(line).take(5) =~= head.take(5));
        assert(rest.take(5) =~= head.take(5));
    } else {
        assert(trim(line).take(4) =~= head.take(4));
        assert(rest.take(4) =~= head.take(4));
    }
}

/// An open task is neither a title nor a separator, and neither is a task
/// that was marked as moved.
pub proof fn lemma_tasks_are_plain(line: Seq<char>, today: Seq<char>)
    ensures
        is_todo(line) ==> !is_title(line) && !is_separator(line),
        !is_title(rescheduled(line, today)) && !is_separator(rescheduled(line, today)),
{
    reveal_strlit("---");
    reveal_strlit("- [ ]");
    reveal_strlit("- []");
    reveal_strlit("- [>]");
    let mark = "---"@;
    assert(!is_todo(mark) && !is_rescheduled_todo(mark)) by {
        assert(!is_space('-'));
        lemma_trim_is_subrange(mark, 0, 3);
        assert(mark.subrange(0, 3) =~= mark);
    }
    lemma_list_items(line);
    lemma_list_items(rescheduled(line, today));
    lemma_rescheduled_keeps_indent(line, today);
}

/// Rolling a titled file leaves it titled.
pub proof fn lemma_rolled_file_titled(file: FileView, today: int)
    requires
        is_titled(file),
    ensures
        is_titled(rolled_file(file, today)),
{
    let rolled = rolled_file(file, today);
    if is_past(file.key, today) {
        let text = text_of_day(today);
        assert forall|j: int| 0 <= j < rolled.lines.len() implies belongs(
            #[trigger] rolled.lines[j],
            rolled.key,
        ) by {
            lemma_tasks_are_plain(file.lines[j], text);
            assert(belongs(file.lines[j], file.key));
        }
        lemma_tasks_are_plain(file.lines[0], text);
    }
}

/// Every copy that is carried to today's file is an open task.
pub proof fn lemma_carried_all_open(files: Seq<FileView>, today: int)
    ensures
        forall|j: int|
            0 <= j < carried_all(files, today).len() ==> is_todo(
                #[trigger] carried_all(files, today)[j],
            ),
    decreases files.len(),
{
    if files.len() == 0 {
        assert(carried_all(files, today) =~= Seq::<Seq<char>>::empty());
    } else {
        let front = files.drop_last();
        let file = files.last();
        lemma_carried_all_open(front, today);
        front.lemma_flat_map_push(|f: FileView| carried_from(f, today), file);
        assert(files =~= front.push(file));
        let before = carried_all(front, today);
        let added = carried_from(file, today);
        let all = carried_all(files, today);
        assert(all =~= before + added);
        assert forall|j: int| 0 <= j < all.len() implies is_todo(#[trigger] all[j]) by {
            if j < before.len() {
                assert(all[j] == before[j]);
            } else {
                let k = j - before.len();
                assert(all[j] == added[k]);
                let open = open_tasks(file.lines);
                file.lines.lemma_filter_pred(|l: Seq<char>| is_todo(l), k);
                assert(is_todo(open[k]));
                lemma_carried_is_open(open[k], name_of(file.key));
            }
        }
    }
}

/// Moving the open tasks leaves every file titled, where every file was
/// titled before and the title of today's file names it.
pub proof fn lemma_move_keeps_titles(files: Seq<FileView>, today: int)
    requires
        forall|i: int| 0 <= i < files.len() ==> is_titled(#[trigger] files[i]),
        names(title_of(KeyView::Day(today)), KeyView::Day(today)),
    ensures
        forall|i: int|
            0 <= i < moved_files(files, today).len() ==> is_titled(
                #[trigger] moved_files(files, today)[i],
            ),
{
    let key = KeyView::Day(today);
    let rolled = rolled_files(files, today);
    let extra = carried_all(files, today);
    let after = moved_files(files, today);
    assert forall|i: int| 0 <= i < rolled.len() implies is_titled(#[trigger] rolled[i]) by {
        lemma_rolled_file_titled(files[i], today);
    }
    lemma_carried_all_open(files, today);
    lemma_position_of(rolled, key);
    assert forall|j: int| 0 <= j < extra.len() implies belongs(#[trigger] extra[j], key) by {
        lemma_tasks_are_plain(extra[j], Seq::empty());
    }
    assert forall|i: int| 0 <= i < after.len() implies is_titled(#[trigger] after[i]) by {
        if i < rolled.len() && after[i] == rolled[i] {
        } else {
            let lines = after[i].lines;
            match position_of(rolled, key) {
                Some(at) => {
                    assert(i == at);
                    let old = rolled[at].lines;
                    assert(lines == old + extra);
                    assert(lines[0] == old[0]);
                    assert forall|j: int| 0 <= j < lines.len() implies belongs(
                        #[trigger] lines[j],
                        key,
                    ) by {
                        if j < old.len() {
                            assert(lines[j] == old[j]);
                        } else {
                            assert(lines[j] == extra[j - old.len()]);
                        }
                    }
                },
                None => {
                    assert(lines == seq![title_of(key)] + extra);
                    assert(lines[0] == title_of(key));
                    assert forall|j: int| 0 <= j < lines.len() implies belongs(
                        #[trigger] lines[j],
                        key,
                    ) by {
                        if j > 0 {
                            assert(lines[j] == extra[j - 1]);
                        }
                    }
                },
            }
        }
    }
}

/// Marks one line of a past day: an open task becomes a rescheduled one,
/// moved to `today`; another line is returned as it is.
pub fn reschedule_line(line: &str, today: &str) -> (r: String)
    ensures
        r@ == rolled_line(line@, today@),
{
    let chars = chars_of(line);
    let n = chars.len();
    let (from, to) = trim_bounds(&chars);
    proof {
        reveal_strlit("- [ ]");
        reveal_strlit("- []");
    }
    let width: usize = if has_prefix_within(&chars, from, to, "- [ ]") {
        5
    } else if has_prefix_within(&chars, from, to, "- []") {
        4
    } else {
        return String::from_str(line);
    };
    assert(width == marker_len(line@));
    let ghost after = line@.skip(from + width);
    let mut start: usize = from + width;
    if start < n && chars[start] == ' ' {
        assert(after[0] == line@[start as int]);
        start += 1;
        assert(line@.skip(start as int) =~= after.skip(1));
    } else {
        if start < n {
            assert(after[0] == line@[start as int]);
        }
    }
    assert(line@.skip(start as int) == task_text(line@));
    let mut r = String::from_str(line.substring_char(0, from));
    assert(r@ =~= indent_of(line@));
    r.append("- [>] (");
    r.append(today);
    r.append(") ");
    r.append(line.substring_char(start, n));
    assert(line@.subrange(start as int, n as int) =~= line@.skip(start as int));
    r
}

/// The copy of an open task for today's file, marked with the name of the
/// day it came from.
pub fn carry_line(line: &str, origin: &str) -> (r: String)
    ensures
        r@ == carried(line@, origin@),
{
    let mut r = String::from_str(line);
    r.append(" (");
    r.append(origin);
    r.append(")");
    r
}

/// What rolling the lines of one past day gives.
#[derive(Clone, Debug, PartialEq, Eq)]
pub struct RolledLines {
    /// The lines of the past day, the open tasks marked as moved.
    pub lines: Vec<String>,
    /// The copies of the open tasks for today's file.
    pub carried: Vec<String>,
}

/// Rolls the lines of one past day: marks its open tasks as moved to
/// `today` and makes the copies for today's file, marked with `origin`.
pub fn roll_lines(lines: &Vec<String>, today: &str, origin: &str) -> (r: RolledLines)
    ensures
        r.lines.deep_view() == rolled_lines(lines.deep_view(), today@),
        r.carried.deep_view() == carried_lines(lines.deep_view(), origin@),
        r.carried@.len() == open_tasks(lines.deep_view()).len(),
{
    let mut out: Vec<String> = Vec::new();
    let mut carried_out: Vec<String> = Vec::new();
    let n = lines.len();
    let ghost all = lines.deep_view();
    let mut i: usize = 0;
    assert(all.take(0) =~= Seq::<Seq<char>>::empty());
    assert(out.deep_view() =~= rolled_lines(all.take(0), today@));
    proof {
        reveal(Seq::filter);
    }
    assert(carried_out.deep_view() =~= carried_lines(all.take(0), origin@));
    while i < n
        invariant
            i <= n == lines@.len(),
            all == lines.deep_view(),
            out.deep_view() == rolled_lines(all.take(i as int), today@),
            carried_out.deep_view() == carried_lines(all.take(i as int), origin@),
        decreases n - i,
    {
        let line = lines[i].as_str();
        proof {
            assert(all.take(i + 1) =~= all.take(i as int).push(line@));
            lemma_roll_push(all.take(i as int), line@, today@, origin@);
        }
        let ghost before = out.deep_view();
        let ghost carried_before = carried_out.deep_view();
        let rolled = reschedule_line(line, today);
        out.push(rolled);
        assert(out.deep_view() =~= before.push(rolled_line(line@, today@)));
        if line_is_todo(line) {
            let copy = carry_line(line, origin);
            carried_out.push(copy);
            assert(carried_out.deep_view() =~= carried_before.push(carried(line@, origin@)));
        }
        i += 1;
    }
    assert(all.take(n as int) =~= all);
    RolledLines { lines: out, carried: carried_out }
}

/// What moving the open tasks gives.
#[derive(Clone, Debug, PartialEq, Eq)]
pub struct MoveOutcome {
    /// The files of the journal after the move, in their order; today's
    /// file stands last where it had to be made.
    pub files: Vec<JournalFile>,
    /// How many tasks were moved.
    pub count: usize,
}

/// Moves the open tasks of all days before `today` to today's file.
pub fn move_undone(files: &Vec<JournalFile>, today: DateKey) -> (r: MoveOutcome)
    ensures
        r.files.deep_view() == moved_files(files.deep_view(), today@),
        r.count == carried_all(files.deep_view(), today@).len(),
{
    let today_text = today.text();
    let mut out: Vec<JournalFile> = Vec::new();
    let mut extra: Vec<String> = Vec::new();
    let n = files.len();
    let ghost all = files.deep_view();
    let mut i: usize = 0;
    assert(all.take(0) =~= Seq::<FileView>::empty());
    assert(out.deep_view() =~= rolled_files(all.take(0), today@));
    assert(extra.deep_view() =~= carried_all(all.take(0), today@));
    while i < n
        invariant
            i <= n == files@.len(),
            all == files.deep_view(),
            today_text@ == text_of_day(today@),
            out.deep_view() == rolled_files(all.take(i as int), today@),
            extra.deep_view() == carried_all(all.take(i as int), today@),
        decreases n - i,
    {
        let file = &files[i];
        let ghost before = out.deep_view();
        let ghost extra_before = extra.deep_view();
        proof {
            assert(all.take(i + 1) =~= all.take(i as int).push(file@));
            all.take(i as int).lemma_push_map_commute(|f: FileView| rolled_file(f, today@), file@);
            all.take(i as int).lemma_flat_map_push(|f: FileView| carried_from(f, today@), file@);
        }
        let past = match file.key {
            FileKey::Day(d) => d.is_before(&today),
            FileKey::Later => false,
        };
        if past {
            let origin = file.key.name();
            let mut rolled = roll_lines(&file.lines, today_text.as_str(), origin.as_str());
            out.push(JournalFile { key: file.key, lines: rolled.lines });
            let ghost added = rolled.carried.deep_view();
            extra.append(&mut rolled.carried);
            assert(extra.deep_view() =~= extra_before + added);
        } else {
            out.push(copy_file(file));
            assert(extra.deep_view() =~= extra_before + Seq::<Seq<char>>::empty());
        }
        assert(out.deep_view() =~= before.push(rolled_file(file@, today@)));
        i += 1;
    }
    assert(all.take(n as int) =~= all);
    let count = extra.len();
    if count > 0 {
        add_lines(&mut out, FileKey::Day(today), extra);
    }
    MoveOutcome { files: out, count }
}

} // verus!
