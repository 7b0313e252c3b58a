//! The combined buffer: several days in one document.
//!
//! The files of a range of days, and the undated bucket after them, are
//! put together into one buffer, each day followed by a separator line.
//! After it was edited, the buffer is split back into files. Nothing but
//! the title lines in the buffer says which file a line belongs to: a line
//! goes to the file that the last title before it names.

use crate::date::{key_named, title_of, DateKey, FileKey, KeyView};
use crate::journal::{
    copy_lines, find_day, find_file, lemma_position_is, lemma_position_of, position_of, FileView,
    JournalFile,
};
use crate::line::is_title;
use crate::text::{
    chars_of, has_prefix_within, same_text, starts_with, trim, trim_bounds, trim_within,
};
use vstd::prelude::*;

verus! {

/// The line that parts the days in the buffer.
pub open spec fn separator() -> Seq<char> {
    "---"@
}

/// Whether a line is the separator. Only the exact line is.
pub open spec fn is_separator(line: Seq<char>) -> bool {
    line == separator()
}

/// `s` without the title markers `# ` that it begins with.
pub open spec fn without_marks(s: Seq<char>) -> Seq<char>
    decreases s.len(),
{
    if s.len() >= 2 && starts_with(s, "# "@) {
        without_marks(s.skip(2))
    } else {
        s
    }
}

/// The name that a title line gives: the trimmed line without its title
/// markers, trimmed again.
pub open spec fn title_name(line: Seq<char>) -> Seq<char> {
    trim(without_marks(trim(line)))
}

/// Whether a line is a title whose name stands for no file.
pub open spec fn is_unknown_title(line: Seq<char>) -> bool {
    !is_separator(line) && is_title(line) && key_named(title_name(line)) is None
}

/// A range of days: those with a number from `first` up to, and without,
/// `end`.
#[derive(Clone, Copy, Debug, PartialEq, Eq, Structural)]
pub struct DateWindow {
    /// The number of the first day of the range.
    pub first: i64,
    /// The number of the day after the last day of the range.
    pub end: i64,
}

impl DateWindow {
    /// Whether the day with the given number is in the range.
    pub open spec fn holds(self, day: int) -> bool {
        self.first <= day < self.end
    }

    /// The range that begins `before` days before `anchor` and ends
    /// `after` days after it; the day `after` days after it is not in the
    /// range.
    pub fn around(anchor: DateKey, before: u32, after: u32) -> (w: DateWindow)
        ensures
            w.first == anchor@ - before,
            w.end == anchor@ + after,
    {
        let day = anchor.days() as i64;
        DateWindow { first: day - before as i64, end: day + after as i64 }
    }

    /// The range of days that is shown for `today`: the four days before
    /// it, the day itself, and the two days after it.
    pub fn week(today: DateKey) -> (w: DateWindow)
        ensures
            w.first == today@ - 4,
            w.end == today@ + 3,
    {
        DateWindow::around(today, 4, 3)
    }

    /// Whether `day` is in the range.
    pub fn contains(&self, day: DateKey) -> (b: bool)
        ensures
            b == self.holds(day@),
    {
        let d = day.days() as i64;
        self.first <= d && d < self.end
    }
}

/// What one day gives to the buffer: the lines of its file and a
/// separator, where the day has a file that is not empty; else nothing.
pub open spec fn day_block(files: Seq<FileView>, day: int) -> Seq<Seq<char>> {
    match position_of(files, KeyView::Day(day)) {
        Some(i) => if files[i].lines.len() > 0 {
            files[i].lines.push(separator())
        } else {
            Seq::empty()
        },
        None => Seq::empty(),
    }
}

/// What the days from `first` up to, and without, `end` give to the
/// buffer, in the order of the days.
pub open spec fn days_block(files: Seq<FileView>, first: int, end: int) -> Seq<Seq<char>>
    decreases end - first,
{
    if first >= end {
        Seq::empty()
    } else {
        days_block(files, first, end - 1) + day_block(files, end - 1)
    }
}

/// What the undated bucket gives to the buffer: its lines, or its title
/// where the bucket does not exist yet.
pub open spec fn later_block(files: Seq<FileView>) -> Seq<Seq<char>> {
    match position_of(files, KeyView::Later) {
        Some(i) => files[i].lines,
        None => seq![title_of(KeyView::Later)],
    }
}

/// The combined buffer of a range of days: the days in order, each
/// followed by a separator, then the undated bucket.
pub open spec fn combined(files: Seq<FileView>, first: int, end: int) -> Seq<Seq<char>> {
    days_block(files, first, end) + later_block(files)
}

/// Builds the combined buffer of the days in `window` from the files of
/// the journal. A day without a file, or with an empty one, leaves no
/// trace in the buffer.
pub fn aggregate(files: &Vec<JournalFile>, window: DateWindow) -> (r: Vec<String>)
    ensures
        r.deep_view() == combined(files.deep_view(), window.first as int, window.end as int),
{
    let mut buffer: Vec<String> = Vec::new();
    let ghost all = files.deep_view();
    assert(buffer.deep_view() =~= days_block(all, window.first as int, window.first as int));
    let mut day: i64 = window.first;
    while day < window.end
        invariant
            day == window.first || window.first < day <= window.end,
            all == files.deep_view(),
            buffer.deep_view() == days_block(all, window.first as int, day as int),
        decreases window.end - day,
    {
        let ghost before = buffer.deep_view();
        match find_day(files, day) {
            Some(i) => {
                if files[i].lines.len() > 0 {
                    let mut lines = copy_lines(&files[i].lines);
                    let ghost added = lines.deep_view();
                    lines.push(String::from_str("---"));
                    assert(lines.deep_view() =~= added.push(separator()));
                    buffer.append(&mut lines);
                }
            },
            None => {},
        }
        assert(buffer.deep_view() =~= before + day_block(all, day as int));
        day += 1;
    }
    let ghost days = buffer.deep_view();
    assert(days == days_block(all, window.first as int, window.end as int));
    match find_file(files, &FileKey::Later) {
        Some(i) => {
            let mut lines = copy_lines(&files[i].lines);
            buffer.append(&mut lines);
        },
        None => {
            buffer.push(FileKey::Later.title_line());
        },
    }
    assert(buffer.deep_view() =~= days + later_block(all));
    buffer
}

/// Builds the combined buffer that is shown for `today`: that of the four
/// days before it, the day itself, and the two days after it.
pub fn open_week(files: &Vec<JournalFile>, today: DateKey) -> (r: Vec<String>)
    ensures
        r.deep_view() == combined(files.deep_view(), today@ - 4, today@ + 3),
{
    aggregate(files, DateWindow::week(today))
}

/// Whether a line is a title that names the file with the given key.
pub open spec fn names(line: Seq<char>, key: KeyView) -> bool {
    !is_separator(line) && is_title(line) && key_named(title_name(line)) == Some(key)
}

/// Whether a line is one that the file with the given key gets back: it
/// is no separator, and where it is a title, it names that file.
pub open spec fn belongs(line: Seq<char>, key: KeyView) -> bool {
    !is_separator(line) && (is_title(line) ==> key_named(title_name(line)) == Some(key))
}

/// Whether a file begins with a title, each of its titles names the file
/// itself, and none of its lines is a separator.
pub open spec fn is_titled(file: FileView) -> bool {
    &&& file.lines.len() > 0
    &&& is_title(file.lines[0])
    &&& forall|j: int| 0 <= j < file.lines.len() ==> belongs(#[trigger] file.lines[j], file.key)
}

/// Where the splitter is: before the first title, or in the file that the
/// last title named.
#[derive(Clone, Copy, Debug, PartialEq, Eq, Structural)]
pub enum SplitState {
    /// No title was seen yet.
    Idle,
    /// Lines go to the file with this key.
    InDestination(FileKey),
}

impl View for SplitState {
    type V = Option<KeyView>;

    open spec fn view(&self) -> Option<KeyView> {
        match self {
            SplitState::Idle => None,
            SplitState::InDestination(key) => Some(key@),
        }
    }
}

/// What is done with a line of the buffer, as a mathematical value.
pub enum ActionView {
    /// The line is dropped.
    Skip,
    /// The line is a title: it opens the file with this key and is its
    /// next line.
    Open(KeyView),
    /// The line is the next line of the file that is open.
    Write,
}

/// What is done with a line of the buffer.
#[derive(Clone, Copy, Debug, PartialEq, Eq, Structural)]
pub enum LineAction {
    /// The line is dropped.
    Skip,
    /// The line is a title: it opens the file with this key and is its
    /// next line.
    Open(FileKey),
    /// The line is the next line of the file that is open.
    Write,
}

impl View for LineAction {
    type V = ActionView;

    open spec fn view(&self) -> ActionView {
        match self {
            LineAction::Skip => ActionView::Skip,
            LineAction::Open(key) => ActionView::Open(key@),
            LineAction::Write => ActionView::Write,
        }
    }
}

/// A title in the buffer that names no file.
#[derive(Clone, Copy, Debug, PartialEq, Eq, Structural)]
pub struct UnknownTitle;

/// What is done with a line in a given state. A separator is dropped; a
/// title opens the file it names; any other line is written to the open
/// file, or dropped where none is open.
pub open spec fn action_of(state: Option<KeyView>, line: Seq<char>) -> ActionView {
    if is_separator(line) {
        ActionView::Skip
    } else if is_title(line) {
        match key_named(title_name(line)) {
            Some(key) => ActionView::Open(key),
            None => ActionView::Skip,
        }
    } else if state is None {
        ActionView::Skip
    } else {
        ActionView::Write
    }
}

/// The state after a line: a title moves to the file it names, any other
/// line leaves the state as it is.
pub open spec fn state_after(state: Option<KeyView>, line: Seq<char>) -> Option<KeyView> {
    match action_of(state, line) {
        ActionView::Open(key) => Some(key),
        _ => state,
    }
}

/// The name that a title line gives, where `line` is a title; else none.
fn title_name_of(line: &str) -> (r: Option<String>)
    ensures
        match r {
            Some(name) => is_title(line@) && name@ == title_name(line@),
            None => !is_title(line@),
        },
{
    let chars = chars_of(line);
    let (from, to) = trim_bounds(&chars);
    if !has_prefix_within(&chars, from, to, "# ") {
        return None;
    }
    proof {
        reveal_strlit("# ");
    }
    let mut at: usize = from;
    while has_prefix_within(&chars, at, to, "# ")
        invariant
            from <= at <= to <= chars@.len(),
            "# "@.len() == 2,
            without_marks(chars@.subrange(from as int, to as int)) == without_marks(
                chars@.subrange(at as int, to as int),
            ),
        decreases to - at,
    {
        assert(chars@.subrange(at as int, to as int).skip(2) =~= chars@.subrange(
            at + 2,
            to as int,
        ));
        at += 2;
    }
    let (a, b) = trim_within(&chars, at, to);
    assert(chars@.subrange(a as int, b as int) == title_name(line@));
    Some(String::from_str(line.substring_char(a, b)))
}

/// One step of the splitter: what is done with `line` in `state`, and the
/// state after it. A title that names no file is an error.
pub fn split_step(state: SplitState, line: &str) -> (r: Result<
    (SplitState, LineAction),
    UnknownTitle,
>)
    ensures
        match r {
            Ok((next, action)) => {
                &&& !is_unknown_title(line@)
                &&& action@ == action_of(state@, line@)
                &&& next@ == state_after(state@, line@)
            },
            Err(_) => is_unknown_title(line@),
        },
{
    if same_text(line, "---") {
        return Ok((state, LineAction::Skip));
    }
    match title_name_of(line) {
        Some(name) => match FileKey::named(name.as_str()) {
            Some(key) => Ok((SplitState::InDestination(key), LineAction::Open(key))),
            None => Err(UnknownTitle),
        },
        None => match state {
            SplitState::Idle => Ok((state, LineAction::Skip)),
            SplitState::InDestination(_) => Ok((state, LineAction::Write)),
        },
    }
}

/// Whether a file begins with a title, each of its titles names the file
/// itself, and none of its lines is a separator.
pub fn file_is_titled(file: &JournalFile) -> (b: bool)
    ensures
        b == is_titled(file@),
{
    let n = file.lines.len();
    if n == 0 {
        return false;
    }
    let state = SplitState::InDestination(file.key);
    let mut i: usize = 0;
    while i < n
        invariant
            i <= n == file.lines@.len(),
            n > 0,
            state@ == Some(file.key@),
            i > 0 ==> is_title(file@.lines[0]),
            forall|j: int| 0 <= j < i ==> belongs(#[trigger] file@.lines[j], file@.key),
        decreases n - i,
    {
        let ghost line = file@.lines[i as int];
        assert(line == file.lines@[i as int]@);
        match split_step(state, file.lines[i].as_str()) {
            Ok((_, LineAction::Open(key))) => {
                if !key.is_same(&file.key) {
                    assert(!belongs(line, file@.key));
                    return false;
                }
            },
            Ok((_, LineAction::Write)) => {
                if i == 0 {
                    assert(!is_title(file@.lines[0]));
                    return false;
                }
            },
            _ => {
                assert(!belongs(line, file@.key));
                return false;
            },
        }
        i += 1;
    }
    true
}

/// The files after a line was written to the file with the given key: the
/// line stands at the end of that file, which is made, last in order,
/// where no file has the key yet.
pub open spec fn with_line(files: Seq<FileView>, key: KeyView, line: Seq<char>) -> Seq<FileView> {
    match position_of(files, key) {
        Some(i) => files.update(i, FileView { key, lines: files[i].lines.push(line) }),
        None => files.push(FileView { key, lines: seq![line] }),
    }
}

/// The files after one line of the buffer was handled in a given state.
pub open spec fn files_after(files: Seq<FileView>, state: Option<KeyView>, line: Seq<char>) -> Seq<
    FileView,
> {
    match action_of(state, line) {
        ActionView::Skip => files,
        ActionView::Open(key) => with_line(files, key, line),
        ActionView::Write => match state {
            Some(key) => with_line(files, key, line),
            None => files,
        },
    }
}

/// The state after the lines were handled in order, beginning in `state`.
pub open spec fn state_through(state: Option<KeyView>, lines: Seq<Seq<char>>) -> Option<KeyView>
    decreases lines.len(),
{
    if lines.len() == 0 {
        state
    } else {
        state_after(state_through(state, lines.drop_last()), lines.last())
    }
}

/// The files after the lines were handled in order, beginning with `files`
/// in `state`.
pub open spec fn files_through(
    files: Seq<FileView>,
    state: Option<KeyView>,
    lines: Seq<Seq<char>>,
) -> Seq<FileView>
    decreases lines.len(),
{
    if lines.len() == 0 {
        files
    } else {
        files_after(
            files_through(files, state, lines.drop_last()),
            state_through(state, lines.drop_last()),
            lines.last(),
        )
    }
}

/// The files that a buffer is split into: one for each key that a title
/// names, in the order in which the keys first occur. Each holds, in
/// order, the lines that the buffer has under the titles naming it, the
/// titles included. Separators, and the lines before the first title, are
/// in no file.
pub open spec fn split_of(lines: Seq<Seq<char>>) -> Seq<FileView> {
    files_through(Seq::empty(), None, lines)
}

/// Whether `i` is the place of the first title in the buffer that names
/// no file.
pub open spec fn is_first_unknown_title(lines: Seq<Seq<char>>, i: int) -> bool {
    &&& 0 <= i < lines.len()
    &&& is_unknown_title(lines[i])
    &&& forall|j: int| 0 <= j < i ==> !is_unknown_title(#[trigger] lines[j])
}

/// Whether every title in the buffer names a file.
pub open spec fn all_titles_known(lines: Seq<Seq<char>>) -> bool {
    forall|j: int| 0 <= j < lines.len() ==> !is_unknown_title(#[trigger] lines[j])
}

/// Why a buffer cannot be split.
#[derive(Clone, Copy, Debug, PartialEq, Eq, Structural)]
pub enum SplitError {
    /// The line at this place, counted from 0, is a title that names
    /// neither a day nor the undated bucket.
    UnknownTitle { line: usize },
}

/// Splits an edited buffer into the files to write. Each file holds, in
/// order, every line that the buffer has under a title naming it, titles
/// included; separators and the lines before the first title are left
/// out. The first title that names no file fails the whole split.
pub fn split(buffer: &Vec<String>) -> (r: Result<Vec<JournalFile>, SplitError>)
    ensures
        match r {
            Ok(files) => all_titles_known(buffer.deep_view()) && files.deep_view() == split_of(
                buffer.deep_view(),
            ),
            Err(SplitError::UnknownTitle { line }) => is_first_unknown_title(
                buffer.deep_view(),
                line as int,
            ),
        },
{
    let mut files: Vec<JournalFile> = Vec::new();
    let mut state = SplitState::Idle;
    let mut open: usize = 0;
    let n = buffer.len();
    let ghost all = buffer.deep_view();
    let mut i: usize = 0;
    assert(all.take(0) =~= Seq::<Seq<char>>::empty());
    while i < n
        invariant
            i <= n == buffer@.len(),
            all == buffer.deep_view(),
            all_titles_known(all.take(i as int)),
            files.deep_view() == split_of(all.take(i as int)),
            state@ == state_through(None, all.take(i as int)),
            state@ matches Some(key) ==> position_of(files.deep_view(), key) == Some(open as int),
        decreases n - i,
    {
        let line = &buffer[i];
        let ghost before = files.deep_view();
        proof {
            assert(all.take(i + 1).drop_last() =~= all.take(i as int));
            assert(all.take(i + 1).last() == line@);
        }
        match split_step(state, line.as_str()) {
            Err(_) => {
                proof {
                    assert forall|j: int| 0 <= j < i implies !is_unknown_title(
                        #[trigger] all[j],
                    ) by {
                        assert(all.take(i as int)[j] == all[j]);
                    }
                }
                return Err(SplitError::UnknownTitle { line: i });
            },
            Ok((next, action)) => {
                match action {
                    LineAction::Skip => {},
                    LineAction::Open(key) => {
                        proof {
                            lemma_position_of(before, key@);
                            lemma_position_after_line(before, key@, line@);
                        }
                        match find_file(&files, &key) {
                            Some(at) => {
                                open = at;
                                let ghost head = files[at as int].lines.deep_view();
                                files[at].lines.push(line.clone());
                                proof {
                                    assert(files[at as int].lines.deep_view() =~= head.push(line@));
                                    assert(files.deep_view() =~= before.update(
                                        at as int,
                                        FileView { key: key@, lines: head.push(line@) },
                                    ));
                                }
                            },
                            None => {
                                open = files.len();
                                let mut lines: Vec<String> = Vec::new();
                                lines.push(line.clone());
                                assert(lines.deep_view() =~= seq![line@]);
                                files.push(JournalFile { key, lines });
                                assert(files.deep_view() =~= before.push(
                                    FileView { key: key@, lines: seq![line@] },
                                ));
                            },
                        }
                    },
                    LineAction::Write => {
                        proof {
                            lemma_position_of(before, state@->0);
                        }
                        let ghost head = files[open as int].lines.deep_view();
                        files[open].lines.push(line.clone());
                        proof {
                            assert(files[open as int].lines.deep_view() =~= head.push(line@));
                            assert(files.deep_view() =~= with_line(before, state@->0, line@));
                            lemma_position_after_line(before, state@->0, line@);
                        }
                    },
                }
                state = next;
            },
        }
        proof {
            assert forall|j: int| 0 <= j < i + 1 implies !is_unknown_title(
                #[trigger] all.take(i + 1)[j],
            ) by {
                if j < i {
                    assert(all.take(i as int)[j] == all.take(i + 1)[j]);
                }
            }
        }
        i += 1;
    }
    assert(all.take(n as int) =~= all);
    Ok(files)
}

/// After a line was written to the file with a key, that file is where it
/// was, or last where it was made.
pub proof fn lemma_position_after_line(files: Seq<FileView>, key: KeyView, line: Seq<char>)
    ensures
        position_of(with_line(files, key, line), key) == match position_of(files, key) {
            Some(i) => Some(i),
            None => Some(files.len() as int),
        },
{
    lemma_position_of(files, key);
    let after = with_line(files, key, line);
    match position_of(files, key) {
        Some(i) => {
            assert forall|j: int| 0 <= j < i implies (#[trigger] after[j]).key != key by {
                assert(after[j] == files[j]);
            }
            lemma_position_is(after, key, i);
        },
        None => {
            assert forall|j: int| 0 <= j < files.len() implies (#[trigger] after[j]).key != key by {
                assert(after[j] == files[j]);
            }
            lemma_position_is(after, key, files.len() as int);
        },
    }
}

} // verus!
