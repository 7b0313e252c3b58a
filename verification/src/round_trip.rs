//! What splitting gives back.
//!
//! A buffer that was put together from the files of a journal and not
//! edited splits into those files again; and a title that is put into a
//! buffer sends the lines under it to the file it names.

use crate::combined::{
    action_of, all_titles_known, belongs, combined, day_block, days_block, files_through,
    is_separator, is_titled, is_unknown_title, later_block, names, separator, split_of,
    state_through, title_name, with_line, without_marks, ActionView,
};
use crate::content::{
    are_lines, content_of, is_line, is_written, lemma_content_of_lines, lemma_lines_of_content,
    lines_of,
};
use crate::date::{key_named, later_name, title_of, KeyView};
use crate::journal::{
    distinct_keys, lemma_position_is, lemma_position_of, position_of, FileView,
};
use crate::line::is_title;
use crate::text::{
    is_space, lemma_trim_is_subrange, starts_with, trim,
};
use vstd::prelude::*;

verus! {

/// The file that one day shows in the buffer: its file, where it has one
/// that is not empty.
pub open spec fn day_file(files: Seq<FileView>, day: int) -> Seq<FileView> {
    match position_of(files, KeyView::Day(day)) {
        Some(i) => if files[i].lines.len() > 0 {
            seq![files[i]]
        } else {
            Seq::empty()
        },
        None => Seq::empty(),
    }
}

/// The files that the days from `first` up to, and without, `end` show in
/// the buffer, in the order of the days.
pub open spec fn days_files(files: Seq<FileView>, first: int, end: int) -> Seq<FileView>
    decreases end - first,
{
    if first >= end {
        Seq::empty()
    } else {
        days_files(files, first, end - 1) + day_file(files, end - 1)
    }
}

/// The undated bucket as the buffer shows it, where it shows any line of
/// it.
pub open spec fn later_files(files: Seq<FileView>) -> Seq<FileView> {
    if later_block(files).len() > 0 {
        seq![FileView { key: KeyView::Later, lines: later_block(files) }]
    } else {
        Seq::empty()
    }
}

/// The files that the combined buffer of a range of days shows: those of
/// the days that have lines, in the order of the days, then the undated
/// bucket.
pub open spec fn shown(files: Seq<FileView>, first: int, end: int) -> Seq<FileView> {
    days_files(files, first, end) + later_files(files)
}

/// Whether the files that the combined buffer of a range of days shows
/// can be split from it again: each file of a day that it shows, and the
/// undated bucket where it has lines, begins with a title, has no title
/// but those that name it, and holds no separator line.
pub open spec fn is_restorable(files: Seq<FileView>, first: int, end: int) -> bool {
    &&& forall|k: int|
        0 <= k < days_files(files, first, end).len() ==> is_titled(
            #[trigger] days_files(files, first, end)[k],
        )
    &&& position_of(files, KeyView::Later) matches Some(i) ==> files[i].lines.len() == 0
        || is_titled(files[i])
}

/// Handling two runs of lines one after the other is handling them as one
/// run.
pub proof fn lemma_through_concat(
    files: Seq<FileView>,
    state: Option<KeyView>,
    a: Seq<Seq<char>>,
    b: Seq<Seq<char>>,
)
    ensures
        state_through(state, a + b) == state_through(state_through(state, a), b),
        files_through(files, state, a + b) == files_through(
            files_through(files, state, a),
            state_through(state, a),
            b,
        ),
    decreases b.len(),
{
    if b.len() == 0 {
        assert(a + b =~= a);
    } else {
        assert((a + b).drop_last() =~= a + b.drop_last());
        assert((a + b).last() == b.last());
        lemma_through_concat(files, state, a, b.drop_last());
    }
}

/// The test for being no separator.
pub open spec fn no_separator() -> spec_fn(Seq<char>) -> bool {
    |line: Seq<char>| !is_separator(line)
}

/// The lines without the separators among them.
pub open spec fn kept_lines(lines: Seq<Seq<char>>) -> Seq<Seq<char>> {
    lines.filter(no_separator())
}

/// Lines among which there is no separator are all kept.
pub proof fn lemma_kept_all(lines: Seq<Seq<char>>)
    requires
        forall|j: int| 0 <= j < lines.len() ==> !is_separator(#[trigger] lines[j]),
    ensures
        kept_lines(lines) == lines,
    decreases lines.len(),
{
    reveal(Seq::filter);
    if lines.len() > 0 {
        let front = lines.drop_last();
        assert forall|j: int| 0 <= j < front.len() implies !is_separator(#[trigger] front[j]) by {
            assert(front[j] == lines[j]);
        }
        lemma_kept_all(front);
        front.lemma_filter_push(lines.last(), no_separator());
        assert(lines =~= front.push(lines.last()));
    }
}

/// A title and the lines under it, handled where no file has the key that
/// the title names, make the file of that key, last in order, with the
/// title and the lines under it that are no separators.
pub proof fn lemma_block(
    files: Seq<FileView>,
    state: Option<KeyView>,
    title: Seq<char>,
    body: Seq<Seq<char>>,
    key: KeyView,
)
    requires
        names(title, key),
        forall|j: int| 0 <= j < body.len() ==> is_separator(#[trigger] body[j]) || belongs(body[j], key),
        position_of(files, key) is None,
    ensures
        state_through(state, seq![title] + body) == Some(key),
        files_through(files, state, seq![title] + body) == files.push(
            FileView { key, lines: seq![title] + kept_lines(body) },
        ),
    decreases body.len(),
{
    reveal(Seq::filter);
    let all = seq![title] + body;
    if body.len() == 0 {
        assert(all.drop_last() =~= Seq::<Seq<char>>::empty());
        assert(all.last() == title);
        assert(files_through(files, state, all.drop_last()) == files);
        assert(state_through(state, all.drop_last()) == state);
        assert(action_of(state, title) == ActionView::Open(key));
        assert(files_through(files, state, all) == with_line(files, key, title));
        assert(seq![title] + kept_lines(body) =~= seq![title]);
    } else {
        let front = body.drop_last();
        let line = body.last();
        assert forall|j: int| 0 <= j < front.len() implies is_separator(#[trigger] front[j])
            || belongs(front[j], key) by {
            assert(front[j] == body[j]);
        }
        lemma_block(files, state, title, front, key);
        assert(all.drop_last() =~= seq![title] + front);
        assert(all.last() == line);
        front.lemma_filter_push(line, no_separator());
        assert(body =~= front.push(line));
        let so_far = FileView { key, lines: seq![title] + kept_lines(front) };
        let made = files.push(so_far);
        if !is_separator(line) {
            assert(belongs(line, key));
            lemma_position_of(files, key);
            assert forall|j: int| 0 <= j < files.len() implies (#[trigger] made[j]).key != key by {
                assert(made[j] == files[j]);
            }
            lemma_position_is(made, key, files.len() as int);
            assert(files_through(files, state, all) == with_line(made, key, line));
            assert((seq![title] + kept_lines(front)).push(line) =~= seq![title] + kept_lines(
                body,
            ));
            assert(with_line(made, key, line) =~= files.push(
                FileView { key, lines: seq![title] + kept_lines(body) },
            ));
        }
    }
}

/// The lines of a titled file, handled where no file has its key yet,
/// make that file, last in order; a separator after them changes nothing.
pub proof fn lemma_titled_file(files: Seq<FileView>, state: Option<KeyView>, file: FileView)
    requires
        is_titled(file),
        position_of(files, file.key) is None,
    ensures
        state_through(state, file.lines) == Some(file.key),
        files_through(files, state, file.lines) == files.push(file),
        state_through(state, file.lines.push(separator())) == Some(file.key),
        files_through(files, state, file.lines.push(separator())) == files.push(file),
{
    let title = file.lines[0];
    let body = file.lines.skip(1);
    assert(belongs(title, file.key));
    assert forall|j: int| 0 <= j < body.len() implies !is_separator(#[trigger] body[j]) && belongs(
        body[j],
        file.key,
    ) by {
        assert(body[j] == file.lines[j + 1]);
        assert(belongs(file.lines[j + 1], file.key));
    }
    lemma_kept_all(body);
    lemma_block(files, state, title, body, file.key);
    assert(seq![title] + body =~= file.lines);
    let more = file.lines.push(separator());
    assert(more.drop_last() =~= file.lines);
    assert(more.last() == separator());
}

/// The keys of the files that a range of days shows are days of the
/// range.
proof fn lemma_days_files_keys(files: Seq<FileView>, first: int, end: int)
    ensures
        forall|k: int|
            0 <= k < days_files(files, first, end).len() ==> match (#[trigger] days_files(
                files,
                first,
                end,
            )[k]).key {
                KeyView::Day(d) => first <= d < end,
                KeyView::Later => false,
            },
    decreases end - first,
{
    if first < end {
        lemma_days_files_keys(files, first, end - 1);
        lemma_position_of(files, KeyView::Day(end - 1));
        let front = days_files(files, first, end - 1);
        let all = days_files(files, first, end);
        assert forall|k: int| 0 <= k < all.len() implies match (#[trigger] all[k]).key {
            KeyView::Day(d) => first <= d < end,
            KeyView::Later => false,
        } by {
            if k < front.len() {
                assert(all[k] == front[k]);
            }
        }
    }
}

/// The part of the buffer that a range of days makes splits into the
/// files that the days show.
proof fn lemma_days_restored(files: Seq<FileView>, first: int, end: int)
    requires
        forall|k: int|
            0 <= k < days_files(files, first, end).len() ==> is_titled(
                #[trigger] days_files(files, first, end)[k],
            ),
    ensures
        files_through(Seq::empty(), None, days_block(files, first, end)) == days_files(
            files,
            first,
            end,
        ),
        all_titles_known(days_block(files, first, end)),
    decreases end - first,
{
    if first < end {
        let front_files = days_files(files, first, end - 1);
        let front = days_block(files, first, end - 1);
        let all_files = days_files(files, first, end);
        let all = days_block(files, first, end);
        assert forall|k: int| 0 <= k < front_files.len() implies is_titled(
            #[trigger] front_files[k],
        ) by {
            assert(all_files[k] == front_files[k]);
        }
        lemma_days_restored(files, first, end - 1);
        lemma_days_files_keys(files, first, end - 1);
        let key = KeyView::Day(end - 1);
        lemma_position_of(files, key);
        let block = day_block(files, end - 1);
        if block.len() > 0 {
            let file = files[position_of(files, key)->0];
            assert(all_files.last() == file);
            assert(is_titled(file));
            lemma_position_of(front_files, key);
            if position_of(front_files, key) is Some {
                assert(front_files[position_of(front_files, key)->0].key == key);
            }
            lemma_titled_file(front_files, state_through(None, front), file);
            lemma_through_concat(Seq::empty(), None, front, block);
            assert(all_files =~= front_files.push(file));
            assert forall|j: int| 0 <= j < all.len() implies !is_unknown_title(
                #[trigger] all[j],
            ) by {
                if j < front.len() {
                    assert(all[j] == front[j]);
                } else if j < all.len() - 1 {
                    assert(all[j] == file.lines[j - front.len()]);
                    assert(belongs(file.lines[j - front.len()], file.key));
                } else {
                    assert(all[j] == separator());
                }
            }
        } else {
            assert(all =~= front);
            assert(all_files =~= front_files);
        }
    }
}

/// The title of the undated bucket names the undated bucket.
pub proof fn lemma_later_title()
    ensures
        names(title_of(KeyView::Later), KeyView::Later),
        is_titled(FileView { key: KeyView::Later, lines: seq![title_of(KeyView::Later)] }),
{
    reveal_strlit("# ");
    reveal_strlit("later");
    reveal_strlit("---");
    let line = title_of(KeyView::Later);
    assert(line.len() == 7);
    assert(line[0] == '#');
    assert(line[1] == ' ');
    assert(line[2] == 'l');
    assert(line[6] == 'r');
    assert(!is_space('#') && !is_space('r') && !is_space('l'));
    lemma_trim_is_subrange(line, 0, 7);
    assert(line.subrange(0, 7) =~= line);
    assert(trim(line) == line);
    assert(line.take(2) =~= "# "@);
    assert(is_title(line));
    let name = line.skip(2);
    assert(name =~= later_name());
    assert(!starts_with(name, "# "@)) by {
        if starts_with(name, "# "@) {
            assert(name.take(2)[0] == '#');
        }
    }
    assert(without_marks(name) == name);
    assert(without_marks(line) == name);
    lemma_trim_is_subrange(name, 0, 5);
    assert(name.subrange(0, 5) =~= name);
    assert(title_name(line) == later_name());
}

/// A buffer that was put together and not edited splits into the files
/// that it shows: every title in it is known, and each file comes back
/// with its key and exactly its lines. This holds where each file that
/// the buffer shows begins with a title, has no title but those that name
/// it, and holds no separator line.
pub proof fn lemma_split_restores(files: Seq<FileView>, first: int, end: int)
    requires
        is_restorable(files, first, end),
    ensures
        all_titles_known(combined(files, first, end)),
        split_of(combined(files, first, end)) == shown(files, first, end),
{
    let days = days_files(files, first, end);
    let head = days_block(files, first, end);
    let tail = later_block(files);
    let all = combined(files, first, end);
    lemma_days_restored(files, first, end);
    lemma_days_files_keys(files, first, end);
    if tail.len() > 0 {
        let file = FileView { key: KeyView::Later, lines: tail };
        assert(is_titled(file)) by {
            lemma_position_of(files, KeyView::Later);
            lemma_later_title();
        }
        lemma_position_of(days, KeyView::Later);
        if position_of(days, KeyView::Later) is Some {
            assert(days[position_of(days, KeyView::Later)->0].key == KeyView::Later);
        }
        lemma_titled_file(days, state_through(None, head), file);
        lemma_through_concat(Seq::empty(), None, head, tail);
        assert(shown(files, first, end) =~= days.push(file));
        assert forall|j: int| 0 <= j < all.len() implies !is_unknown_title(#[trigger] all[j]) by {
            if j < head.len() {
                assert(all[j] == head[j]);
            } else {
                assert(all[j] == tail[j - head.len()]);
                assert(belongs(tail[j - head.len()], KeyView::Later));
            }
        }
    } else {
        assert(all =~= head);
        assert(shown(files, first, end) =~= days);
    }
}

/// Where the file of a day of the range has lines, it is among the files
/// that the days show, and no other file of that day stands before it.
proof fn lemma_day_file_place(files: Seq<FileView>, first: int, end: int, day: int) -> (k: int)
    requires
        first <= day < end,
        position_of(files, KeyView::Day(day)) is Some,
        files[position_of(files, KeyView::Day(day))->0].lines.len() > 0,
    ensures
        0 <= k < days_files(files, first, end).len(),
        days_files(files, first, end)[k] == files[position_of(files, KeyView::Day(day))->0],
        forall|j: int|
            0 <= j < k ==> (#[trigger] days_files(files, first, end)[j]).key != KeyView::Day(day),
    decreases end - first,
{
    let key = KeyView::Day(day);
    lemma_position_of(files, key);
    let file = files[position_of(files, key)->0];
    let front = days_files(files, first, end - 1);
    let days = days_files(files, first, end);
    if day == end - 1 {
        lemma_days_files_keys(files, first, end - 1);
        assert(days =~= front.push(file));
        assert forall|j: int| 0 <= j < front.len() implies (#[trigger] days[j]).key != key by {
            assert(days[j] == front[j]);
        }
        front.len() as int
    } else {
        let k = lemma_day_file_place(files, first, end - 1, day);
        assert(days[k] == front[k]);
        assert forall|j: int| 0 <= j < k implies (#[trigger] days[j]).key != key by {
            assert(days[j] == front[j]);
        }
        k
    }
}

/// Where the file of a day of the range has lines, the buffer shows it as
/// the file of that day.
pub proof fn lemma_day_is_shown(files: Seq<FileView>, first: int, end: int, day: int)
    requires
        first <= day < end,
        position_of(files, KeyView::Day(day)) is Some,
        files[position_of(files, KeyView::Day(day))->0].lines.len() > 0,
    ensures
        position_of(shown(files, first, end), KeyView::Day(day)) is Some,
        shown(files, first, end)[position_of(shown(files, first, end), KeyView::Day(day))->0]
            == files[position_of(files, KeyView::Day(day))->0],
{
    let key = KeyView::Day(day);
    let days = days_files(files, first, end);
    let all = shown(files, first, end);
    let k = lemma_day_file_place(files, first, end, day);
    lemma_position_of(files, key);
    assert(all[k] == days[k]);
    assert forall|j: int| 0 <= j < k implies (#[trigger] all[j]).key != key by {
        assert(all[j] == days[j]);
    }
    lemma_position_is(all, key, k);
}

/// Whether every file is titled, no two files have the same key, and the
/// file that is open is among them.
pub open spec fn are_titled(files: Seq<FileView>, state: Option<KeyView>) -> bool {
    &&& forall|i: int| 0 <= i < files.len() ==> is_titled(#[trigger] files[i])
    &&& distinct_keys(files)
    &&& state matches Some(key) ==> position_of(files, key) is Some
}

/// Writing a line to the file it belongs to keeps the files titled. A
/// file that is made by the line is titled where the line is a title.
pub proof fn lemma_with_line_titled(files: Seq<FileView>, key: KeyView, line: Seq<char>)
    requires
        are_titled(files, None),
        belongs(line, key),
        position_of(files, key) is None ==> is_title(line),
    ensures
        are_titled(with_line(files, key, line), Some(key)),
{
    let after = with_line(files, key, line);
    lemma_position_of(files, key);
    crate::combined::lemma_position_after_line(files, key, line);
    match position_of(files, key) {
        Some(at) => {
            let file = files[at];
            assert(is_titled(file));
            assert forall|i: int| 0 <= i < after.len() implies is_titled(#[trigger] after[i]) by {
                if i == at {
                    assert(after[i].lines[0] == file.lines[0]);
                    assert forall|j: int| 0 <= j < after[i].lines.len() implies belongs(
                        #[trigger] after[i].lines[j],
                        key,
                    ) by {
                        if j < file.lines.len() {
                            assert(after[i].lines[j] == file.lines[j]);
                        }
                    }
                } else {
                    assert(after[i] == files[i]);
                }
            }
            assert forall|i: int, j: int| 0 <= i < j < after.len() implies (#[trigger] after[i]).key
                != (#[trigger] after[j]).key by {
                assert(after[i].key == files[i].key);
                assert(after[j].key == files[j].key);
            }
        },
        None => {
            assert forall|i: int| 0 <= i < after.len() implies is_titled(#[trigger] after[i]) by {
                if i < files.len() {
                    assert(after[i] == files[i]);
                }
            }
            assert forall|i: int, j: int| 0 <= i < j < after.len() implies (#[trigger] after[i]).key
                != (#[trigger] after[j]).key by {
                assert(after[i] == files[i]);
                if j < files.len() {
                    assert(after[j] == files[j]);
                }
            }
        },
    }
}

/// Handling lines keeps the files titled.
pub proof fn lemma_through_titled(
    files: Seq<FileView>,
    state: Option<KeyView>,
    lines: Seq<Seq<char>>,
)
    requires
        are_titled(files, state),
    ensures
        are_titled(files_through(files, state, lines), state_through(state, lines)),
    decreases lines.len(),
{
    if lines.len() > 0 {
        let front = lines.drop_last();
        let line = lines.last();
        lemma_through_titled(files, state, front);
        let so_far = files_through(files, state, front);
        let now = state_through(state, front);
        match action_of(now, line) {
            ActionView::Skip => {},
            ActionView::Open(key) => {
                lemma_with_line_titled(so_far, key, line);
            },
            ActionView::Write => {
                lemma_with_line_titled(so_far, now->0, line);
            },
        }
    }
}

/// Every file that a buffer is split into begins with a title, has no
/// title but those that name it, and holds no separator line; and no two
/// of the files have the same key.
pub proof fn lemma_split_gives_titled(lines: Seq<Seq<char>>)
    ensures
        forall|i: int| 0 <= i < split_of(lines).len() ==> is_titled(#[trigger] split_of(lines)[i]),
        distinct_keys(split_of(lines)),
{
    lemma_through_titled(Seq::empty(), None, lines);
}

/// Splitting a buffer that was put together and not edited gives every
/// day of the range that had lines its file back, with exactly those
/// lines. This holds where each file that the buffer shows begins with a
/// title, has no title but those that name it, and holds no separator
/// line.
pub proof fn lemma_round_trip(files: Seq<FileView>, first: int, end: int, day: int)
    requires
        is_restorable(files, first, end),
        first <= day < end,
        position_of(files, KeyView::Day(day)) is Some,
        files[position_of(files, KeyView::Day(day))->0].lines.len() > 0,
    ensures
        all_titles_known(combined(files, first, end)),
        position_of(split_of(combined(files, first, end)), KeyView::Day(day)) is Some,
        split_of(combined(files, first, end))[position_of(
            split_of(combined(files, first, end)),
            KeyView::Day(day),
        )->0] == files[position_of(files, KeyView::Day(day))->0],
{
    lemma_split_restores(files, first, end);
    lemma_day_is_shown(files, first, end, day);
}

/// The separator and the title of the undated bucket can be written and
/// read back.
pub proof fn lemma_made_lines()
    ensures
        is_line(separator()),
        is_line(title_of(KeyView::Later)),
{
    reveal_strlit("---");
    reveal_strlit("# ");
    reveal_strlit("later");
    let title = title_of(KeyView::Later);
    assert(title.len() == 7);
    assert(title.last() == 'r');
    assert forall|i: int| 0 <= i < title.len() implies #[trigger] title[i] != '\n' by {
        if i < 2 {
            assert(title[i] == "# "@[i]);
        } else {
            assert(title[i] == "later"@[i - 2]);
        }
    }
}

/// Where every line of every file can be written and read back, so can
/// every line of what a range of days gives to the buffer.
proof fn lemma_days_block_lines(files: Seq<FileView>, first: int, end: int)
    requires
        forall|i: int| 0 <= i < files.len() ==> are_lines((#[trigger] files[i]).lines),
    ensures
        are_lines(days_block(files, first, end)),
    decreases end - first,
{
    if first < end {
        lemma_days_block_lines(files, first, end - 1);
        lemma_made_lines();
        lemma_position_of(files, KeyView::Day(end - 1));
        let front = days_block(files, first, end - 1);
        let block = day_block(files, end - 1);
        let all = days_block(files, first, end);
        assert forall|j: int| 0 <= j < all.len() implies is_line(#[trigger] all[j]) by {
            if j < front.len() {
                assert(all[j] == front[j]);
            } else {
                let at = position_of(files, KeyView::Day(end - 1))->0;
                assert(are_lines(files[at].lines));
                assert(all[j] == block[j - front.len()]);
                if j - front.len() < files[at].lines.len() {
                    assert(block[j - front.len()] == files[at].lines[j - front.len()]);
                }
            }
        }
    }
}

/// Where every line of every file can be written and read back, so can
/// every line of the combined buffer; and the buffer that is written to
/// its file and read again is the buffer.
pub proof fn lemma_buffer_read_back(files: Seq<FileView>, first: int, end: int)
    requires
        forall|i: int| 0 <= i < files.len() ==> are_lines((#[trigger] files[i]).lines),
    ensures
        are_lines(combined(files, first, end)),
        lines_of(content_of(combined(files, first, end))) == combined(files, first, end),
{
    lemma_days_block_lines(files, first, end);
    lemma_made_lines();
    lemma_position_of(files, KeyView::Later);
    let head = days_block(files, first, end);
    let tail = later_block(files);
    let all = combined(files, first, end);
    assert forall|j: int| 0 <= j < all.len() implies is_line(#[trigger] all[j]) by {
        if j < head.len() {
            assert(all[j] == head[j]);
        } else {
            assert(all[j] == tail[j - head.len()]);
            if position_of(files, KeyView::Later) is Some {
                let at = position_of(files, KeyView::Later)->0;
                assert(are_lines(files[at].lines));
            }
        }
    }
    lemma_lines_of_content(all);
}

/// The round trip in bytes. A day of the range has a file with the
/// content `text`. The files are read as lines, put together, written to
/// the staging file, read again and split, and the file that the split
/// gives for the day is written. What is written is `text`, byte for
/// byte. This holds where `text` is not empty and as files are written,
/// every line of the buffer can be written and read back, and each file
/// that the buffer shows begins with a title, has no title but those that
/// name it, and holds no separator line.
pub proof fn lemma_round_trip_in_bytes(
    files: Seq<FileView>,
    first: int,
    end: int,
    day: int,
    text: Seq<char>,
)
    requires
        is_restorable(files, first, end),
        are_lines(combined(files, first, end)),
        first <= day < end,
        position_of(files, KeyView::Day(day)) is Some,
        files[position_of(files, KeyView::Day(day))->0].lines == lines_of(text),
        text.len() > 0,
        is_written(text),
    ensures
        position_of(
            split_of(lines_of(content_of(combined(files, first, end)))),
            KeyView::Day(day),
        ) is Some,
        content_of(
            split_of(lines_of(content_of(combined(files, first, end))))[position_of(
                split_of(lines_of(content_of(combined(files, first, end)))),
                KeyView::Day(day),
            )->0].lines,
        ) == text,
{
    lemma_lines_of_content(combined(files, first, end));
    lemma_content_of_lines(text);
    assert(lines_of(text).len() > 0) by {
        if lines_of(text).len() == 0 {
            assert(content_of(lines_of(text)).len() == 0);
        }
    }
    lemma_round_trip(files, first, end, day);
}

/// Writing a line to the file of one key leaves the file of any other key
/// where and as it was.
pub proof fn lemma_with_line_elsewhere(
    files: Seq<FileView>,
    other: KeyView,
    line: Seq<char>,
    key: KeyView,
)
    requires
        other != key,
    ensures
        position_of(with_line(files, other, line), key) == position_of(files, key),
        position_of(files, key) matches Some(i) ==> with_line(files, other, line)[i] == files[i],
{
    let after = with_line(files, other, line);
    lemma_position_of(files, key);
    lemma_position_of(files, other);
    match position_of(files, key) {
        Some(i) => {
            assert(after[i] == files[i]);
            assert forall|j: int| 0 <= j < i implies (#[trigger] after[j]).key != key by {
                assert(files[j].key != key);
            }
            lemma_position_is(after, key, i);
        },
        None => {
            lemma_position_of(after, key);
            if position_of(after, key) is Some {
                let j = position_of(after, key)->0;
                if j < files.len() {
                    assert(files[j].key != key);
                }
            }
        },
    }
}

/// Lines that are handled in the file of another key, and among which no
/// title names `key`, leave the file of `key` where and as it was.
pub proof fn lemma_untouched(
    files: Seq<FileView>,
    state: Option<KeyView>,
    lines: Seq<Seq<char>>,
    key: KeyView,
)
    requires
        state != Some(key),
        forall|j: int| 0 <= j < lines.len() ==> !names(#[trigger] lines[j], key),
    ensures
        state_through(state, lines) != Some(key),
        position_of(files_through(files, state, lines), key) == position_of(files, key),
        position_of(files, key) matches Some(i) ==> files_through(files, state, lines)[i]
            == files[i],
    decreases lines.len(),
{
    if lines.len() > 0 {
        let front = lines.drop_last();
        let line = lines.last();
        assert forall|j: int| 0 <= j < front.len() implies !names(#[trigger] front[j], key) by {
            assert(front[j] == lines[j]);
        }
        lemma_untouched(files, state, front, key);
        let now = state_through(state, front);
        let so_far = files_through(files, state, front);
        assert(!names(line, key));
        match action_of(now, line) {
            ActionView::Skip => {},
            ActionView::Open(other) => {
                lemma_with_line_elsewhere(so_far, other, line, key);
            },
            ActionView::Write => {
                lemma_with_line_elsewhere(so_far, now->0, line, key);
            },
        }
    }
}

/// A title that is put into the buffer sends the lines under it to the
/// file it names, whatever day or bucket that is: where no title before
/// it names that file, and none after the lines under it does, the split
/// makes the file with exactly the title and the lines under it, without
/// the separators.
pub proof fn lemma_title_redirects(
    before: Seq<Seq<char>>,
    title: Seq<char>,
    body: Seq<Seq<char>>,
    after: Seq<Seq<char>>,
    key: KeyView,
)
    requires
        names(title, key),
        forall|j: int| 0 <= j < body.len() ==> is_separator(#[trigger] body[j]) || belongs(body[j], key),
        position_of(split_of(before), key) is None,
        after.len() > 0 ==> is_title(after[0]) && key_named(title_name(after[0])) is Some,
        forall|j: int| 0 <= j < after.len() ==> !names(#[trigger] after[j], key),
    ensures
        position_of(split_of(before + seq![title] + body + after), key) == Some(
            split_of(before).len() as int,
        ),
        split_of(before + seq![title] + body + after)[split_of(before).len() as int] == (FileView {
            key,
            lines: seq![title] + kept_lines(body),
        }),
{
    reveal_strlit("---");
    reveal_strlit("# ");
    let made = split_of(before);
    let file = FileView { key, lines: seq![title] + kept_lines(body) };
    let block = seq![title] + body;
    lemma_block(made, state_through(None, before), title, body, key);
    lemma_through_concat(Seq::empty(), None, before, block);
    let head = before + block;
    let with_file = made.push(file);
    assert(split_of(head) == with_file);
    lemma_position_of(made, key);
    assert forall|j: int| 0 <= j < made.len() implies (#[trigger] with_file[j]).key != key by {
        assert(with_file[j] == made[j]);
    }
    lemma_position_is(with_file, key, made.len() as int);
    let all = before + seq![title] + body + after;
    assert(all =~= head + after);
    lemma_through_concat(Seq::empty(), None, head, after);
    if after.len() > 0 {
        let next = seq![after[0]];
        let rest = after.skip(1);
        assert(after =~= next + rest);
        lemma_through_concat(with_file, Some(key), next, rest);
        assert(next.drop_last() =~= Seq::<Seq<char>>::empty());
        assert(next.last() == after[0]);
        assert(!names(after[0], key));
        assert(!is_separator(after[0])) by {
            if is_separator(after[0]) {
                assert(trim(after[0]).take(2)[0] == '#');
                lemma_trim_is_subrange(after[0], 0, 3);
                assert(after[0].subrange(0, 3) =~= after[0]);
            }
        }
        let other = key_named(title_name(after[0]))->0;
        assert(action_of(Some(key), after[0]) == ActionView::Open(other));
        assert(files_through(with_file, Some(key), next.drop_last()) == with_file);
        assert(state_through(Some(key), next.drop_last()) == Some(key));
        assert(files_through(with_file, Some(key), next) == with_line(with_file, other, after[0]));
        assert(state_through(Some(key), next) == Some(other));
        lemma_with_line_elsewhere(with_file, other, after[0], key);
        assert forall|j: int| 0 <= j < rest.len() implies !names(#[trigger] rest[j], key) by {
            assert(rest[j] == after[j + 1]);
        }
        lemma_untouched(with_line(with_file, other, after[0]), Some(other), rest, key);
    } else {
        assert(all =~= head);
    }
}

} // verus!
