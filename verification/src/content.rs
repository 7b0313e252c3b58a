//! The content of a file and its lines.
//!
//! A file is read as the lines of its content. A line ends with a line
//! feed, which may follow a carriage return; the last line need not end.
//! A file is written as its lines, each ended by a line feed.

use crate::text::chars_of;
use vstd::prelude::*;

verus! {

/// The number of characters of `text` before its first line feed, or
/// before its end where it has none.
pub open spec fn line_end(text: Seq<char>) -> nat
    decreases text.len(),
{
    if text.len() > 0 && text[0] != '\n' {
        1 + line_end(text.drop_first())
    } else {
        0
    }
}

/// A line without the carriage return at its end, if it has one.
pub open spec fn without_return(line: Seq<char>) -> Seq<char> {
    if line.len() > 0 && line.last() == '\r' {
        line.drop_last()
    } else {
        line
    }
}

/// The lines of a text. Each line feed ends a line, and takes a carriage
/// return just before it with it; what follows the last line feed is a
/// line of its own, unless it is empty.
pub open spec fn lines_of(text: Seq<char>) -> Seq<Seq<char>>
    decreases text.len(),
{
    if text.len() == 0 {
        Seq::empty()
    } else if line_end(text) >= text.len() {
        seq![text]
    } else {
        seq![without_return(text.take(line_end(text) as int))] + lines_of(
            text.skip(line_end(text) as int + 1),
        )
    }
}

/// The text of the lines: each line in order, ended by a line feed.
pub open spec fn content_of(lines: Seq<Seq<char>>) -> Seq<char>
    decreases lines.len(),
{
    if lines.len() == 0 {
        Seq::empty()
    } else {
        content_of(lines.drop_last()) + lines.last() + seq!['\n']
    }
}

/// Whether a line can be written and read back: it holds no line feed and
/// does not end with a carriage return.
pub open spec fn is_line(line: Seq<char>) -> bool {
    &&& forall|i: int| 0 <= i < line.len() ==> #[trigger] line[i] != '\n'
    &&& line.len() > 0 ==> line.last() != '\r'
}

/// Whether each of the lines can be written and read back.
pub open spec fn are_lines(lines: Seq<Seq<char>>) -> bool {
    forall|i: int| 0 <= i < lines.len() ==> is_line(#[trigger] lines[i])
}

/// Whether a text is as files are written: it is empty or ends with a line
/// feed, and no carriage return stands just before a line feed.
pub open spec fn is_written(text: Seq<char>) -> bool {
    &&& text.len() > 0 ==> text.last() == '\n'
    &&& forall|i: int| 0 < i < text.len() && #[trigger] text[i] == '\n' ==> text[i - 1] != '\r'
}

/// A run of `n` characters without a line feed that stops at a line feed,
/// or at the end, is up to the line end.
pub proof fn lemma_line_end_is(text: Seq<char>, n: int)
    requires
        0 <= n <= text.len(),
        forall|i: int| 0 <= i < n ==> #[trigger] text[i] != '\n',
        n < text.len() ==> text[n] == '\n',
    ensures
        line_end(text) == n,
    decreases text.len(),
{
    if n > 0 {
        let rest = text.drop_first();
        assert(text[0] != '\n');
        assert forall|i: int| 0 <= i < n - 1 implies #[trigger] rest[i] != '\n' by {
            assert(rest[i] == text[i + 1]);
        }
        if n - 1 < rest.len() {
            assert(rest[n - 1] == text[n]);
        }
        lemma_line_end_is(rest, n - 1);
    }
}

/// The line end is within the text, no line feed stands before it, and a
/// line feed stands at it where it is not the end of the text.
pub proof fn lemma_line_end(text: Seq<char>)
    ensures
        line_end(text) <= text.len(),
        forall|i: int| 0 <= i < line_end(text) ==> #[trigger] text[i] != '\n',
        line_end(text) < text.len() ==> text[line_end(text) as int] == '\n',
    decreases text.len(),
{
    if text.len() > 0 && text[0] != '\n' {
        let rest = text.drop_first();
        lemma_line_end(rest);
        assert forall|i: int| 0 <= i < line_end(text) implies #[trigger] text[i] != '\n' by {
            if i > 0 {
                assert(text[i] == rest[i - 1]);
            }
        }
        if line_end(text) < text.len() {
            assert(text[line_end(text) as int] == rest[line_end(rest) as int]);
        }
    }
}

/// The lines of a text that ends with a line feed, followed by more text,
/// are the lines of the one and then the lines of the other.
pub proof fn lemma_lines_of_concat(a: Seq<char>, b: Seq<char>)
    requires
        a.len() > 0 ==> a.last() == '\n',
    ensures
        lines_of(a + b) == lines_of(a) + lines_of(b),
    decreases a.len(),
{
    if a.len() == 0 {
        assert(a + b =~= b);
        assert(lines_of(a) + lines_of(b) =~= lines_of(b));
    } else {
        let n = line_end(a) as int;
        lemma_line_end(a);
        if n >= a.len() {
            assert(a[a.len() - 1] != '\n');
        }
        let all = a + b;
        assert forall|i: int| 0 <= i < n implies #[trigger] all[i] != '\n' by {
            assert(all[i] == a[i]);
        }
        assert(all[n] == a[n]);
        lemma_line_end_is(all, n);
        assert(all.take(n) =~= a.take(n));
        let rest = a.skip(n + 1);
        assert(all.skip(n + 1) =~= rest + b);
        if rest.len() > 0 {
            assert(rest.last() == a.last());
        }
        lemma_lines_of_concat(rest, b);
        assert(lines_of(all) =~= lines_of(a) + lines_of(b));
    }
}

/// The text of two runs of lines is the text of the one and then the text
/// of the other.
pub proof fn lemma_content_of_concat(a: Seq<Seq<char>>, b: Seq<Seq<char>>)
    ensures
        content_of(a + b) == content_of(a) + content_of(b),
    decreases b.len(),
{
    if b.len() == 0 {
        assert(a + b =~= a);
        assert(content_of(a) + content_of(b) =~= content_of(a));
    } else {
        assert((a + b).drop_last() =~= a + b.drop_last());
        assert((a + b).last() == b.last());
        lemma_content_of_concat(a, b.drop_last());
        assert(content_of(a + b) =~= content_of(a) + content_of(b));
    }
}

/// Writing what was read gives the text back, byte for byte: the text of
/// the lines of a text is that text, where the text is as files are
/// written. Each of its lines can then be written and read back.
pub proof fn lemma_content_of_lines(text: Seq<char>)
    requires
        is_written(text),
    ensures
        content_of(lines_of(text)) == text,
        are_lines(lines_of(text)),
    decreases text.len(),
{
    if text.len() > 0 {
        let n = line_end(text) as int;
        lemma_line_end(text);
        if n >= text.len() {
            assert(text[text.len() - 1] != '\n');
        }
        let line = text.take(n);
        let rest = text.skip(n + 1);
        assert(text[n] == '\n');
        if n > 0 {
            assert(line.last() == text[n - 1]);
        }
        assert(without_return(line) == line);
        assert forall|i: int| 0 <= i < line.len() implies #[trigger] line[i] != '\n' by {
            assert(line[i] == text[i]);
        }
        assert(is_line(line));
        assert(is_written(rest)) by {
            if rest.len() > 0 {
                assert(rest.last() == text.last());
            }
            assert forall|i: int| 0 < i < rest.len() && #[trigger] rest[i] == '\n' implies rest[i
                - 1] != '\r' by {
                assert(rest[i] == text[i + n + 1]);
                assert(rest[i - 1] == text[i + n]);
            }
        }
        lemma_content_of_lines(rest);
        let first = seq![line];
        let more = lines_of(rest);
        assert(lines_of(text) == first + more);
        lemma_content_of_concat(first, more);
        assert(first.drop_last() =~= Seq::<Seq<char>>::empty());
        assert(content_of(first.drop_last()) =~= Seq::<char>::empty());
        assert(content_of(first) =~= line + seq!['\n']);
        assert(line + seq!['\n'] + rest =~= text);
        assert forall|i: int| 0 <= i < lines_of(text).len() implies is_line(
            #[trigger] lines_of(text)[i],
        ) by {
            if i > 0 {
                assert(lines_of(text)[i] == more[i - 1]);
            }
        }
    }
}

/// A text as files are written, with one more line and a line feed after
/// it, is as files are written.
pub proof fn lemma_written_push(text: Seq<char>, line: Seq<char>)
    requires
        is_written(text),
        is_line(line),
    ensures
        is_written(text + line + seq!['\n']),
{
    let all = text + line + seq!['\n'];
    let n = text.len() as int;
    let m = line.len() as int;
    assert(all.last() == '\n');
    assert forall|i: int| 0 < i < all.len() && #[trigger] all[i] == '\n' implies all[i - 1]
        != '\r' by {
        if i < n {
            assert(all[i] == text[i]);
            assert(all[i - 1] == text[i - 1]);
        } else if i < n + m {
            assert(all[i] == line[i - n]);
        } else if m > 0 {
            assert(all[i - 1] == line[m - 1]);
            assert(line.last() == line[m - 1]);
        } else {
            assert(all[i - 1] == text[n - 1]);
            assert(text.last() == text[n - 1]);
        }
    }
}

/// Reading what was written gives the lines back: the lines of the text
/// of the lines are the lines, where each of them holds no line feed and
/// does not end with a carriage return. The text is then as files are
/// written.
pub proof fn lemma_lines_of_content(lines: Seq<Seq<char>>)
    requires
        are_lines(lines),
    ensures
        lines_of(content_of(lines)) == lines,
        is_written(content_of(lines)),
    decreases lines.len(),
{
    if lines.len() > 0 {
        let front = lines.drop_last();
        let line = lines.last();
        assert forall|i: int| 0 <= i < front.len() implies is_line(#[trigger] front[i]) by {
            assert(front[i] == lines[i]);
        }
        lemma_lines_of_content(front);
        let ended = line + seq!['\n'];
        assert(content_of(lines) =~= content_of(front) + ended);
        lemma_lines_of_concat(content_of(front), ended);
        assert(is_line(line));
        assert forall|i: int| 0 <= i < line.len() implies #[trigger] ended[i] != '\n' by {
            assert(ended[i] == line[i]);
        }
        lemma_line_end_is(ended, line.len() as int);
        assert(ended.take(line.len() as int) =~= line);
        assert(ended.skip(line.len() as int + 1).len() == 0);
        assert(lines_of(ended.skip(line.len() as int + 1)) =~= Seq::<Seq<char>>::empty());
        assert(lines_of(ended) =~= seq![line]);
        assert(lines =~= front + seq![line]);
        lemma_written_push(content_of(front), line);
    }
}

/// The lines of the content of a file.
pub fn split_lines(content: &str) -> (r: Vec<String>)
    ensures
        r.deep_view() == lines_of(content@),
{
    let chars = chars_of(content);
    let n = chars.len();
    let ghost all = content@;
    let mut lines: Vec<String> = Vec::new();
    let mut start: usize = 0;
    let mut i: usize = 0;
    assert(all.skip(0) =~= all);
    assert(lines.deep_view() + lines_of(all) =~= lines_of(all));
    while i < n
        invariant
            start <= i <= n == chars@.len(),
            chars@ == content@,
            all == content@,
            forall|k: int| start <= k < i ==> #[trigger] all[k] != '\n',
            lines_of(all) == lines.deep_view() + lines_of(all.skip(start as int)),
        decreases n - i,
    {
        if chars[i] == '\n' {
            let ghost rest = all.skip(start as int);
            let ghost before = lines.deep_view();
            proof {
                assert forall|k: int| 0 <= k < i - start implies #[trigger] rest[k] != '\n' by {
                    assert(rest[k] == all[k + start]);
                }
                assert(rest[i - start] == all[i as int]);
                lemma_line_end_is(rest, i - start);
                assert(rest.skip(i - start + 1) =~= all.skip(i + 1));
            }
            let mut end = i;
            if end > start && chars[end - 1] == '\r' {
                end -= 1;
            }
            let line = String::from_str(content.substring_char(start, end));
            proof {
                let raw = rest.take(i - start);
                if raw.len() > 0 {
                    assert(raw.last() == all[i - 1]);
                }
                assert(line@ =~= without_return(raw));
            }
            lines.push(line);
            proof {
                assert(lines.deep_view() =~= before.push(line@));
                assert(before.push(line@) + lines_of(all.skip(i + 1)) =~= before + (seq![line@]
                    + lines_of(all.skip(i + 1))));
            }
            start = i + 1;
        }
        i += 1;
    }
    let ghost rest = all.skip(start as int);
    let ghost before = lines.deep_view();
    if start < n {
        proof {
            assert forall|k: int| 0 <= k < rest.len() implies #[trigger] rest[k] != '\n' by {
                assert(rest[k] == all[k + start]);
            }
            lemma_line_end_is(rest, rest.len() as int);
            assert(all.subrange(start as int, n as int) =~= rest);
        }
        lines.push(String::from_str(content.substring_char(start, n)));
        assert(lines.deep_view() =~= before + seq![rest]);
    } else {
        assert(lines.deep_view() =~= before + lines_of(rest));
    }
    lines
}

/// The content of a file with the given lines.
pub fn join_lines(lines: &Vec<String>) -> (r: String)
    ensures
        r@ == content_of(lines.deep_view()),
{
    let mut content = String::new();
    let n = lines.len();
    let ghost all = lines.deep_view();
    let mut i: usize = 0;
    proof {
        reveal_strlit("\n");
    }
    assert(all.take(0) =~= Seq::<Seq<char>>::empty());
    while i < n
        invariant
            i <= n == lines@.len(),
            all == lines.deep_view(),
            "\n"@ == seq!['\n'],
            content@ == content_of(all.take(i as int)),
        decreases n - i,
    {
        proof {
            assert(all.take(i + 1).drop_last() =~= all.take(i as int));
            assert(all.take(i + 1).last() == lines@[i as int]@);
        }
        content.append(lines[i].as_str());
        content.append("\n");
        i += 1;
    }
    assert(all.take(n as int) =~= all);
    content
}

} // verus!
