//! Journal files as values: a key and the lines of the file.
//!
//! The files of a journal are held in a sequence. Where several files of
//! a sequence have the same key, the first one is the file of that key.

use crate::date::{title_of, FileKey, KeyView};
use crate::text::same_text;
use vstd::prelude::*;

verus! {

/// A journal file as a mathematical value.
pub struct FileView {
    /// What the file is identified by.
    pub key: KeyView,
    /// The lines of the file, in order, without line endings.
    pub lines: Seq<Seq<char>>,
}

/// A journal file: its key and its lines, without line endings.
#[derive(Clone, Debug, PartialEq, Eq)]
pub struct JournalFile {
    /// What the file is identified by.
    pub key: FileKey,
    /// The lines of the file, in order.
    pub lines: Vec<String>,
}

impl DeepView for JournalFile {
    type V = FileView;

    open spec fn deep_view(&self) -> FileView {
        FileView { key: self.key@, lines: self.lines.deep_view() }
    }
}

impl View for JournalFile {
    type V = FileView;

    open spec fn view(&self) -> FileView {
        self.deep_view()
    }
}

/// Whether `i` is the place of the first file with the given key.
pub open spec fn is_first_with_key(files: Seq<FileView>, key: KeyView, i: int) -> bool {
    &&& 0 <= i < files.len()
    &&& files[i].key == key
    &&& forall|j: int| 0 <= j < i ==> (#[trigger] files[j]).key != key
}

/// The place of the first file with the given key, if there is one.
pub open spec fn position_of(files: Seq<FileView>, key: KeyView) -> Option<int>
    decreases files.len(),
{
    if files.len() == 0 {
        None
    } else {
        match position_of(files.drop_last(), key) {
            Some(i) => Some(i),
            None => if files.last().key == key {
                Some(files.len() - 1)
            } else {
                None
            },
        }
    }
}

/// Whether no two files have the same key.
pub open spec fn distinct_keys(files: Seq<FileView>) -> bool {
    forall|i: int, j: int|
        0 <= i < j < files.len() ==> (#[trigger] files[i]).key != (#[trigger] files[j]).key
}

/// The files after lines were added at the end of the file with the given
/// key. Where no file has the key, the file is made first, with its title
/// as its only line, and stands last.
pub open spec fn with_added(files: Seq<FileView>, key: KeyView, extra: Seq<Seq<char>>) -> Seq<
    FileView,
> {
    match position_of(files, key) {
        Some(i) => files.update(i, FileView { key, lines: files[i].lines + extra }),
        None => files.push(FileView { key, lines: seq![title_of(key)] + extra }),
    }
}

/// Whether the file at place `i` of `after` is new or differs from the
/// file at that place of `before`.
pub open spec fn is_changed(before: Seq<FileView>, after: Seq<FileView>, i: int) -> bool {
    i >= before.len() || after[i] != before[i]
}

/// `position_of` finds the first file with the key, and finds none only
/// where no file has it.
pub proof fn lemma_position_of(files: Seq<FileView>, key: KeyView)
    ensures
        match position_of(files, key) {
            Some(i) => is_first_with_key(files, key, i),
            None => forall|j: int| 0 <= j < files.len() ==> (#[trigger] files[j]).key != key,
        },
    decreases files.len(),
{
    if files.len() > 0 {
        let front = files.drop_last();
        lemma_position_of(front, key);
        assert forall|j: int| 0 <= j < front.len() implies front[j] == files[j] by {}
        match position_of(front, key) {
            Some(i) => {
                assert(front[i] == files[i]);
                assert forall|j: int| 0 <= j < i implies (#[trigger] files[j]).key != key by {
                    assert(front[j] == files[j]);
                }
            },
            None => {
                assert forall|j: int| 0 <= j < files.len() - 1 implies (#[trigger] files[j]).key
                    != key by {
                    assert(front[j] == files[j]);
                }
            },
        }
    }
}

/// The first file with a key is where `position_of` finds it.
pub proof fn lemma_position_is(files: Seq<FileView>, key: KeyView, i: int)
    requires
        is_first_with_key(files, key, i),
    ensures
        position_of(files, key) == Some(i),
{
    lemma_position_of(files, key);
    match position_of(files, key) {
        Some(k) => {
            if k < i {
                assert(files[k].key != key);
            }
            if i < k {
                assert(files[i].key != key);
            }
        },
        None => {
            assert(files[i].key != key);
        },
    }
}

/// The place of the first file with the given key, if there is one.
pub fn find_file(files: &Vec<JournalFile>, key: &FileKey) -> (r: Option<usize>)
    ensures
        match r {
            Some(i) => position_of(files.deep_view(), key@) == Some(i as int) && i < files@.len()
                && files@[i as int].key@ == key@,
            None => position_of(files.deep_view(), key@) is None,
        },
{
    let n = files.len();
    let mut i: usize = 0;
    while i < n
        invariant
            i <= n == files@.len(),
            forall|j: int| 0 <= j < i ==> (#[trigger] files.deep_view()[j]).key != key@,
        decreases n - i,
    {
        if files[i].key.is_same(key) {
            proof {
                assert(files.deep_view()[i as int].key == key@);
                lemma_position_is(files.deep_view(), key@, i as int);
            }
            return Some(i);
        }
        i += 1;
    }
    proof {
        lemma_position_of(files.deep_view(), key@);
    }
    None
}

/// The place of the first file of the day with the given number, if there
/// is one.
pub fn find_day(files: &Vec<JournalFile>, day: i64) -> (r: Option<usize>)
    ensures
        match r {
            Some(i) => position_of(files.deep_view(), KeyView::Day(day as int)) == Some(i as int)
                && i < files@.len() && files@[i as int].key@ == KeyView::Day(day as int),
            None => position_of(files.deep_view(), KeyView::Day(day as int)) is None,
        },
{
    let n = files.len();
    let ghost key = KeyView::Day(day as int);
    let mut i: usize = 0;
    while i < n
        invariant
            i <= n == files@.len(),
            key == KeyView::Day(day as int),
            forall|j: int| 0 <= j < i ==> (#[trigger] files.deep_view()[j]).key != key,
        decreases n - i,
    {
        let found = match files[i].key {
            FileKey::Day(d) => d.days() as i64 == day,
            FileKey::Later => false,
        };
        if found {
            proof {
                assert(files.deep_view()[i as int].key == key);
                lemma_position_is(files.deep_view(), key, i as int);
            }
            return Some(i);
        }
        i += 1;
    }
    proof {
        lemma_position_of(files.deep_view(), key);
    }
    None
}

/// A copy of the lines.
pub fn copy_lines(lines: &Vec<String>) -> (r: Vec<String>)
    ensures
        r.deep_view() == lines.deep_view(),
{
    let mut r: Vec<String> = Vec::new();
    let n = lines.len();
    let mut i: usize = 0;
    while i < n
        invariant
            i <= n == lines@.len(),
            r@.len() == i,
            forall|j: int| 0 <= j < i ==> (#[trigger] r@[j])@ == lines@[j]@,
        decreases n - i,
    {
        r.push(lines[i].clone());
        i += 1;
    }
    assert(r.deep_view() =~= lines.deep_view());
    r
}

/// A copy of the file.
pub fn copy_file(file: &JournalFile) -> (r: JournalFile)
    ensures
        r@ == file@,
{
    JournalFile { key: file.key, lines: copy_lines(&file.lines) }
}

/// Whether two runs of lines are the same.
pub fn same_lines(a: &Vec<String>, b: &Vec<String>) -> (r: bool)
    ensures
        r == (a.deep_view() == b.deep_view()),
{
    if a.len() != b.len() {
        assert(a.deep_view().len() != b.deep_view().len());
        return false;
    }
    let n = a.len();
    let mut i: usize = 0;
    while i < n
        invariant
            i <= n == a@.len(),
            n == b@.len(),
            forall|j: int| 0 <= j < i ==> a@[j]@ == #[trigger] b@[j]@,
        decreases n - i,
    {
        if !same_text(a[i].as_str(), b[i].as_str()) {
            assert(a.deep_view()[i as int] != b.deep_view()[i as int]);
            return false;
        }
        i += 1;
    }
    assert(a.deep_view() =~= b.deep_view());
    true
}

/// Whether two files have the same key and the same lines.
pub fn same_file(a: &JournalFile, b: &JournalFile) -> (r: bool)
    ensures
        r == (a@ == b@),
{
    a.key.is_same(&b.key) && same_lines(&a.lines, &b.lines)
}

/// The places of the files of `after` that have to be written when
/// `before` is what is on disk: those of the files that are new or differ
/// from the file at their place in `before`, in ascending order.
pub fn changed_files(before: &Vec<JournalFile>, after: &Vec<JournalFile>) -> (r: Vec<usize>)
    ensures
        forall|k: int| 0 <= k < r@.len() ==> #[trigger] r@[k] < after@.len(),
        forall|k: int, l: int| 0 <= k < l < r@.len() ==> r@[k] < r@[l],
        forall|i: int|
            0 <= i < after@.len() ==> (r@.contains(i as usize) <==> is_changed(
                before.deep_view(),
                after.deep_view(),
                i,
            )),
{
    let mut places: Vec<usize> = Vec::new();
    let n = after.len();
    let m = before.len();
    let mut i: usize = 0;
    while i < n
        invariant
            i <= n == after@.len(),
            m == before@.len(),
            forall|k: int| 0 <= k < places@.len() ==> #[trigger] places@[k] < i,
            forall|k: int, l: int| 0 <= k < l < places@.len() ==> places@[k] < places@[l],
            forall|j: int|
                0 <= j < i ==> (places@.contains(j as usize) <==> is_changed(
                    before.deep_view(),
                    after.deep_view(),
                    j,
                )),
        decreases n - i,
    {
        let ghost old_places = places@;
        let changed = i >= m || !same_file(&before[i], &after[i]);
        if changed {
            places.push(i);
        }
        proof {
            assert forall|j: int| 0 <= j < i + 1 implies (places@.contains(j as usize)
                <==> is_changed(before.deep_view(), after.deep_view(), j)) by {
                if changed {
                    assert(places@ == old_places.push(i));
                    assert(places@[old_places.len() as int] == i);
                    if j < i {
                        if old_places.contains(j as usize) {
                            let k = choose|k: int|
                                0 <= k < old_places.len() && old_places[k] == j as usize;
                            assert(places@[k] == j as usize);
                        }
                        if places@.contains(j as usize) {
                            let k = choose|k: int|
                                0 <= k < places@.len() && places@[k] == j as usize;
                            assert(k < old_places.len());
                            assert(old_places[k] == j as usize);
                        }
                    }
                } else {
                    if j == i {
                        if places@.contains(j as usize) {
                            let k = choose|k: int|
                                0 <= k < places@.len() && places@[k] == j as usize;
                            assert(places@[k] < i);
                        }
                    }
                }
            }
        }
        i += 1;
    }
    places
}

/// Adds lines at the end of the file with the given key. Where no file has
/// the key, the file is made first, with its title as its only line.
pub fn add_lines(files: &mut Vec<JournalFile>, key: FileKey, lines: Vec<String>)
    ensures
        final(files).deep_view() == with_added(old(files).deep_view(), key@, lines.deep_view()),
{
    let ghost before = files.deep_view();
    let ghost extra = lines.deep_view();
    let mut lines = lines;
    match find_file(files, &key) {
        Some(i) => {
            let ghost head = files[i as int].lines.deep_view();
            files[i].lines.append(&mut lines);
            assert(files[i as int].lines.deep_view() =~= head + extra);
            assert(files.deep_view() =~= before.update(
                i as int,
                FileView { key: key@, lines: before[i as int].lines + extra },
            ));
        },
        None => {
            let mut all: Vec<String> = Vec::new();
            all.push(key.title_line());
            all.append(&mut lines);
            assert(all.deep_view() =~= seq![title_of(key@)] + extra);
            files.push(JournalFile { key, lines: all });
            assert(files.deep_view() =~= before.push(
                FileView { key: key@, lines: seq![title_of(key@)] + extra },
            ));
        },
    }
}

} // verus!
