//! Where the files of a journal are kept.
//!
//! All files of a journal lie in one directory. The file of a key has the
//! name of the key and the extension `.md`; the combined buffer is staged
//! in the file `todo.md` beside them.

use crate::date::{extension, name_of, text_of_day, DateKey, FileKey, KeyView};
use crate::text::{ends_with, same_text};
use vstd::prelude::*;

verus! {

/// The path of the file with the given name in the directory `root`.
pub open spec fn path_in(root: Seq<char>, file_name: Seq<char>) -> Seq<char> {
    root + "/"@ + file_name
}

/// The path of the file with the given key.
pub open spec fn path_of(root: Seq<char>, key: KeyView) -> Seq<char> {
    path_in(root, name_of(key) + extension())
}

/// The path of the file in which the combined buffer is staged.
pub open spec fn staging_path_of(root: Seq<char>) -> Seq<char> {
    path_in(root, "todo.md"@)
}

/// The directory of the journal: the path that was set, where one was
/// set; else the directory `.doto` in the home directory. There is none
/// only where no path was set and the home directory is not known.
pub open spec fn doto_path_of(set: Option<Seq<char>>, home: Option<Seq<char>>) -> Option<
    Seq<char>,
> {
    match set {
        Some(p) => Some(p),
        None => match home {
            Some(h) => Some(h + "/.doto"@),
            None => None,
        },
    }
}

/// The text of a string that may be missing.
pub open spec fn text_of(s: Option<String>) -> Option<Seq<char>> {
    match s {
        Some(t) => Some(t@),
        None => None,
    }
}

/// Whether a file name is taken for that of the file of a day: it has
/// the extension of the journal and is not the name of the undated
/// bucket. Whether the name reads as a day is not asked.
pub open spec fn is_dated_name(file_name: Seq<char>) -> bool {
    ends_with(file_name, extension()) && file_name != "later.md"@
}

/// The test for being taken for the name of the file of a day.
pub open spec fn dated_names() -> spec_fn(Seq<char>) -> bool {
    |n: Seq<char>| is_dated_name(n)
}

/// The directory of the journal, from the path that was set for it, if
/// one was, and the home directory, if it is known.
pub fn get_doto_path(set: Option<String>, home: Option<String>) -> (r: Option<String>)
    ensures
        text_of(r) == doto_path_of(text_of(set), text_of(home)),
{
    match set {
        Some(p) => Some(p),
        None => match home {
            Some(h) => {
                let mut path = h;
                path.append("/.doto");
                Some(path)
            },
            None => None,
        },
    }
}

/// The name of today's file without its extension.
pub fn get_today_filename(today: DateKey) -> (r: String)
    ensures
        r@ == text_of_day(today@),
{
    today.text()
}

/// The path of the file with the given key in the directory `root`.
pub fn file_path(root: &str, key: FileKey) -> (r: String)
    ensures
        r@ == path_of(root@, key@),
{
    let mut path = String::from_str(root);
    path.append("/");
    let name = key.file_name();
    path.append(name.as_str());
    assert(path@ =~= path_of(root@, key@));
    path
}

/// The path of today's file in the directory `root`.
pub fn get_today_todo_file_path(root: &str, today: DateKey) -> (r: String)
    ensures
        r@ == path_of(root@, KeyView::Day(today@)),
{
    file_path(root, FileKey::Day(today))
}

/// The path of the file in which the combined buffer is staged.
pub fn staging_path(root: &str) -> (r: String)
    ensures
        r@ == staging_path_of(root@),
{
    let mut path = String::from_str(root);
    path.append("/");
    path.append("todo.md");
    assert(path@ =~= staging_path_of(root@));
    path
}

/// Whether a file name is taken for that of the file of a day: it has
/// the extension of the journal and is not the name of the undated bucket.
pub fn is_dated(file_name: &str) -> (b: bool)
    ensures
        b == is_dated_name(file_name@),
{
    let n = file_name.unicode_len();
    let m = ".md".unicode_len();
    if n < m {
        return false;
    }
    assert(file_name@.subrange(n - m, n as int) =~= file_name@.skip(n - m));
    same_text(file_name.substring_char(n - m, n), ".md") && !same_text(file_name, "later.md")
}

/// The names, among those of the files in the directory, that are taken
/// for the files of days, in the order given: those with the extension of
/// the journal, but for the name of the undated bucket.
pub fn get_all_files(file_names: Vec<String>) -> (r: Vec<String>)
    ensures
        r.deep_view() == file_names.deep_view().filter(dated_names()),
{
    let mut kept: Vec<String> = Vec::new();
    let n = file_names.len();
    let ghost all = file_names.deep_view();
    let mut i: usize = 0;
    proof {
        reveal(Seq::filter);
    }
    assert(all.take(0) =~= Seq::<Seq<char>>::empty());
    assert(kept.deep_view() =~= all.take(0).filter(dated_names()));
    while i < n
        invariant
            i <= n == file_names@.len(),
            all == file_names.deep_view(),
            kept.deep_view() == all.take(i as int).filter(dated_names()),
        decreases n - i,
    {
        let name = file_names[i].as_str();
        let ghost before = kept.deep_view();
        proof {
            assert(all.take(i + 1) =~= all.take(i as int).push(name@));
            all.take(i as int).lemma_filter_push(name@, dated_names());
        }
        if is_dated(name) {
            kept.push(String::from_str(name));
            assert(kept.deep_view() =~= before.push(name@));
        }
        i += 1;
    }
    assert(all.take(n as int) =~= all);
    kept
}

} // verus!
