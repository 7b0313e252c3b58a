//! Keeping the journal in step with a copy on a server.
//!
//! The server keeps, for each file it was sent, the name of the file, the
//! SHA-256 digest of its content in hexadecimal digits, and the time it was
//! sent. From these and from the files on disk it is decided which files
//! are sent and which are fetched.

use crate::paths::{is_dated, is_dated_name};
use crate::text::same_text;
use chrono::DateTime;
use sha2::Digest;
use sha2::Sha256;
use vstd::prelude::*;
use vstd::utf8::encode_utf8;

verus! {

/// The SHA-256 digest of the bytes, as the `sha2` crate computes it.
pub uninterp spec fn sha256_of(data: Seq<u8>) -> Seq<u8>;

/// The time that `chrono` reads from a text in the form of RFC 3339, in
/// seconds since 1970-01-01 00:00:00 UTC, if it reads one.
pub uninterp spec fn timestamp_of_text(text: Seq<char>) -> Option<i64>;

/// Trusted, not proved: feeds the bytes to a new `sha2::Sha256` hasher with
/// `Digest::update` and takes the digest from `Digest::finalize`; the
/// contract only gives the digest its name, `sha256_of`.
#[verifier::external_body]
fn sha256(data: &[u8]) -> (r: Vec<u8>)
    ensures
        r@ == sha256_of(data@),
{
    let mut hasher = Sha256::new();
    hasher.update(data);
    hasher.finalize().to_vec()
}

/// Trusted, not proved: calls `chrono::DateTime::parse_from_rfc3339` and
/// takes the `timestamp` of the time that was read, `None` for any parse
/// error; the contract only gives that result its name,
/// `timestamp_of_text`.
#[verifier::external_body]
fn read_timestamp(text: &str) -> (r: Option<i64>)
    ensures
        r == timestamp_of_text(text@),
{
    DateTime::parse_from_rfc3339(text).ok().map(|t| t.timestamp())
}

/// The sixteen hexadecimal digits, in lower case.
pub open spec fn hex_digits() -> Seq<char> {
    seq!['0', '1', '2', '3', '4', '5', '6', '7', '8', '9', 'a', 'b', 'c', 'd', 'e', 'f']
}

/// The bytes in hexadecimal digits: two digits in lower case for each
/// byte, the higher digit first.
pub open spec fn hex_of(data: Seq<u8>) -> Seq<char>
    decreases data.len(),
{
    if data.len() == 0 {
        Seq::empty()
    } else {
        hex_of(data.drop_last()) + seq![
            hex_digits()[data.last() as int / 16],
            hex_digits()[data.last() as int % 16],
        ]
    }
}

/// What the server keeps as the digest of a file with the given content:
/// the SHA-256 digest of the content in UTF-8, in hexadecimal digits.
pub open spec fn hash_of(content: Seq<char>) -> Seq<char> {
    hex_of(sha256_of(encode_utf8(content)))
}

/// The time that a text gives in seconds since 1970, where it gives a
/// time that is not before 1970.
pub open spec fn seconds_of(text: Seq<char>) -> Option<i64> {
    match timestamp_of_text(text) {
        Some(t) => if t >= 0 {
            Some(t)
        } else {
            None
        },
        None => None,
    }
}

/// The hexadecimal digit for a number below 16, as a text.
fn hex_digit(n: u8) -> (r: &'static str)
    requires
        n < 16,
    ensures
        r@ == seq![hex_digits()[n as int]],
{
    proof {
        reveal_strlit("0");
        reveal_strlit("1");
        reveal_strlit("2");
        reveal_strlit("3");
        reveal_strlit("4");
        reveal_strlit("5");
        reveal_strlit("6");
        reveal_strlit("7");
        reveal_strlit("8");
        reveal_strlit("9");
        reveal_strlit("a");
        reveal_strlit("b");
        reveal_strlit("c");
        reveal_strlit("d");
        reveal_strlit("e");
        reveal_strlit("f");
    }
    let r = match n {
        0 => "0",
        1 => "1",
        2 => "2",
        3 => "3",
        4 => "4",
        5 => "5",
        6 => "6",
        7 => "7",
        8 => "8",
        9 => "9",
        10 => "a",
        11 => "b",
        12 => "c",
        13 => "d",
        14 => "e",
        _ => "f",
    };
    assert(r@ =~= seq![hex_digits()[n as int]]);
    r
}

/// The bytes in hexadecimal digits.
pub fn to_hex(data: &[u8]) -> (r: String)
    ensures
        r@ == hex_of(data@),
{
    let mut out = String::new();
    let n = data.len();
    let mut i: usize = 0;
    assert(data@.take(0) =~= Seq::<u8>::empty());
    while i < n
        invariant
            i <= n == data@.len(),
            out@ == hex_of(data@.take(i as int)),
        decreases n - i,
    {
        let byte = data[i];
        proof {
            assert(data@.take(i + 1).drop_last() =~= data@.take(i as int));
            assert(data@.take(i + 1).last() == byte);
        }
        out.append(hex_digit(byte / 16));
        out.append(hex_digit(byte % 16));
        i += 1;
    }
    assert(data@.take(n as int) =~= data@);
    out
}

/// The digest of a file with the given content, as the server keeps it.
pub fn hash_content(content: &str) -> (r: String)
    ensures
        r@ == hash_of(content@),
{
    let digest = sha256(content.as_bytes());
    to_hex(digest.as_slice())
}

/// The time that the server gives for a file, in seconds since 1970.
/// `None` says that the text is no time, or a time before 1970.
pub fn parse_js_date(js_date: &str) -> (r: Option<i64>)
    ensures
        r == seconds_of(js_date@),
{
    match read_timestamp(js_date) {
        Some(t) => if t >= 0 {
            Some(t)
        } else {
            None
        },
        None => None,
    }
}

/// The whole seconds from 1970 to a time, rounded down. The time is given
/// by its distance from 1970 in seconds and in nanoseconds of the next
/// second, and by whether it lies before 1970.
pub open spec fn whole_seconds(before: bool, secs: int, nanos: int) -> int {
    if !before {
        secs
    } else if nanos > 0 {
        -secs - 1
    } else {
        -secs
    }
}

/// The number of type `i64` that is nearest to `n`.
pub open spec fn nearest_i64(n: int) -> int {
    if n > i64::MAX {
        i64::MAX as int
    } else if n < i64::MIN {
        i64::MIN as int
    } else {
        n
    }
}

/// When a file on disk was last changed, in whole seconds since 1970,
/// rounded down, from the distance of that time from 1970. A time that is
/// too far from 1970 to be counted is taken as the farthest that can be.
pub fn seconds_since_epoch(before: bool, secs: u64, nanos: u32) -> (r: i64)
    ensures
        r == nearest_i64(whole_seconds(before, secs as int, nanos as int)),
{
    if secs > i64::MAX as u64 {
        if before {
            i64::MIN
        } else {
            i64::MAX
        }
    } else if !before {
        secs as i64
    } else if nanos > 0 {
        -(secs as i64) - 1
    } else {
        -(secs as i64)
    }
}

/// What is known of a file, on disk or on the server, as a mathematical
/// value.
pub struct RecordView {
    /// The name of the file, with its extension.
    pub name: Seq<char>,
    /// The digest of its content.
    pub hash: Seq<char>,
    /// When it was last changed, or sent, in whole seconds since 1970.
    pub modified: int,
}

/// What is known of a file, on disk or on the server.
#[derive(Clone, Debug, PartialEq, Eq)]
pub struct FileRecord {
    /// The name of the file, with its extension.
    pub name: String,
    /// The digest of its content.
    pub hash: String,
    /// When it was last changed, or sent, in whole seconds since 1970.
    pub modified: i64,
}

impl DeepView for FileRecord {
    type V = RecordView;

    open spec fn deep_view(&self) -> RecordView {
        RecordView { name: self.name@, hash: self.hash@, modified: self.modified as int }
    }
}

impl View for FileRecord {
    type V = RecordView;

    open spec fn view(&self) -> RecordView {
        self.deep_view()
    }
}

/// The record of the file with the given name: the last one, where
/// several records have the name.
pub open spec fn record_of(records: Seq<RecordView>, name: Seq<char>) -> Option<RecordView>
    decreases records.len(),
{
    if records.len() == 0 {
        None
    } else if records.last().name == name {
        Some(records.last())
    } else {
        record_of(records.drop_last(), name)
    }
}

/// Whether a file on disk is sent to the server: it is a file of a day,
/// and the server has no file of its name, or has one with other content
/// that is not newer.
pub open spec fn is_sent(file: RecordView, uploaded: Seq<RecordView>) -> bool {
    is_dated_name(file.name) && match record_of(uploaded, file.name) {
        Some(theirs) => file.hash != theirs.hash && file.modified >= theirs.modified,
        None => true,
    }
}

/// The test for being sent.
pub open spec fn sent_to(uploaded: Seq<RecordView>) -> spec_fn(RecordView) -> bool {
    |file: RecordView| is_sent(file, uploaded)
}

/// The name of a record.
pub open spec fn record_name() -> spec_fn(RecordView) -> Seq<char> {
    |file: RecordView| file.name
}

/// The names of the files that are sent, in the order of the files on
/// disk.
pub open spec fn sent_names(local: Seq<RecordView>, uploaded: Seq<RecordView>) -> Seq<Seq<char>> {
    local.filter(sent_to(uploaded)).map_values(record_name())
}

/// Whether a file of the server is fetched: it is not sent, and the disk
/// has no file of its name, or has one with other content.
pub open spec fn is_fetched(
    theirs: RecordView,
    local: Seq<RecordView>,
    sent: Seq<Seq<char>>,
) -> bool {
    !sent.contains(theirs.name) && match record_of(local, theirs.name) {
        Some(file) => file.hash != theirs.hash,
        None => true,
    }
}

/// The names of the files that are fetched, each once, the last file of
/// the server first. Of several records with one name the last one
/// counts.
pub open spec fn fetched_names(
    uploaded: Seq<RecordView>,
    local: Seq<RecordView>,
    sent: Seq<Seq<char>>,
) -> Seq<Seq<char>>
    decreases uploaded.len(),
{
    if uploaded.len() == 0 {
        Seq::empty()
    } else {
        let rest = uploaded.drop_first();
        let more = fetched_names(rest, local, sent);
        if record_of(rest, uploaded[0].name) is None && is_fetched(uploaded[0], local, sent) {
            more.push(uploaded[0].name)
        } else {
            more
        }
    }
}

/// The last record with a name is the record of that name.
pub proof fn lemma_record_is(records: Seq<RecordView>, name: Seq<char>, i: int)
    requires
        0 <= i < records.len(),
        records[i].name == name,
        forall|j: int| i < j < records.len() ==> (#[trigger] records[j]).name != name,
    ensures
        record_of(records, name) == Some(records[i]),
    decreases records.len(),
{
    if i < records.len() - 1 {
        let front = records.drop_last();
        assert(records.last().name != name);
        assert(front[i] == records[i]);
        assert forall|j: int| i < j < front.len() implies (#[trigger] front[j]).name != name by {
            assert(front[j] == records[j]);
        }
        lemma_record_is(front, name, i);
    }
}

/// A name that no record has has no record.
pub proof fn lemma_record_none(records: Seq<RecordView>, name: Seq<char>)
    requires
        forall|j: int| 0 <= j < records.len() ==> (#[trigger] records[j]).name != name,
    ensures
        record_of(records, name) is None,
    decreases records.len(),
{
    if records.len() > 0 {
        let front = records.drop_last();
        assert(records.last().name != name);
        assert forall|j: int| 0 <= j < front.len() implies (#[trigger] front[j]).name != name by {
            assert(front[j] == records[j]);
        }
        lemma_record_none(front, name);
    }
}

/// The place of the record of a name among the records from `from` on.
pub fn find_record(records: &Vec<FileRecord>, from: usize, name: &str) -> (r: Option<usize>)
    requires
        from <= records@.len(),
    ensures
        match r {
            Some(i) => from <= i < records@.len() && record_of(
                records.deep_view().skip(from as int),
                name@,
            ) == Some(records.deep_view()[i as int]),
            None => record_of(records.deep_view().skip(from as int), name@) is None,
        },
{
    let ghost part = records.deep_view().skip(from as int);
    let mut i: usize = records.len();
    while i > from
        invariant
            from <= i <= records@.len(),
            part == records.deep_view().skip(from as int),
            forall|j: int| i - from <= j < part.len() ==> (#[trigger] part[j]).name != name@,
        decreases i,
    {
        i -= 1;
        if same_text(records[i].name.as_str(), name) {
            proof {
                assert(part[i - from] == records.deep_view()[i as int]);
                lemma_record_is(part, name@, i - from);
            }
            return Some(i);
        }
        assert(part[i - from] == records.deep_view()[i as int]);
    }
    proof {
        lemma_record_none(part, name@);
    }
    None
}

/// Which files are sent to the server and which are fetched from it.
#[derive(Clone, Debug, PartialEq, Eq)]
pub struct SyncPlan {
    /// The names of the files to send.
    pub upload: Vec<String>,
    /// The names of the files to fetch.
    pub download: Vec<String>,
}

/// Whether one of the names is `name`.
fn is_among(names: &Vec<String>, name: &str) -> (b: bool)
    ensures
        b == names.deep_view().contains(name@),
{
    let n = names.len();
    let mut i: usize = 0;
    while i < n
        invariant
            i <= n == names@.len(),
            forall|j: int| 0 <= j < i ==> names.deep_view()[j] != name@,
        decreases n - i,
    {
        if same_text(names[i].as_str(), name) {
            assert(names.deep_view()[i as int] == name@);
            return true;
        }
        i += 1;
    }
    false
}

/// Decides which files are sent and which are fetched, from the files on
/// disk and the files that the server has.
pub fn sync_files(local: &Vec<FileRecord>, uploaded: &Vec<FileRecord>) -> (plan: SyncPlan)
    ensures
        plan.upload.deep_view() == sent_names(local.deep_view(), uploaded.deep_view()),
        plan.download.deep_view() == fetched_names(
            uploaded.deep_view(),
            local.deep_view(),
            plan.upload.deep_view(),
        ),
{
    let ghost here = local.deep_view();
    let ghost there = uploaded.deep_view();
    let mut upload: Vec<String> = Vec::new();
    let n = local.len();
    let mut i: usize = 0;
    proof {
        reveal(Seq::filter);
        assert(here.take(0) =~= Seq::<RecordView>::empty());
        assert(there.skip(0) =~= there);
    }
    assert(upload.deep_view() =~= sent_names(here.take(0), there));
    while i < n
        invariant
            i <= n == local@.len(),
            here == local.deep_view(),
            there == uploaded.deep_view(),
            there.skip(0) == there,
            upload.deep_view() == sent_names(here.take(i as int), there),
        decreases n - i,
    {
        let file = &local[i];
        let ghost before = upload.deep_view();
        proof {
            assert(here.take(i + 1) =~= here.take(i as int).push(file@));
            here.take(i as int).lemma_filter_push(file@, sent_to(there));
            if is_sent(file@, there) {
                here.take(i as int).filter(sent_to(there)).lemma_push_map_commute(
                    record_name(),
                    file@,
                );
            }
        }
        let sent = is_dated(file.name.as_str()) && match find_record(
            uploaded,
            0,
            file.name.as_str(),
        ) {
            Some(at) => !same_text(file.hash.as_str(), uploaded[at].hash.as_str()) && file.modified
                >= uploaded[at].modified,
            None => true,
        };
        if sent {
            upload.push(file.name.clone());
            assert(upload.deep_view() =~= before.push(file@.name));
        }
        i += 1;
    }
    assert(here.take(n as int) =~= here);
    let ghost sent = upload.deep_view();
    let mut download: Vec<String> = Vec::new();
    let m = uploaded.len();
    let mut k: usize = m;
    assert(download.deep_view() =~= fetched_names(there.skip(m as int), here, sent));
    while k > 0
        invariant
            k <= m == uploaded@.len(),
            here == local.deep_view(),
            here.skip(0) == here,
            there == uploaded.deep_view(),
            sent == upload.deep_view(),
            download.deep_view() == fetched_names(there.skip(k as int), here, sent),
        decreases k,
    {
        k -= 1;
        let theirs = &uploaded[k];
        let ghost before = download.deep_view();
        proof {
            assert(there.skip(k as int).drop_first() =~= there.skip(k + 1));
            assert(there.skip(k as int)[0] == theirs@);
            assert(here.skip(0) =~= here);
        }
        let counts = find_record(uploaded, k + 1, theirs.name.as_str()).is_none();
        let fetched = counts && !is_among(&upload, theirs.name.as_str()) && match find_record(
            local,
            0,
            theirs.name.as_str(),
        ) {
            Some(at) => !same_text(local[at].hash.as_str(), theirs.hash.as_str()),
            None => true,
        };
        if fetched {
            download.push(theirs.name.clone());
            assert(download.deep_view() =~= before.push(theirs@.name));
        }
    }
    assert(there.skip(0) =~= there);
    SyncPlan { upload, download }
}

/// Why a login was refused.
#[derive(Clone, Copy, Debug, PartialEq, Eq, Structural)]
pub enum ChallengeError {
    /// The challenge was completed before.
    AlreadyCompleted,
    /// The server does not know the challenge.
    NotFound,
    /// Nobody has answered the challenge yet.
    NotClaimed,
    /// The challenge is too old.
    Expired,
}

/// The error that a code of the server stands for.
pub open spec fn error_named(code: Seq<char>) -> Option<ChallengeError> {
    if code == "ALREADY_COMPLETED"@ {
        Some(ChallengeError::AlreadyCompleted)
    } else if code == "NOT_FOUND"@ {
        Some(ChallengeError::NotFound)
    } else if code == "NOT_CLAIMED"@ {
        Some(ChallengeError::NotClaimed)
    } else if code == "EXPIRED"@ {
        Some(ChallengeError::Expired)
    } else {
        None
    }
}

/// The error that a code of the server stands for, if it is a code that
/// the server is known to give.
pub fn challenge_error(code: &str) -> (r: Option<ChallengeError>)
    ensures
        r == error_named(code@),
{
    if same_text(code, "ALREADY_COMPLETED") {
        Some(ChallengeError::AlreadyCompleted)
    } else if same_text(code, "NOT_FOUND") {
        Some(ChallengeError::NotFound)
    } else if same_text(code, "NOT_CLAIMED") {
        Some(ChallengeError::NotClaimed)
    } else if same_text(code, "EXPIRED") {
        Some(ChallengeError::Expired)
    } else {
        None
    }
}

/// What the answer of the server to a finished challenge is, by its
/// status.
#[derive(Clone, Copy, Debug, PartialEq, Eq, Structural)]
pub enum Reply {
    /// Status 200: the answer holds the access token.
    Granted,
    /// Status 400: the answer holds the code of an error.
    Refused,
    /// Any other status.
    Unexpected,
}

/// What the answer of the server is, by its status.
pub fn reply_of_status(status: u16) -> (r: Reply)
    ensures
        r == if status == 200 {
            Reply::Granted
        } else if status == 400 {
            Reply::Refused
        } else {
            Reply::Unexpected
        },
{
    if status == 200 {
        Reply::Granted
    } else if status == 400 {
        Reply::Refused
    } else {
        Reply::Unexpected
    }
}

/// Whether to ask the server again after a login was refused: only while
/// nobody has answered the challenge yet.
pub fn asks_again(error: ChallengeError) -> (b: bool)
    ensures
        b == (error == ChallengeError::NotClaimed),
{
    match error {
        ChallengeError::NotClaimed => true,
        _ => false,
    }
}

} // verus!
