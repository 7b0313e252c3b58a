use doto::sync::{
    asks_again, challenge_error, find_record, hash_content, parse_js_date, reply_of_status,
    seconds_since_epoch, sync_files, to_hex, ChallengeError, FileRecord, Reply, SyncPlan,
};

fn record(name: &str, hash: &str, modified: i64) -> FileRecord {
    FileRecord { name: name.to_string(), hash: hash.to_string(), modified }
}

fn names(texts: &[&str]) -> Vec<String> {
    texts.iter().map(|t| t.to_string()).collect()
}

#[test]
fn bytes_in_hexadecimal_digits() {
    assert_eq!(to_hex(&[]), "");
    assert_eq!(to_hex(&[0]), "00");
    assert_eq!(to_hex(&[0x0f, 0xf0, 0xab, 0x09, 0xff]), "0ff0ab09ff");
    let all: Vec<u8> = (0..=255).collect();
    let expected: String = all.iter().map(|b| format!("{:02x}", b)).collect();
    assert_eq!(to_hex(&all), expected);
}

#[test]
fn the_digest_of_a_content() {
    assert_eq!(hash_content(""), "e3b0c44298fc1c149afbf4c8996fb92427ae41e4649b934ca495991b7852b855");
    assert_eq!(hash_content("abc"), "ba7816bf8f01cfea414140de5dae2223b00361a396177a9cb410ff61f20015ad");
    assert_eq!(
        hash_content("# 2024-02-09\n- [ ] caf\u{e9}\n"),
        "db1e1623827cec6bbca9bd82c5a80d2aba0a9c9a7b528c121f464a923c68fdf6"
    );
}

#[test]
fn the_time_of_a_file_of_the_server() {
    assert_eq!(parse_js_date("1970-01-01T00:00:00Z"), Some(0));
    assert_eq!(parse_js_date("2015-05-15T00:00:00.000Z"), Some(1431648000));
    assert_eq!(parse_js_date("2015-05-15T02:00:00+02:00"), Some(1431648000));
    assert_eq!(parse_js_date("1969-12-31T23:59:59Z"), None);
    assert_eq!(parse_js_date("yesterday"), None);
    assert_eq!(parse_js_date(""), None);
}

#[test]
fn the_last_record_of_a_name_counts() {
    let records = vec![record("a.md", "1", 1), record("b.md", "2", 2), record("a.md", "3", 3)];
    assert_eq!(find_record(&records, 0, "a.md"), Some(2));
    assert_eq!(find_record(&records, 0, "b.md"), Some(1));
    assert_eq!(find_record(&records, 2, "b.md"), None);
    assert_eq!(find_record(&records, 3, "a.md"), None);
    assert_eq!(find_record(&records, 0, "c.md"), None);
}

#[test]
fn a_file_that_the_server_does_not_have_is_sent() {
    let plan = sync_files(&vec![record("2024-02-09.md", "h1", 100)], &vec![]);
    assert_eq!(plan, SyncPlan { upload: names(&["2024-02-09.md"]), download: names(&[]) });
}

#[test]
fn a_file_that_the_disk_does_not_have_is_fetched() {
    let plan = sync_files(&vec![], &vec![record("2024-02-09.md", "h1", 100)]);
    assert_eq!(plan, SyncPlan { upload: names(&[]), download: names(&["2024-02-09.md"]) });
}

#[test]
fn a_file_with_the_same_content_is_left_alone() {
    let plan = sync_files(
        &vec![record("2024-02-09.md", "h1", 500)],
        &vec![record("2024-02-09.md", "h1", 100)],
    );
    assert_eq!(plan, SyncPlan { upload: names(&[]), download: names(&[]) });
}

#[test]
fn of_two_contents_the_newer_one_wins() {
    let newer_here = sync_files(
        &vec![record("2024-02-09.md", "h1", 500)],
        &vec![record("2024-02-09.md", "h2", 100)],
    );
    assert_eq!(newer_here, SyncPlan { upload: names(&["2024-02-09.md"]), download: names(&[]) });
    let newer_there = sync_files(
        &vec![record("2024-02-09.md", "h1", 100)],
        &vec![record("2024-02-09.md", "h2", 500)],
    );
    assert_eq!(newer_there, SyncPlan { upload: names(&[]), download: names(&["2024-02-09.md"]) });
    let same_time = sync_files(
        &vec![record("2024-02-09.md", "h1", 100)],
        &vec![record("2024-02-09.md", "h2", 100)],
    );
    assert_eq!(same_time, SyncPlan { upload: names(&["2024-02-09.md"]), download: names(&[]) });
}

#[test]
fn only_files_of_days_are_sent() {
    let plan = sync_files(
        &vec![
            record("later.md", "h1", 100),
            record("notes.txt", "h2", 100),
            record("todo.md", "h3", 100),
            record("2024-02-09.md", "h4", 100),
        ],
        &vec![],
    );
    assert_eq!(plan, SyncPlan { upload: names(&["todo.md", "2024-02-09.md"]), download: names(&[]) });
}

#[test]
fn any_file_of_the_server_may_be_fetched() {
    let plan = sync_files(
        &vec![record("later.md", "old", 100)],
        &vec![record("later.md", "new", 50), record("x.txt", "h", 1)],
    );
    assert_eq!(plan, SyncPlan { upload: names(&[]), download: names(&["x.txt", "later.md"]) });
}

#[test]
fn a_name_that_the_server_gives_twice_is_fetched_once() {
    let plan = sync_files(
        &vec![record("a.md", "h2", 0)],
        &vec![record("a.md", "h1", 5), record("b.md", "h", 5), record("a.md", "h2", 5)],
    );
    assert_eq!(plan, SyncPlan { upload: names(&[]), download: names(&["b.md"]) });
}

#[test]
fn codes_of_the_server() {
    assert_eq!(challenge_error("ALREADY_COMPLETED"), Some(ChallengeError::AlreadyCompleted));
    assert_eq!(challenge_error("NOT_FOUND"), Some(ChallengeError::NotFound));
    assert_eq!(challenge_error("NOT_CLAIMED"), Some(ChallengeError::NotClaimed));
    assert_eq!(challenge_error("EXPIRED"), Some(ChallengeError::Expired));
    assert_eq!(challenge_error("expired"), None);
    assert_eq!(challenge_error(""), None);
}

#[test]
fn answers_of_the_server() {
    assert_eq!(reply_of_status(200), Reply::Granted);
    assert_eq!(reply_of_status(400), Reply::Refused);
    assert_eq!(reply_of_status(404), Reply::Unexpected);
    assert_eq!(reply_of_status(500), Reply::Unexpected);
    assert_eq!(reply_of_status(0), Reply::Unexpected);
}

#[test]
fn only_an_unclaimed_challenge_is_asked_for_again() {
    assert!(asks_again(ChallengeError::NotClaimed));
    assert!(!asks_again(ChallengeError::AlreadyCompleted));
    assert!(!asks_again(ChallengeError::NotFound));
    assert!(!asks_again(ChallengeError::Expired));
}

#[test]
fn whole_seconds_are_rounded_down() {
    assert_eq!(seconds_since_epoch(false, 0, 0), 0);
    assert_eq!(seconds_since_epoch(false, 100, 999_999_999), 100);
    assert_eq!(seconds_since_epoch(false, 1431648000, 5), 1431648000);
    assert_eq!(seconds_since_epoch(true, 0, 0), 0);
    assert_eq!(seconds_since_epoch(true, 0, 1), -1);
    assert_eq!(seconds_since_epoch(true, 100, 0), -100);
    assert_eq!(seconds_since_epoch(true, 100, 500_000_000), -101);
}

#[test]
fn times_too_far_from_1970_are_the_farthest_that_can_be() {
    assert_eq!(seconds_since_epoch(false, i64::MAX as u64, 0), i64::MAX);
    assert_eq!(seconds_since_epoch(false, i64::MAX as u64 + 1, 0), i64::MAX);
    assert_eq!(seconds_since_epoch(false, u64::MAX, 7), i64::MAX);
    assert_eq!(seconds_since_epoch(true, i64::MAX as u64, 0), -i64::MAX);
    assert_eq!(seconds_since_epoch(true, i64::MAX as u64, 1), i64::MIN);
    assert_eq!(seconds_since_epoch(true, i64::MAX as u64 + 1, 0), i64::MIN);
    assert_eq!(seconds_since_epoch(true, u64::MAX, 1), i64::MIN);
}
