use rustsync::state::{is_recorded, skip_message, skipped_state_lines, LineIssue};
use rustsync::state::{parse_state, render_state, state_times_fit};
use rustsync::{FileEntry, Timestamp};

fn entry(path: &str, size: u64, secs: i64, nanos: u32, hash: &str) -> FileEntry {
    FileEntry::new(String::from(path), size, Timestamp { secs, nanos }, String::from(hash))
}

fn same(a: &FileEntry, b: &FileEntry) -> bool {
    a.path == b.path && a.size == b.size && a.modified == b.modified && a.hash == b.hash
}

#[test]
fn render_writes_one_line_per_entry() {
    let entries = vec![entry("a.txt", 10, 1_000_000, 5, "abc"), entry("dir/b", 0, 0, 0, "")];
    assert_eq!(render_state(&entries), "a.txt|10|1000000|5|abc\ndir/b|0|0|0|\n");
}

#[test]
fn render_leaves_out_times_before_the_epoch() {
    let entries = vec![entry("old", 1, -5, 0, "h"), entry("new", 2, 7, 1, "g")];
    assert_eq!(render_state(&entries), "new|2|7|1|g\n");
}

#[test]
fn state_roundtrip_gives_entries_back() {
    let entries = vec![
        entry("a.txt", 10, 1_000_000, 5, "abc"),
        entry("b b/ü", u64::MAX, i64::MAX, 999_999_999, "ff00"),
        entry("c", 0, 0, 0, ""),
    ];
    let text = render_state(&entries);
    assert!(state_times_fit(&text));
    let back = parse_state(&text);
    assert_eq!(back.len(), entries.len());
    for (x, y) in back.iter().zip(entries.iter()) {
        assert!(same(x, y));
    }
}

#[test]
fn parse_accepts_crlf_and_plus_signs() {
    let back = parse_state("p|+3|4|5|h\r\nq|1|2|3|k");
    assert_eq!(back.len(), 2);
    assert!(same(&back[0], &entry("p", 3, 4, 5, "h")));
    assert!(same(&back[1], &entry("q", 1, 2, 3, "k")));
}

#[test]
fn parse_keeps_a_final_carriage_return() {
    let back = parse_state("q|1|2|3|k\r");
    assert_eq!(back.len(), 1);
    assert_eq!(back[0].hash, "k\r");
}

#[test]
fn parse_skips_malformed_lines() {
    let text = "\nonly|three|fields\na|x|1|1|h\nb|1|-1|1|h\nc|1|1|4294967296|h\nd|18446744073709551616|1|1|h\ne|+|1|1|h\nf|1|1|1|h|extra\ng|1|1|1|ok\n";
    let back = parse_state(text);
    assert_eq!(back.len(), 1);
    assert!(same(&back[0], &entry("g", 1, 1, 1, "ok")));
}

#[test]
fn parse_carries_nanoseconds_into_seconds() {
    let back = parse_state("n|1|5|2000000001|h\n");
    assert_eq!(back.len(), 1);
    assert_eq!(back[0].modified, Timestamp { secs: 7, nanos: 1 });
}

#[test]
fn times_beyond_range_are_detected() {
    assert!(!state_times_fit("x|1|9223372036854775807|1000000000|h\n"));
    assert!(!state_times_fit("x|1|18446744073709551615|0|h\n"));
    assert!(state_times_fit("x|1|9223372036854775807|999999999|h\n"));
    assert!(state_times_fit("not a record\n"));
    assert!(state_times_fit(""));
}

#[test]
fn empty_state_has_no_entries() {
    assert_eq!(parse_state("").len(), 0);
    assert_eq!(parse_state("\n\n").len(), 0);
    assert_eq!(render_state(&[]), "");
}

#[test]
fn rejected_lines_are_listed_with_their_reason() {
    let text = "a|x|1|1|h\nshort|line\nb|1|-1|1|h\r\nc|1|1|4294967296|h\nd|1|18446744073709551615|0|h\ne|1|1|1|ok\n";
    let skipped = skipped_state_lines(text);
    let got: Vec<(LineIssue, String)> = skipped.iter().map(|s| (s.issue, s.line.clone())).collect();
    assert_eq!(
        got,
        vec![
            (LineIssue::BadSize, String::from("a|x|1|1|h")),
            (LineIssue::BadSeconds, String::from("b|1|-1|1|h")),
            (LineIssue::BadNanos, String::from("c|1|1|4294967296|h")),
            (LineIssue::TimeOutOfRange, String::from("d|1|18446744073709551615|0|h")),
        ]
    );
    assert_eq!(skip_message(&skipped[0]), "Error retrieving file size during loading: a|x|1|1|h");
    assert_eq!(skip_message(&skipped[1]), "Error getting file modification seconds during loading: b|1|-1|1|h");
    assert_eq!(skip_message(&skipped[2]), "Error getting file modification nanoseconds during loading: c|1|1|4294967296|h");
    assert!(is_recorded(&entry("x", 1, 0, 0, "h")));
    assert!(!is_recorded(&entry("x", 1, -1, 999_999_999, "h")));
}
