use rustsync::path::{components, key_of, paths_equal};
use rustsync::scanner::reusable_hash;
use rustsync::{compare_scans, should_ignore, FileChange, FileEntry, FileState, Timestamp};

fn at(secs: u64) -> Timestamp {
    Timestamp::after_epoch(secs, 0)
}

fn entry(path: &str, size: u64, secs: u64, hash: &str) -> FileEntry {
    FileEntry::new(String::from(path), size, at(secs), String::from(hash))
}

#[test]
fn test_compare_unchanged() {
    let first = FileEntry::new(String::from("test"), 10, at(1_000_000), String::from("this_is_a_hash"));
    let second = FileEntry::new(String::from("test"), 10, at(1_000_000), String::from("this_is_a_hash"));

    let result = first.compare(&second);

    assert_eq!(result, FileState::Unchanged);
}

#[test]
fn test_compare_modified_size_only() {
    let first = FileEntry::new(String::from("test"), 20, at(1_000_000), String::from("this_is_a_hash"));
    let second = FileEntry::new(String::from("test"), 10, at(1_000_000), String::from("this_is_a_hash"));

    let result = first.compare(&second);

    assert_eq!(result, FileState::Modified);
}

#[test]
fn test_compare_unchanged_with_different_timestamp() {
    let first = FileEntry::new(String::from("test"), 10, at(1_000_000), String::from("this_is_a_hash"));
    let second = FileEntry::new(String::from("test"), 10, at(2_000_000), String::from("this_is_a_hash"));

    let result = first.compare(&second);

    assert_eq!(result, FileState::Unchanged);
}

#[test]
fn test_compare_modified_hashed() {
    let first = FileEntry::new(String::from("test"), 10, at(1_000_000), String::from("this_is_a_hash"));
    let second = FileEntry::new(String::from("test"), 10, at(1_000_000), String::from("this_is_a_different_hash"));

    let result = first.compare(&second);

    assert_eq!(result, FileState::Modified);
}

#[test]
fn test_compare_scans_file_unchanged() {
    let previous = vec![
        FileEntry::new(String::from("test1"), 20, at(1_000_000), String::from("this_is_a_hash_1")),
    ];

    let current = vec![
        FileEntry::new(String::from("test1"), 20, at(1_000_000), String::from("this_is_a_hash_1")),
    ];

    let changes: Vec<FileChange> = compare_scans(&current, &previous);

    assert_eq!(changes.len(), 1);
    assert_eq!(changes[0].path, String::from("test1"));
    assert_eq!(changes[0].state, FileState::Unchanged);
}

#[test]
fn test_compare_scans_file_new() {
    let previous = vec![];

    let current = vec![
        FileEntry::new(String::from("test1"), 20, at(1_000_000), String::from("this_is_a_hash_1")),
    ];

    let changes: Vec<FileChange> = compare_scans(&current, &previous);

    assert_eq!(changes.len(), 1);
    assert_eq!(changes[0].path, String::from("test1"));
    assert_eq!(changes[0].state, FileState::New);
}

#[test]
fn test_compare_scans_file_modified_hashed() {
    let previous = vec![
        FileEntry::new(String::from("test1"), 10, at(1_000_000), String::from("this_is_a_hash_1")),
    ];

    let current = vec![
        FileEntry::new(String::from("test1"), 10, at(1_000_000), String::from("this_is_a_hash_2")),
    ];

    let changes: Vec<FileChange> = compare_scans(&current, &previous);

    assert_eq!(changes.len(), 1);
    assert_eq!(changes[0].path, String::from("test1"));
    assert_eq!(changes[0].state, FileState::Modified);
}

#[test]
fn test_compare_scans_file_modified_size() {
    let previous = vec![
        FileEntry::new(String::from("test1"), 10, at(1_000_000), String::from("this_is_a_hash_1")),
    ];

    let current = vec![
        FileEntry::new(String::from("test1"), 20, at(1_000_000), String::from("this_is_a_hash_1")),
    ];

    let changes: Vec<FileChange> = compare_scans(&current, &previous);

    assert_eq!(changes.len(), 1);
    assert_eq!(changes[0].path, String::from("test1"));
    assert_eq!(changes[0].state, FileState::Modified);
}

#[test]
fn test_compare_scans_file_deleted() {
    let previous = vec![
        FileEntry::new(String::from("test1"), 10, at(1_000_000), String::from("this_is_a_hash_1")),
    ];

    let current = vec![];

    let changes: Vec<FileChange> = compare_scans(&current, &previous);

    assert_eq!(changes.len(), 1);
    assert_eq!(changes[0].path, String::from("test1"));
    assert_eq!(changes[0].state, FileState::Deleted);
}

#[test]
fn compare_is_reflexive_and_symmetric() {
    let a = entry("x", 1, 5, "h1");
    let b = entry("x", 2, 5, "h1");
    assert_eq!(a.compare(&a), FileState::Unchanged);
    assert_eq!(a.compare(&b), b.compare(&a));
    let c = entry("y", 1, 5, "h1");
    assert_eq!(a.compare(&c), FileState::Modified);
}

#[test]
fn compare_scans_mixed_report_order() {
    let previous = vec![entry("a", 1, 1, "ha"), entry("b", 2, 1, "hb"), entry("c", 3, 1, "hc")];
    let current = vec![entry("d", 4, 1, "hd"), entry("b", 2, 9, "hb"), entry("a", 1, 1, "zz")];
    let changes = compare_scans(&current, &previous);
    let got: Vec<(String, FileState)> = changes.iter().map(|c| (c.path.clone(), c.state)).collect();
    assert_eq!(
        got,
        vec![
            (String::from("d"), FileState::New),
            (String::from("b"), FileState::Unchanged),
            (String::from("a"), FileState::Modified),
            (String::from("c"), FileState::Deleted),
        ]
    );
}

#[test]
fn compare_scans_uses_last_previous_entry_of_a_path() {
    let previous = vec![entry("a", 1, 1, "old"), entry("a", 1, 1, "new")];
    let current = vec![entry("a", 1, 1, "new")];
    let changes = compare_scans(&current, &previous);
    assert_eq!(changes.len(), 1);
    assert_eq!(changes[0].state, FileState::Unchanged);
}

#[test]
fn compare_scans_reports_each_missing_previous_entry() {
    let previous = vec![entry("gone", 1, 1, "h"), entry("gone", 1, 1, "h")];
    let current: Vec<FileEntry> = vec![];
    let changes = compare_scans(&current, &previous);
    assert_eq!(changes.len(), 2);
    assert!(changes.iter().all(|c| c.state == FileState::Deleted && c.path == "gone"));
}

#[test]
fn compare_scans_of_a_scan_with_itself_is_all_unchanged() {
    let scan = vec![entry("a", 1, 1, "ha"), entry("b", 2, 3, "hb"), entry("c", 0, 7, "hc")];
    let changes = compare_scans(&scan, &scan);
    assert_eq!(changes.len(), 3);
    for (c, e) in changes.iter().zip(scan.iter()) {
        assert_eq!(c.path, e.path);
        assert_eq!(c.state, FileState::Unchanged);
    }
}

#[test]
fn compare_scans_from_and_to_nothing() {
    let scan = vec![entry("a", 1, 1, "ha"), entry("b", 2, 3, "hb")];
    let empty: Vec<FileEntry> = vec![];
    let from_nothing = compare_scans(&scan, &empty);
    assert!(from_nothing.iter().all(|c| c.state == FileState::New));
    assert_eq!(from_nothing[1].path, "b");
    let to_nothing = compare_scans(&empty, &scan);
    assert!(to_nothing.iter().all(|c| c.state == FileState::Deleted));
    assert_eq!(to_nothing[0].path, "a");
    assert_eq!(compare_scans(&empty, &empty).len(), 0);
}

#[test]
fn should_ignore_known_names_only() {
    assert!(should_ignore(Some("target")));
    assert!(should_ignore(Some(".git")));
    assert!(should_ignore(Some("rustsync_state.txt")));
    assert!(!should_ignore(Some("src")));
    assert!(!should_ignore(Some("targets")));
    assert!(!should_ignore(Some("")));
    assert!(!should_ignore(None));
}

#[test]
fn reusable_hash_keeps_digest_of_unchanged_file() {
    let previous = vec![entry("a", 5, 100, "ha"), entry("b", 6, 200, "hb")];
    assert_eq!(reusable_hash(&previous, "b", 6, at(200)), Some(String::from("hb")));
    assert_eq!(reusable_hash(&previous, "b", 7, at(200)), None);
    assert_eq!(reusable_hash(&previous, "b", 6, at(201)), None);
    assert_eq!(reusable_hash(&previous, "c", 6, at(200)), None);
}

#[test]
fn reusable_hash_looks_at_first_entry_of_a_path() {
    let previous = vec![entry("a", 5, 100, "first"), entry("a", 6, 200, "second")];
    assert_eq!(reusable_hash(&previous, "a", 6, at(200)), None);
    assert_eq!(reusable_hash(&previous, "a", 5, at(100)), Some(String::from("first")));
}

#[test]
fn timestamps_around_the_epoch() {
    let t = Timestamp::after_epoch(10, 2_500_000_000);
    assert_eq!(t, Timestamp { secs: 12, nanos: 500_000_000 });
    let u = Timestamp::before_epoch(3, 250);
    assert_eq!(u, Timestamp { secs: -4, nanos: 999_999_750 });
    let v = Timestamp::before_epoch(3, 0);
    assert_eq!(v, Timestamp { secs: -3, nanos: 0 });
}

#[test]
fn paths_compare_component_by_component() {
    let a = entry("a/b", 1, 1, "h");
    assert_eq!(a.compare(&entry("a//b", 1, 1, "h")), FileState::Unchanged);
    assert_eq!(a.compare(&entry("a/b/", 1, 1, "h")), FileState::Unchanged);
    assert_eq!(a.compare(&entry("a/./b", 1, 1, "h")), FileState::Unchanged);
    assert_eq!(a.compare(&entry("./a/b", 1, 1, "h")), FileState::Modified);
    assert_eq!(a.compare(&entry("/a/b", 1, 1, "h")), FileState::Modified);
    assert_eq!(a.compare(&entry("a/../b", 1, 1, "h")), FileState::Modified);
}

#[test]
fn compare_scans_matches_equal_paths_written_differently() {
    let previous = vec![entry("dir//f", 1, 1, "h"), entry("gone/", 2, 1, "g")];
    let current = vec![entry("dir/f", 1, 1, "h"), entry("gone", 2, 1, "g")];
    let changes = compare_scans(&current, &previous);
    assert_eq!(changes.len(), 2);
    assert_eq!(changes[0].path, "dir/f");
    assert_eq!(changes[0].state, FileState::Unchanged);
    assert_eq!(changes[1].state, FileState::Unchanged);
}

#[test]
fn reusable_hash_matches_equal_paths_written_differently() {
    let previous = vec![entry("dir/./f", 5, 100, "hf")];
    assert_eq!(reusable_hash(&previous, "dir/f", 5, at(100)), Some(String::from("hf")));
}

#[test]
fn path_components_and_keys() {
    assert_eq!(components("/a//b/./c/"), vec!["", "a", "b", "c"]);
    assert_eq!(components("./x"), vec![".", "x"]);
    assert_eq!(components("."), vec!["."]);
    assert_eq!(components(""), Vec::<String>::new());
    assert_eq!(components("../y"), vec!["..", "y"]);
    assert_eq!(key_of("a//b/"), "a/b/");
    assert!(paths_equal("x/y", "x/./y/"));
    assert!(!paths_equal("x/y", "x/y/z"));
}
