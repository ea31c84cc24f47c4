use rustsync::backup::{change_line, destination_outside_source, files_to_back_up, needs_backup, run_mode};
use rustsync::digest::{file_hash, hex_lower};
use rustsync::network::{backup_request, reply_accepted};
use rustsync::{FileChange, FileEntry, FileState, Timestamp};

fn strings(v: &[&str]) -> Vec<String> {
    v.iter().map(|s| s.to_string()).collect()
}

fn change(path: &str, state: FileState) -> FileChange {
    FileChange { path: String::from(path), state }
}

#[test]
fn only_new_and_modified_files_are_copied() {
    assert!(needs_backup(FileState::New));
    assert!(needs_backup(FileState::Modified));
    assert!(!needs_backup(FileState::Unchanged));
    assert!(!needs_backup(FileState::Deleted));
    let changes = vec![
        change("a", FileState::Unchanged),
        change("b", FileState::New),
        change("c", FileState::Deleted),
        change("d", FileState::Modified),
    ];
    assert_eq!(files_to_back_up(&changes), strings(&["b", "d"]));
}

#[test]
fn report_lines_name_the_state() {
    assert_eq!(change_line(&change("x/y", FileState::Modified)), "Modified: x/y");
    assert_eq!(change_line(&change("n", FileState::New)), "New: n");
    assert_eq!(change_line(&change("u", FileState::Unchanged)), "Unchanged: u");
    assert_eq!(change_line(&change("d", FileState::Deleted)), "Deleted: d");
}

#[test]
fn command_line_modes() {
    assert_eq!(run_mode(&strings(&["rustsync", "src", "dst"])), Some(false));
    assert_eq!(run_mode(&strings(&["rustsync", "src", "dst", "--dry-run"])), Some(true));
    assert_eq!(run_mode(&strings(&["rustsync", "src", "dst", "--dry"])), None);
    assert_eq!(run_mode(&strings(&["rustsync", "src"])), None);
    assert_eq!(run_mode(&strings(&["rustsync", "a", "b", "--dry-run", "x"])), None);
}

#[test]
fn destination_must_not_lie_inside_source() {
    let src = "/home/me";
    assert!(!destination_outside_source(src, "/home/me/backup"));
    assert!(!destination_outside_source(src, "/home/me"));
    assert!(!destination_outside_source(src, "/home//me/./backup/"));
    assert!(destination_outside_source(src, "/home/meow"));
    assert!(destination_outside_source(src, "/home"));
    assert!(destination_outside_source(src, "/tmp/me"));
    assert!(destination_outside_source(src, "home/me/x"));
}

#[test]
fn hex_is_lowercase_two_digits_per_byte() {
    assert_eq!(hex_lower(&[0x00, 0xff, 0x1a, 0x09]), "00ff1a09");
    assert_eq!(hex_lower(&[]), "");
}

#[test]
fn file_hash_is_sha256_in_hex() {
    assert_eq!(file_hash(b"abc"), "ba7816bf8f01cfea414140de5dae2223b00361a396177a9cb410ff61f20015ad");
    assert_eq!(file_hash(b""), "e3b0c44298fc1c149afbf4c8996fb92427ae41e4649b934ca495991b7852b855");
    assert_eq!(file_hash(b"hello world").len(), 64);
}

#[test]
fn server_replies() {
    assert!(reply_accepted(true, "OK"));
    assert!(!reply_accepted(false, "OK"));
    assert!(!reply_accepted(true, "OK\n"));
    assert!(!reply_accepted(true, "ok"));
    assert!(!reply_accepted(true, ""));
}

#[test]
fn backup_request_carries_path_size_and_digest() {
    let e = FileEntry::new(String::from("a/b"), 42, Timestamp { secs: 1, nanos: 0 }, String::from("abcd"));
    let req = backup_request(&e);
    assert_eq!(req.path, "a/b");
    assert_eq!(req.size, 42);
    assert_eq!(req.hash, "abcd");
}
