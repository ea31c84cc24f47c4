//! What the backup server is told, and how its replies are judged.

use vstd::prelude::*;

use crate::scanner::FileEntry;
use crate::text::text_eq;

verus! {

/// The record sent to the server for one file.
#[derive(Debug)]
pub struct BackupRequest {
    pub path: String,
    pub size: u64,
    pub hash: String,
}

/// The record for a file: its path, size and digest.
pub fn backup_request(file_entry: &FileEntry) -> (req: BackupRequest)
    ensures
        req.path@ == file_entry.path@,
        req.size == file_entry.size,
        req.hash@ == file_entry.hash@,
{
    BackupRequest {
        path: file_entry.path.clone(),
        size: file_entry.size,
        hash: file_entry.hash.clone(),
    }
}

/// A reply counts as success when its status is a success and its body is
/// exactly `OK`.
pub fn reply_accepted(status_success: bool, body: &str) -> (ok: bool)
    ensures
        ok == (body@ == "OK"@ && status_success),
{
    text_eq(body, "OK") && status_success
}

} // verus!
