//! The verified core of a small incremental backup tool: file entries and
//! their comparison, the difference between two scans, the on-disk scan
//! state format, content hashes, and the decisions around backing up.

pub mod text;
pub mod timestamp;
pub mod path;
pub mod scanner;
pub mod decimal;
pub mod state;
pub mod digest;
pub mod backup;
pub mod network;
pub mod laws;

pub use scanner::{compare_scans, should_ignore, FileChange, FileEntry, FileState};
pub use timestamp::Timestamp;

