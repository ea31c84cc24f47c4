//! The decisions of a backup run: how it is invoked, where the destination
//! may lie, what the report says, and which files are copied.

use vstd::prelude::*;

use crate::path::{components, path_components, strings_view};
use crate::scanner::{changes_view, ChangeView, FileChange, FileState};
use crate::text::text_eq;

verus! {

/// How the tool was invoked: `Some(false)` for a source and a destination,
/// `Some(true)` when `--dry-run` follows them, `None` for anything else.
/// `args` holds the program name first.
pub open spec fn run_mode_spec(args: Seq<Seq<char>>) -> Option<bool> {
    if args.len() == 3 {
        Some(false)
    } else if args.len() == 4 && args[3] == "--dry-run"@ {
        Some(true)
    } else {
        None
    }
}

/// Reads the command line: whether this is a dry run, or `None` when the
/// arguments do not fit the usage.
pub fn run_mode(args: &[String]) -> (mode: Option<bool>)
    ensures
        mode == run_mode_spec(strings_view(args@)),
{
    if args.len() == 3 {
        Some(false)
    } else if args.len() == 4 && text_eq(args[3].as_str(), "--dry-run") {
        Some(true)
    } else {
        None
    }
}

/// `base` is a leading part of `path`, component by component.
pub open spec fn components_prefix(base: Seq<Seq<char>>, path: Seq<Seq<char>>) -> bool {
    base.len() <= path.len() && forall|i: int| 0 <= i < base.len() ==> base[i] == path[i]
}

/// Whether the destination lies outside the source, given both canonical
/// paths: as with `Path::starts_with`, the source's components must not
/// all lead the destination's.
pub fn destination_outside_source(source: &str, destination: &str) -> (ok: bool)
    ensures
        ok == !components_prefix(path_components(source@), path_components(destination@)),
{
    let src = components(source);
    let dst = components(destination);
    if src.len() > dst.len() {
        return true;
    }
    let mut i: usize = 0;
    while i < src.len()
        invariant
            strings_view(src@) == path_components(source@),
            strings_view(dst@) == path_components(destination@),
            src@.len() <= dst@.len(),
            i <= src@.len(),
            forall|k: int| 0 <= k < i ==> src@[k]@ == dst@[k]@,
        decreases src@.len() - i,
    {
        if !text_eq(src[i].as_str(), dst[i].as_str()) {
            assert(strings_view(src@)[i as int] != strings_view(dst@)[i as int]);
            return true;
        }
        i = i + 1;
    }
    assert forall|k: int| 0 <= k < src@.len() implies strings_view(src@)[k] == strings_view(
        dst@,
    )[k] by {
        assert(src@[k]@ == dst@[k]@);
    }
    false
}

/// New and modified files are copied; unchanged and deleted ones are not.
pub open spec fn needs_backup_spec(state: FileState) -> bool {
    state == FileState::New || state == FileState::Modified
}

/// Whether a file in this state is copied to the destination.
pub fn needs_backup(state: FileState) -> (res: bool)
    ensures
        res == needs_backup_spec(state),
{
    match state {
        FileState::Modified | FileState::New => true,
        FileState::Deleted | FileState::Unchanged => false,
    }
}

/// The paths to copy, in report order: those of new and modified files.
pub open spec fn backup_paths(changes: Seq<ChangeView>) -> Seq<Seq<char>>
    decreases changes.len(),
{
    if changes.len() == 0 {
        seq![]
    } else {
        let rest = backup_paths(changes.drop_last());
        if needs_backup_spec(changes.last().state) {
            rest.push(changes.last().path)
        } else {
            rest
        }
    }
}

/// The relative paths of the files that a backup run copies.
pub fn files_to_back_up(changes: &[FileChange]) -> (paths: Vec<String>)
    ensures
        strings_view(paths@) == backup_paths(changes_view(changes@)),
{
    let ghost cv = changes_view(changes@);
    let mut paths: Vec<String> = Vec::new();
    let mut i: usize = 0;
    while i < changes.len()
        invariant
            cv == changes_view(changes@),
            i <= changes@.len(),
            strings_view(paths@) == backup_paths(cv.take(i as int)),
        decreases changes@.len() - i,
    {
        let change = &changes[i];
        assert(cv.take(i + 1).drop_last() =~= cv.take(i as int));
        assert(cv.take(i + 1).last() == change@);
        if needs_backup(change.state) {
            let ghost before = paths@;
            paths.push(change.path.clone());
            assert(strings_view(paths@) =~= strings_view(before).push(change.path@));
        }
        i = i + 1;
    }
    assert(cv.take(changes@.len() as int) =~= cv);
    paths
}

/// The word that the report gives a state, with its separator.
pub open spec fn state_label(state: FileState) -> Seq<char> {
    match state {
        FileState::Modified => "Modified: "@,
        FileState::New => "New: "@,
        FileState::Unchanged => "Unchanged: "@,
        FileState::Deleted => "Deleted: "@,
    }
}

/// The report line of a change, such as `Modified: notes.txt`.
pub fn change_line(change: &FileChange) -> (line: String)
    ensures
        line@ == state_label(change.state) + change.path@,
{
    let mut line = String::new();
    match change.state {
        FileState::Modified => line.push_str("Modified: "),
        FileState::New => line.push_str("New: "),
        FileState::Unchanged => line.push_str("Unchanged: "),
        FileState::Deleted => line.push_str("Deleted: "),
    }
    line.push_str(change.path.as_str());
    line
}

/// A path is copied exactly when some change of it is `New` or
/// `Modified`; and no more paths are copied than there are changes.
pub proof fn lemma_backup_paths(changes: Seq<ChangeView>)
    ensures
        backup_paths(changes).len() <= changes.len(),
        forall|p: Seq<char>|
            backup_paths(changes).contains(p) <==> exists|i: int|
                0 <= i < changes.len() && #[trigger] changes[i].path == p && needs_backup_spec(
                    changes[i].state,
                ),
    decreases changes.len(),
{
    if changes.len() > 0 {
        let init = changes.drop_last();
        lemma_backup_paths(init);
        let b = backup_paths(changes);
        let r = backup_paths(init);
        assert forall|p: Seq<char>|
            b.contains(p) <==> exists|i: int|
                0 <= i < changes.len() && #[trigger] changes[i].path == p && needs_backup_spec(
                    changes[i].state,
                ) by {
            if b.contains(p) {
                let k = choose|k: int| 0 <= k < b.len() && b[k] == p;
                if k < r.len() {
                    assert(r[k] == b[k]);
                    assert(r.contains(p));
                    let i = choose|i: int|
                        0 <= i < init.len() && #[trigger] init[i].path == p && needs_backup_spec(
                            init[i].state,
                        );
                    assert(changes[i] == init[i]);
                } else {
                    assert(changes[changes.len() - 1].path == p);
                }
            }
            if exists|i: int|
                0 <= i < changes.len() && #[trigger] changes[i].path == p && needs_backup_spec(
                    changes[i].state,
                ) {
                let i = choose|i: int|
                    0 <= i < changes.len() && #[trigger] changes[i].path == p && needs_backup_spec(
                        changes[i].state,
                    );
                if i < changes.len() - 1 {
                    assert(init[i] == changes[i]);
                    assert(r.contains(p));
                    let k = choose|k: int| 0 <= k < r.len() && r[k] == p;
                    assert(b[k] == p);
                } else {
                    assert(b[b.len() - 1] == p);
                }
            }
        }
    }
}

} // verus!
