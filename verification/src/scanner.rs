//! File entries of a scan, their comparison, and the difference between two
//! scans.

use vstd::prelude::*;
use vstd::hash_map::StringHashMap;

use crate::path::{key_of, lemma_path_key, path_key, paths_equal, same_path};
use crate::text::text_eq;
use crate::timestamp::Timestamp;

verus! {

/// How a file changed between the previous scan and the current one.
#[derive(Debug, Clone, Copy, PartialEq, Eq, Structural)]
pub enum FileState {
    New,
    Modified,
    Unchanged,
    Deleted,
}

/// A file seen by a scan: its path relative to the scanned root, its size in
/// bytes, its modification time and the hex digest of its contents.
#[derive(Debug)]
pub struct FileEntry {
    pub path: String,
    pub size: u64,
    pub modified: Timestamp,
    pub hash: String,
}

/// The mathematical value of a [`FileEntry`].
pub struct EntryView {
    pub path: Seq<char>,
    pub size: u64,
    pub modified: Timestamp,
    pub hash: Seq<char>,
}

impl View for FileEntry {
    type V = EntryView;

    open spec fn view(&self) -> EntryView {
        EntryView { path: self.path@, size: self.size, modified: self.modified, hash: self.hash@ }
    }
}

/// One line of the report on two scans: a path and what happened to it.
#[derive(Debug)]
pub struct FileChange {
    pub path: String,
    pub state: FileState,
}

/// The mathematical value of a [`FileChange`].
pub struct ChangeView {
    pub path: Seq<char>,
    pub state: FileState,
}

impl View for FileChange {
    type V = ChangeView;

    open spec fn view(&self) -> ChangeView {
        ChangeView { path: self.path@, state: self.state }
    }
}

/// The values of a sequence of entries.
pub open spec fn entries_view(s: Seq<FileEntry>) -> Seq<EntryView> {
    s.map_values(|e: FileEntry| e@)
}

/// The values of a sequence of changes.
pub open spec fn changes_view(s: Seq<FileChange>) -> Seq<ChangeView> {
    s.map_values(|c: FileChange| c@)
}

/// Two entries describe the same contents when they have the same path (as
/// `Path`s, component by component), size and digest; the modification time
/// plays no part.
pub open spec fn compare_spec(a: EntryView, b: EntryView) -> FileState {
    if same_path(a.path, b.path) && a.size == b.size && a.hash == b.hash {
        FileState::Unchanged
    } else {
        FileState::Modified
    }
}

impl FileEntry {
    /// Builds an entry from its four parts.
    pub fn new(path: String, size: u64, modified: Timestamp, hash: String) -> (e: FileEntry)
        ensures
            e@ == (EntryView { path: path@, size, modified, hash: hash@ }),
    {
        FileEntry { path, size, modified, hash }
    }

    /// `Unchanged` when both entries have the same path (component by
    /// component), size and digest,
    /// `Modified` otherwise.
    pub fn compare(&self, file: &FileEntry) -> (s: FileState)
        ensures
            s == compare_spec(self@, file@),
    {
        if paths_equal(self.path.as_str(), file.path.as_str()) && self.size == file.size
            && self.hash == file.hash {
            return FileState::Unchanged;
        }
        FileState::Modified
    }
}

/// The index of the last entry of `s` whose path is the same as `p`.
pub open spec fn last_with_path(s: Seq<EntryView>, p: Seq<char>) -> Option<int>
    decreases s.len(),
{
    if s.len() == 0 {
        None
    } else if same_path(s.last().path, p) {
        Some(s.len() - 1)
    } else {
        last_with_path(s.drop_last(), p)
    }
}

/// Some entry of `s` has the same path as `p`.
pub open spec fn has_path(s: Seq<EntryView>, p: Seq<char>) -> bool {
    exists|i: int| 0 <= i < s.len() && #[trigger] same_path(s[i].path, p)
}

/// The change reported for an entry of the current scan: `New` when no
/// previous entry has its path, else its comparison with the last previous
/// entry of that path.
pub open spec fn change_of(e: EntryView, previous: Seq<EntryView>) -> ChangeView {
    match last_with_path(previous, e.path) {
        Some(j) => ChangeView { path: e.path, state: compare_spec(e, previous[j]) },
        None => ChangeView { path: e.path, state: FileState::New },
    }
}

/// One `Deleted` change, in order, for each previous entry whose path no
/// current entry has.
pub open spec fn deleted_changes(previous: Seq<EntryView>, current: Seq<EntryView>) -> Seq<
    ChangeView,
>
    decreases previous.len(),
{
    if previous.len() == 0 {
        seq![]
    } else {
        let rest = deleted_changes(previous.drop_last(), current);
        if has_path(current, previous.last().path) {
            rest
        } else {
            rest.push(ChangeView { path: previous.last().path, state: FileState::Deleted })
        }
    }
}

/// The report on two scans: one change per current entry, in order, then
/// the deletions.
pub open spec fn scan_changes(current: Seq<EntryView>, previous: Seq<EntryView>) -> Seq<
    ChangeView,
> {
    current.map_values(|e: EntryView| change_of(e, previous)) + deleted_changes(previous, current)
}

/// What `last_with_path` finds is an entry of that path, and nothing after
/// it has the path.
pub proof fn lemma_last_with_path(s: Seq<EntryView>, p: Seq<char>)
    ensures
        match last_with_path(s, p) {
            Some(j) => 0 <= j < s.len() && same_path(s[j].path, p) && forall|k: int|
                j < k < s.len() ==> !same_path(s[k].path, p),
            None => forall|k: int| 0 <= k < s.len() ==> !same_path(s[k].path, p),
        },
    decreases s.len(),
{
    if s.len() > 0 {
        assert(s.last() == s[s.len() - 1]);
        if !same_path(s.last().path, p) {
            lemma_last_with_path(s.drop_last(), p);
            assert(forall|k: int| 0 <= k < s.len() - 1 ==> s.drop_last()[k] == s[k]);
        }
    }
}

/// Lists, for the current scan against the previous one, each current file
/// as `New`, `Modified` or `Unchanged`, then each previous file that is no
/// longer present as `Deleted`.
pub fn compare_scans(current_files: &[FileEntry], previous_files: &[FileEntry]) -> (changes: Vec<
    FileChange,
>)
    ensures
        changes_view(changes@) == scan_changes(
            entries_view(current_files@),
            entries_view(previous_files@),
        ),
{
    let ghost cur = entries_view(current_files@);
    let ghost prev = entries_view(previous_files@);
    let mut changes: Vec<FileChange> = Vec::new();
    let mut previous_lookup: StringHashMap<usize> = StringHashMap::new();
    let mut current_lookup: StringHashMap<usize> = StringHashMap::new();

    let mut i: usize = 0;
    while i < previous_files.len()
        invariant
            prev == entries_view(previous_files@),
            i <= previous_files@.len(),
            forall|p: Seq<char>|
                #![trigger previous_lookup@.contains_key(path_key(p))]
                previous_lookup@.contains_key(path_key(p)) <==> last_with_path(
                    prev.take(i as int),
                    p,
                ) is Some,
            forall|p: Seq<char>|
                #![trigger previous_lookup@[path_key(p)]]
                previous_lookup@.contains_key(path_key(p)) ==> previous_lookup@[path_key(p)] as int
                    == last_with_path(prev.take(i as int), p)->0,
        decreases previous_files@.len() - i,
    {
        let key = key_of(previous_files[i].path.as_str());
        let ghost q = prev[i as int].path;
        assert(key@ == path_key(q));
        let ghost before = previous_lookup@;
        previous_lookup.insert(key, i);
        assert(prev.take(i + 1).drop_last() =~= prev.take(i as int));
        assert(prev.take(i + 1).last() == prev[i as int]);
        assert forall|p: Seq<char>|
            #![trigger previous_lookup@.contains_key(path_key(p))]
            #![trigger previous_lookup@[path_key(p)]]
            (previous_lookup@.contains_key(path_key(p)) <==> last_with_path(
                prev.take(i + 1),
                p,
            ) is Some) && (previous_lookup@.contains_key(path_key(p))
                ==> previous_lookup@[path_key(p)] as int == last_with_path(prev.take(i + 1), p)->0) by {
            lemma_path_key(q, p);
            assert(before.contains_key(path_key(p)) <==> last_with_path(prev.take(i as int), p) is Some);
            if before.contains_key(path_key(p)) {
                assert(before[path_key(p)] as int == last_with_path(prev.take(i as int), p)->0);
            }
        }
        i = i + 1;
    }
    assert(prev.take(previous_files@.len() as int) =~= prev);

    let mut i: usize = 0;
    while i < current_files.len()
        invariant
            cur == entries_view(current_files@),
            i <= current_files@.len(),
            forall|p: Seq<char>|
                #![trigger current_lookup@.contains_key(path_key(p))]
                current_lookup@.contains_key(path_key(p)) <==> has_path(cur.take(i as int), p),
        decreases current_files@.len() - i,
    {
        let key = key_of(current_files[i].path.as_str());
        let ghost q = cur[i as int].path;
        assert(key@ == path_key(q));
        let ghost before = current_lookup@;
        current_lookup.insert(key, i);
        proof {
            assert forall|p: Seq<char>|
                #![trigger current_lookup@.contains_key(path_key(p))]
                current_lookup@.contains_key(path_key(p)) <==> has_path(cur.take(i + 1), p) by {
                lemma_path_key(q, p);
                assert(before.contains_key(path_key(p)) <==> has_path(cur.take(i as int), p));
                if has_path(cur.take(i + 1), p) {
                    let k = choose|k: int|
                        0 <= k < i + 1 && #[trigger] same_path(cur.take(i + 1)[k].path, p);
                    if k < i {
                        assert(same_path(cur.take(i as int)[k].path, p));
                    } else {
                        assert(cur.take(i + 1)[k] == cur[i as int]);
                    }
                }
                if has_path(cur.take(i as int), p) {
                    let k = choose|k: int|
                        0 <= k < i && #[trigger] same_path(cur.take(i as int)[k].path, p);
                    assert(same_path(cur.take(i + 1)[k].path, p));
                }
                if same_path(q, p) {
                    assert(same_path(cur.take(i + 1)[i as int].path, p));
                }
            }
        }
        i = i + 1;
    }
    assert(cur.take(current_files@.len() as int) =~= cur);

    let mut i: usize = 0;
    while i < current_files.len()
        invariant
            cur == entries_view(current_files@),
            prev == entries_view(previous_files@),
            i <= current_files@.len(),
            forall|p: Seq<char>|
                #![trigger previous_lookup@.contains_key(path_key(p))]
                previous_lookup@.contains_key(path_key(p)) <==> last_with_path(prev, p) is Some,
            forall|p: Seq<char>|
                #![trigger previous_lookup@[path_key(p)]]
                previous_lookup@.contains_key(path_key(p)) ==> previous_lookup@[path_key(p)] as int
                    == last_with_path(prev, p)->0,
            changes_view(changes@) =~= cur.take(i as int).map_values(
                |e: EntryView| change_of(e, prev),
            ),
        decreases current_files@.len() - i,
    {
        let entry = &current_files[i];
        let key = key_of(entry.path.as_str());
        let change = match previous_lookup.get(key.as_str()) {
            Some(j) => {
                proof {
                    lemma_last_with_path(prev, entry.path@);
                    assert(previous_lookup@.contains_key(path_key(entry.path@)));
                }
                let file = &previous_files[*j];
                let state = entry.compare(file);
                FileChange { path: entry.path.clone(), state }
            },
            None => {
                assert(!previous_lookup@.contains_key(path_key(entry.path@)));
                FileChange { path: entry.path.clone(), state: FileState::New }
            },
        };
        assert(change@ == change_of(cur[i as int], prev));
        let ghost before = changes@;
        changes.push(change);
        assert(changes_view(changes@) =~= changes_view(before).push(change_of(cur[i as int], prev)));
        assert(cur.take(i + 1) =~= cur.take(i as int).push(cur[i as int]));
        i = i + 1;
    }
    assert(cur.take(current_files@.len() as int) =~= cur);

    let mut i: usize = 0;
    while i < previous_files.len()
        invariant
            cur == entries_view(current_files@),
            prev == entries_view(previous_files@),
            i <= previous_files@.len(),
            forall|p: Seq<char>|
                #![trigger current_lookup@.contains_key(path_key(p))]
                current_lookup@.contains_key(path_key(p)) <==> has_path(cur, p),
            changes_view(changes@) =~= cur.map_values(|e: EntryView| change_of(e, prev))
                + deleted_changes(prev.take(i as int), cur),
        decreases previous_files@.len() - i,
    {
        let entry = &previous_files[i];
        assert(prev.take(i + 1).drop_last() =~= prev.take(i as int));
        let key = key_of(entry.path.as_str());
        assert(current_lookup@.contains_key(path_key(entry.path@)) <==> has_path(cur, entry.path@));
        let ghost before = changes@;
        if !current_lookup.contains_key(key.as_str()) {
            let change = FileChange { path: entry.path.clone(), state: FileState::Deleted };
            changes.push(change);
            assert(changes_view(changes@) =~= changes_view(before).push(change@));
        }
        i = i + 1;
    }
    assert(prev.take(previous_files@.len() as int) =~= prev);
    changes
}

/// The digest recorded for a file by the first previous entry of the same
/// path,
/// when that entry has the same size and modification time; `None` when the
/// contents must be hashed again.
pub open spec fn reused_hash(
    previous: Seq<EntryView>,
    path: Seq<char>,
    size: u64,
    modified: Timestamp,
) -> Option<Seq<char>>
    decreases previous.len(),
{
    if previous.len() == 0 {
        None
    } else if same_path(previous[0].path, path) {
        if previous[0].size == size && previous[0].modified == modified {
            Some(previous[0].hash)
        } else {
            None
        }
    } else {
        reused_hash(previous.drop_first(), path, size, modified)
    }
}

/// Looks up the first previous entry of `relative_path`; when it has the
/// same size and modification time its digest still holds and is returned.
pub fn reusable_hash(
    previous_files: &[FileEntry],
    relative_path: &str,
    size: u64,
    modified: Timestamp,
) -> (res: Option<String>)
    ensures
        match res {
            Some(h) => reused_hash(entries_view(previous_files@), relative_path@, size, modified)
                == Some(h@),
            None => reused_hash(entries_view(previous_files@), relative_path@, size, modified)
                is None,
        },
{
    let ghost prev = entries_view(previous_files@);
    let mut i: usize = 0;
    assert(prev.skip(0) =~= prev);
    while i < previous_files.len()
        invariant
            prev == entries_view(previous_files@),
            i <= previous_files@.len(),
            reused_hash(prev, relative_path@, size, modified) == reused_hash(
                prev.skip(i as int),
                relative_path@,
                size,
                modified,
            ),
        decreases previous_files@.len() - i,
    {
        let file = &previous_files[i];
        assert(prev.skip(i as int)[0] == file@);
        if paths_equal(file.path.as_str(), relative_path) {
            if file.size == size && file.modified == modified {
                return Some(file.hash.clone());
            }
            return None;
        }
        assert(prev.skip(i as int).drop_first() =~= prev.skip(i + 1));
        i = i + 1;
    }
    None
}

/// File names that a scan leaves out: build output, version control data and
/// the scan state itself.
pub open spec fn ignored_name(name: Seq<char>) -> bool {
    name == "target"@ || name == ".git"@ || name == "rustsync_state.txt"@
}

/// Whether a scan skips the entry with this final path component; a path
/// without a final component is never skipped.
pub fn should_ignore(file_name: Option<&str>) -> (res: bool)
    ensures
        res == match file_name {
            Some(name) => ignored_name(name@),
            None => false,
        },
{
    match file_name {
        Some(name) => text_eq(name, "target") || text_eq(name, ".git") || text_eq(
            name,
            "rustsync_state.txt",
        ),
        None => false,
    }
}


/// Comparing an entry with itself finds it unchanged.
pub proof fn lemma_compare_reflexive(a: EntryView)
    ensures
        compare_spec(a, a) == FileState::Unchanged,
{
}

/// Comparison does not depend on the order of the two entries.
pub proof fn lemma_compare_symmetric(a: EntryView, b: EntryView)
    ensures
        compare_spec(a, b) == compare_spec(b, a),
{
}

/// The modification time plays no part in a comparison.
pub proof fn lemma_compare_ignores_time(a: EntryView, b: EntryView, t: Timestamp)
    ensures
        compare_spec(EntryView { modified: t, ..a }, b) == compare_spec(a, b),
{
}

/// No two entries have the same path.
pub open spec fn unique_paths(s: Seq<EntryView>) -> bool {
    forall|i: int, j: int|
        0 <= i < s.len() && 0 <= j < s.len() && i != j ==> !same_path(s[i].path, s[j].path)
}

/// Each deletion is a `Deleted` change for a path that the previous scan
/// had and the current one lacks.
pub proof fn lemma_deleted_changes(previous: Seq<EntryView>, current: Seq<EntryView>)
    ensures
        deleted_changes(previous, current).len() <= previous.len(),
        forall|k: int|
            0 <= k < deleted_changes(previous, current).len() ==> {
                let c = #[trigger] deleted_changes(previous, current)[k];
                &&& c.state == FileState::Deleted
                &&& has_path(previous, c.path)
                &&& !has_path(current, c.path)
            },
    decreases previous.len(),
{
    if previous.len() > 0 {
        let init = previous.drop_last();
        lemma_deleted_changes(init, current);
        let d = deleted_changes(previous, current);
        let r = deleted_changes(init, current);
        assert forall|k: int| 0 <= k < d.len() implies {
            let c = #[trigger] d[k];
            &&& c.state == FileState::Deleted
            &&& has_path(previous, c.path)
            &&& !has_path(current, c.path)
        } by {
            if k < r.len() {
                assert(d[k] == r[k]);
                let j = choose|j: int|
                    0 <= j < init.len() && #[trigger] same_path(init[j].path, r[k].path);
                assert(previous[j] == init[j]);
                assert(same_path(previous[j].path, r[k].path));
            } else {
                assert(previous[previous.len() - 1].path == d[k].path);
                assert(same_path(previous[previous.len() - 1].path, d[k].path));
            }
        }
    }
}

/// When every previous path is still present there are no deletions.
pub proof fn lemma_no_deleted_changes(previous: Seq<EntryView>, current: Seq<EntryView>)
    requires
        forall|i: int| 0 <= i < previous.len() ==> has_path(current, #[trigger] previous[i].path),
    ensures
        deleted_changes(previous, current) == Seq::<ChangeView>::empty(),
    decreases previous.len(),
{
    if previous.len() > 0 {
        let init = previous.drop_last();
        assert forall|i: int| 0 <= i < init.len() implies has_path(
            current,
            #[trigger] init[i].path,
        ) by {
            assert(init[i] == previous[i]);
        }
        lemma_no_deleted_changes(init, current);
        assert(has_path(current, previous[previous.len() - 1].path));
    }
}

/// The shape of a report: first one change per current entry, in order and
/// with its path, `New` exactly when the previous scan lacks the path and
/// never `Deleted`; then only deletions, each of a path that the previous
/// scan had and the current one lacks.
pub proof fn lemma_scan_changes_shape(current: Seq<EntryView>, previous: Seq<EntryView>)
    ensures
        scan_changes(current, previous).len() >= current.len(),
        scan_changes(current, previous).len() <= current.len() + previous.len(),
        forall|i: int|
            0 <= i < current.len() ==> {
                let c = #[trigger] scan_changes(current, previous)[i];
                &&& c.path == current[i].path
                &&& (c.state == FileState::New <==> !has_path(previous, current[i].path))
                &&& c.state != FileState::Deleted
            },
        forall|i: int|
            current.len() <= i < scan_changes(current, previous).len() ==> {
                let c = #[trigger] scan_changes(current, previous)[i];
                &&& c.state == FileState::Deleted
                &&& has_path(previous, c.path)
                &&& !has_path(current, c.path)
            },
{
    lemma_deleted_changes(previous, current);
    let r = scan_changes(current, previous);
    let d = deleted_changes(previous, current);
    assert forall|i: int| 0 <= i < current.len() implies {
        let c = #[trigger] r[i];
        &&& c.path == current[i].path
        &&& (c.state == FileState::New <==> !has_path(previous, current[i].path))
        &&& c.state != FileState::Deleted
    } by {
        assert(r[i] == change_of(current[i], previous));
        lemma_last_with_path(previous, current[i].path);
        if has_path(previous, current[i].path) {
            let j = choose|j: int|
                0 <= j < previous.len() && #[trigger] same_path(previous[j].path, current[i].path);
        }
    }
    assert forall|i: int| current.len() <= i < r.len() implies {
        let c = #[trigger] r[i];
        &&& c.state == FileState::Deleted
        &&& has_path(previous, c.path)
        &&& !has_path(current, c.path)
    } by {
        assert(r[i] == d[i - current.len()]);
    }
}

/// A scan compared with itself, when no path repeats, reports every file
/// unchanged, in order, and nothing deleted.
pub proof fn lemma_scan_against_itself(s: Seq<EntryView>)
    requires
        unique_paths(s),
    ensures
        scan_changes(s, s).len() == s.len(),
        forall|i: int|
            0 <= i < s.len() ==> #[trigger] scan_changes(s, s)[i] == (ChangeView {
                path: s[i].path,
                state: FileState::Unchanged,
            }),
{
    assert forall|i: int| 0 <= i < s.len() implies has_path(s, #[trigger] s[i].path) by {
        assert(same_path(s[i].path, s[i].path));
    }
    lemma_no_deleted_changes(s, s);
    let r = scan_changes(s, s);
    assert forall|i: int| 0 <= i < s.len() implies #[trigger] r[i] == (ChangeView {
        path: s[i].path,
        state: FileState::Unchanged,
    }) by {
        lemma_last_with_path(s, s[i].path);
        assert(r[i] == change_of(s[i], s));
    }
}

/// Against an empty previous scan every current file is new.
pub proof fn lemma_scan_from_nothing(current: Seq<EntryView>)
    ensures
        scan_changes(current, seq![]) == current.map_values(
            |e: EntryView| ChangeView { path: e.path, state: FileState::New },
        ),
{
    assert(deleted_changes(seq![], current) == Seq::<ChangeView>::empty());
    assert(scan_changes(current, seq![]) =~= current.map_values(
        |e: EntryView| ChangeView { path: e.path, state: FileState::New },
    ));
}

/// When the current scan is empty, every previous file is reported deleted,
/// in order.
pub proof fn lemma_scan_to_nothing(previous: Seq<EntryView>)
    ensures
        scan_changes(seq![], previous) == previous.map_values(
            |e: EntryView| ChangeView { path: e.path, state: FileState::Deleted },
        ),
    decreases previous.len(),
{
    if previous.len() > 0 {
        lemma_scan_to_nothing(previous.drop_last());
        assert(!has_path(seq![], previous.last().path));
        assert(scan_changes(seq![], previous.drop_last()) =~= deleted_changes(
            previous.drop_last(),
            seq![],
        ));
        assert(scan_changes(seq![], previous) =~= deleted_changes(previous, seq![]));
        assert(previous.map_values(
            |e: EntryView| ChangeView { path: e.path, state: FileState::Deleted },
        ) =~= previous.drop_last().map_values(
            |e: EntryView| ChangeView { path: e.path, state: FileState::Deleted },
        ).push(ChangeView { path: previous.last().path, state: FileState::Deleted }));
    } else {
        assert(scan_changes(seq![], previous) =~= Seq::<ChangeView>::empty());
    }
}
/// Two scans that list the same paths, sizes and digests in the same order,
/// whatever their modification times.
pub open spec fn same_but_times(a: Seq<EntryView>, b: Seq<EntryView>) -> bool {
    &&& a.len() == b.len()
    &&& forall|i: int|
        0 <= i < a.len() ==> (#[trigger] a[i]).path == b[i].path && a[i].size == b[i].size
            && a[i].hash == b[i].hash
}

proof fn lemma_last_with_path_times(a: Seq<EntryView>, b: Seq<EntryView>, p: Seq<char>)
    requires
        same_but_times(a, b),
    ensures
        last_with_path(a, p) == last_with_path(b, p),
    decreases a.len(),
{
    if a.len() > 0 {
        assert(a.last() == a[a.len() - 1]);
        assert(b.last() == b[b.len() - 1]);
        let ia = a.drop_last();
        let ib = b.drop_last();
        assert forall|i: int| 0 <= i < ia.len() implies (#[trigger] ia[i]).path == ib[i].path
            && ia[i].size == ib[i].size && ia[i].hash == ib[i].hash by {
            assert(ia[i] == a[i]);
            assert(ib[i] == b[i]);
        }
        lemma_last_with_path_times(ia, ib, p);
    }
}

proof fn lemma_has_path_times(a: Seq<EntryView>, b: Seq<EntryView>, p: Seq<char>)
    requires
        same_but_times(a, b),
    ensures
        has_path(a, p) == has_path(b, p),
{
    if has_path(a, p) {
        let i = choose|i: int| 0 <= i < a.len() && #[trigger] same_path(a[i].path, p);
        assert(same_path(b[i].path, p));
    }
    if has_path(b, p) {
        let i = choose|i: int| 0 <= i < b.len() && #[trigger] same_path(b[i].path, p);
        assert(same_path(a[i].path, p));
    }
}

proof fn lemma_deleted_changes_times(
    p1: Seq<EntryView>,
    p2: Seq<EntryView>,
    c1: Seq<EntryView>,
    c2: Seq<EntryView>,
)
    requires
        same_but_times(p1, p2),
        same_but_times(c1, c2),
    ensures
        deleted_changes(p1, c1) == deleted_changes(p2, c2),
    decreases p1.len(),
{
    if p1.len() > 0 {
        assert(p1.last() == p1[p1.len() - 1]);
        assert(p2.last() == p2[p2.len() - 1]);
        let i1 = p1.drop_last();
        let i2 = p2.drop_last();
        assert forall|i: int| 0 <= i < i1.len() implies (#[trigger] i1[i]).path == i2[i].path
            && i1[i].size == i2[i].size && i1[i].hash == i2[i].hash by {
            assert(i1[i] == p1[i]);
            assert(i2[i] == p2[i]);
        }
        lemma_deleted_changes_times(i1, i2, c1, c2);
        lemma_has_path_times(c1, c2, p1.last().path);
    }
}

/// The report on two scans does not depend on modification times: scans
/// that differ only in their times give the same report.
pub proof fn lemma_scan_ignores_times(
    c1: Seq<EntryView>,
    c2: Seq<EntryView>,
    p1: Seq<EntryView>,
    p2: Seq<EntryView>,
)
    requires
        same_but_times(c1, c2),
        same_but_times(p1, p2),
    ensures
        scan_changes(c1, p1) == scan_changes(c2, p2),
{
    lemma_deleted_changes_times(p1, p2, c1, c2);
    let m1 = c1.map_values(|e: EntryView| change_of(e, p1));
    let m2 = c2.map_values(|e: EntryView| change_of(e, p2));
    assert forall|i: int| 0 <= i < m1.len() implies m1[i] == m2[i] by {
        lemma_last_with_path_times(p1, p2, c1[i].path);
        assert(c1[i].path == c2[i].path);
        match last_with_path(p1, c1[i].path) {
            Some(j) => {
                lemma_last_with_path(p1, c1[i].path);
                assert(p1[j].path == p2[j].path && p1[j].size == p2[j].size && p1[j].hash
                    == p2[j].hash);
            },
            None => {},
        }
    }
    assert(m1 =~= m2);
}

} // verus!
