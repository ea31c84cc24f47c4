//! What the scan comparison, digest reuse, name filter and destination
//! check promise, stated over the raw fields of their inputs and results.

use vstd::prelude::*;

use crate::backup::components_prefix;
use crate::path::same_path;
use crate::scanner::{
    compare_spec, deleted_changes, has_path, ignored_name, last_with_path, lemma_deleted_changes,
    lemma_last_with_path, lemma_scan_changes_shape, reused_hash, scan_changes, ChangeView,
    EntryView, FileState,
};

verus! {

/// No current entry has the same path as `e`.
pub open spec fn absent_from(e: EntryView, current: Seq<EntryView>) -> bool {
    forall|i: int| 0 <= i < current.len() ==> !same_path(#[trigger] current[i].path, e.path)
}

/// How many previous entries have a path that no current entry has.
pub open spec fn absent_count(previous: Seq<EntryView>, current: Seq<EntryView>) -> nat
    decreases previous.len(),
{
    if previous.len() == 0 {
        0
    } else {
        absent_count(previous.drop_last(), current) + if absent_from(previous.last(), current) {
            1nat
        } else {
            0nat
        }
    }
}

proof fn lemma_absent_has_path(e: EntryView, current: Seq<EntryView>)
    ensures
        absent_from(e, current) <==> !has_path(current, e.path),
{
    if has_path(current, e.path) {
        let i = choose|i: int| 0 <= i < current.len() && #[trigger] same_path(current[i].path, e.path);
        assert(!absent_from(e, current));
    }
    if !absent_from(e, current) {
        let i = choose|i: int| 0 <= i < current.len() && same_path(#[trigger] current[i].path, e.path);
        assert(has_path(current, e.path));
    }
}

proof fn lemma_deleted_count_complete(previous: Seq<EntryView>, current: Seq<EntryView>)
    ensures
        deleted_changes(previous, current).len() == absent_count(previous, current),
        forall|j: int|
            0 <= j < previous.len() && absent_from(#[trigger] previous[j], current) ==> exists|k: int|
                0 <= k < deleted_changes(previous, current).len() && #[trigger] deleted_changes(
                    previous,
                    current,
                )[k] == (ChangeView { path: previous[j].path, state: FileState::Deleted }),
    decreases previous.len(),
{
    if previous.len() > 0 {
        let init = previous.drop_last();
        lemma_deleted_count_complete(init, current);
        let last = previous.last();
        lemma_absent_has_path(last, current);
        let d = deleted_changes(previous, current);
        let r = deleted_changes(init, current);
        assert forall|j: int|
            0 <= j < previous.len() && absent_from(#[trigger] previous[j], current) implies exists|k: int|
            0 <= k < d.len() && #[trigger] d[k] == (ChangeView {
                path: previous[j].path,
                state: FileState::Deleted,
            }) by {
            if j < previous.len() - 1 {
                assert(init[j] == previous[j]);
                let k = choose|k: int|
                    0 <= k < r.len() && #[trigger] r[k] == (ChangeView {
                        path: init[j].path,
                        state: FileState::Deleted,
                    });
                assert(d[k] == r[k]);
            } else {
                assert(previous[j] == last);
                assert(d[d.len() - 1] == (ChangeView {
                    path: previous[j].path,
                    state: FileState::Deleted,
                }));
            }
        }
    }
}

/// Deletions are complete and counted exactly: every previous entry whose
/// path no current entry has is reported `Deleted` after the current
/// entries, and the report holds one change per current entry plus one per
/// such previous entry — whatever the sizes and digests of the entries.
pub proof fn law_deletions_complete(current: Seq<EntryView>, previous: Seq<EntryView>)
    ensures
        scan_changes(current, previous).len() == current.len() + absent_count(previous, current),
        forall|j: int|
            0 <= j < previous.len() && absent_from(#[trigger] previous[j], current) ==> exists|k: int|
                current.len() <= k < scan_changes(current, previous).len() && #[trigger] scan_changes(
                    current,
                    previous,
                )[k] == (ChangeView { path: previous[j].path, state: FileState::Deleted }),
        forall|k: int|
            current.len() <= k < scan_changes(current, previous).len() ==> (#[trigger] scan_changes(
                current,
                previous,
            )[k]).state == FileState::Deleted && exists|j: int|
                0 <= j < previous.len() && previous[j].path == scan_changes(current, previous)[k].path
                    && absent_from(previous[j], current),
{
    lemma_deleted_count_complete(previous, current);
    lemma_deleted_changes(previous, current);
    let r = scan_changes(current, previous);
    let d = deleted_changes(previous, current);
    assert forall|j: int|
        0 <= j < previous.len() && absent_from(#[trigger] previous[j], current) implies exists|k: int|
        current.len() <= k < r.len() && #[trigger] r[k] == (ChangeView {
            path: previous[j].path,
            state: FileState::Deleted,
        }) by {
        let k = choose|k: int|
            0 <= k < d.len() && #[trigger] d[k] == (ChangeView {
                path: previous[j].path,
                state: FileState::Deleted,
            });
        assert(r[current.len() + k] == d[k]);
    }
    assert forall|k: int| current.len() <= k < r.len() implies (#[trigger] r[k]).state
        == FileState::Deleted && exists|j: int|
        0 <= j < previous.len() && previous[j].path == r[k].path && absent_from(
            previous[j],
            current,
        ) by {
        let c = d[k - current.len()];
        assert(r[k] == c);
        let j = choose|j: int| 0 <= j < previous.len() && #[trigger] same_path(previous[j].path, c.path);
        lemma_deleted_changes_paths(previous, current, k - current.len());
    }
}

/// Each deletion carries the path of a previous entry absent from the
/// current scan.
proof fn lemma_deleted_changes_paths(previous: Seq<EntryView>, current: Seq<EntryView>, k: int)
    requires
        0 <= k < deleted_changes(previous, current).len(),
    ensures
        exists|j: int|
            0 <= j < previous.len() && previous[j].path == deleted_changes(previous, current)[k].path
                && absent_from(previous[j], current),
    decreases previous.len(),
{
    let init = previous.drop_last();
    let r = deleted_changes(init, current);
    let d = deleted_changes(previous, current);
    lemma_absent_has_path(previous.last(), current);
    if k < r.len() {
        assert(d[k] == r[k]);
        lemma_deleted_changes_paths(init, current, k);
        let j = choose|j: int|
            0 <= j < init.len() && init[j].path == r[k].path && absent_from(init[j], current);
        assert(previous[j] == init[j]);
    } else {
        let j = previous.len() - 1;
        assert(previous[j] == previous.last());
    }
}

/// The state of a current entry: `New` when no previous entry has its path;
/// otherwise compared with the last previous entry of its path, `Unchanged`
/// exactly when size and digest agree, `Modified` otherwise.
pub proof fn law_current_states(current: Seq<EntryView>, previous: Seq<EntryView>, i: int, j: int)
    requires
        0 <= i < current.len(),
    ensures
        (forall|k: int| 0 <= k < previous.len() ==> !same_path(#[trigger] previous[k].path, current[i].path))
            ==> scan_changes(current, previous)[i] == (ChangeView {
            path: current[i].path,
            state: FileState::New,
        }),
        (0 <= j < previous.len() && same_path(previous[j].path, current[i].path) && (forall|k: int|
            j < k < previous.len() ==> !same_path(#[trigger] previous[k].path, current[i].path)))
            ==> scan_changes(current, previous)[i].path == current[i].path && (scan_changes(
            current,
            previous,
        )[i].state == FileState::Unchanged <==> previous[j].size == current[i].size
            && previous[j].hash == current[i].hash) && (scan_changes(current, previous)[i].state
            == FileState::Modified <==> !(previous[j].size == current[i].size && previous[j].hash
            == current[i].hash)),
{
    let r = scan_changes(current, previous);
    lemma_last_with_path(previous, current[i].path);
    assert(r[i] == crate::scanner::change_of(current[i], previous));
    if 0 <= j < previous.len() && same_path(previous[j].path, current[i].path) && (forall|k: int|
        j < k < previous.len() ==> !same_path(#[trigger] previous[k].path, current[i].path)) {
        match last_with_path(previous, current[i].path) {
            Some(m) => {
                if m < j {
                    assert(!same_path(previous[j].path, current[i].path));
                }
                if m > j {
                    assert(!same_path(previous[m].path, current[i].path));
                }
            },
            None => {
                assert(!same_path(previous[j].path, current[i].path));
            },
        }
    }
}

/// Comparison finds `Unchanged` exactly when the paths are the same and the
/// sizes and the digests are equal; any difference in size or digest gives
/// `Modified`; no other state is ever the result.
pub proof fn law_compare(a: EntryView, b: EntryView)
    ensures
        compare_spec(a, b) == FileState::Unchanged || compare_spec(a, b) == FileState::Modified,
        compare_spec(a, b) == FileState::Unchanged ==> a.hash == b.hash && a.size == b.size
            && same_path(a.path, b.path),
        a.hash != b.hash ==> compare_spec(a, b) == FileState::Modified,
        a.size != b.size ==> compare_spec(a, b) == FileState::Modified,
        !same_path(a.path, b.path) ==> compare_spec(a, b) == FileState::Modified,
        (same_path(a.path, b.path) && a.size == b.size && a.hash == b.hash) ==> compare_spec(a, b)
            == FileState::Unchanged,
{
}

/// A digest is reused only from the first previous entry of the same path,
/// and only when that entry has exactly the queried size and exactly the
/// queried modification time; in every other case the file is hashed again.
pub proof fn law_reused_hash(
    previous: Seq<EntryView>,
    path: Seq<char>,
    size: u64,
    modified: crate::timestamp::Timestamp,
)
    ensures
        forall|j: int|
            0 <= j < previous.len() && same_path(previous[j].path, path) && (forall|k: int|
                0 <= k < j ==> !same_path(#[trigger] previous[k].path, path)) ==> reused_hash(
                previous,
                path,
                size,
                modified,
            ) == (if previous[j].size == size && previous[j].modified == modified {
                Some(previous[j].hash)
            } else {
                None::<Seq<char>>
            }),
        (forall|k: int| 0 <= k < previous.len() ==> !same_path(#[trigger] previous[k].path, path))
            ==> reused_hash(previous, path, size, modified) is None,
    decreases previous.len(),
{
    if previous.len() > 0 {
        let t = previous.drop_first();
        law_reused_hash(t, path, size, modified);
        assert forall|j: int|
            0 <= j < previous.len() && same_path(previous[j].path, path) && (forall|k: int|
                0 <= k < j ==> !same_path(#[trigger] previous[k].path, path)) implies reused_hash(
            previous,
            path,
            size,
            modified,
        ) == (if previous[j].size == size && previous[j].modified == modified {
            Some(previous[j].hash)
        } else {
            None::<Seq<char>>
        }) by {
            if j > 0 {
                assert(!same_path(previous[0].path, path));
                assert(t[j - 1] == previous[j]);
                assert forall|k: int| 0 <= k < j - 1 implies !same_path(#[trigger] t[k].path, path) by {
                    assert(t[k] == previous[k + 1]);
                }
            }
        }
        if forall|k: int| 0 <= k < previous.len() ==> !same_path(#[trigger] previous[k].path, path) {
            assert(!same_path(previous[0].path, path));
            assert forall|k: int| 0 <= k < t.len() implies !same_path(#[trigger] t[k].path, path) by {
                assert(t[k] == previous[k + 1]);
            }
        }
    }
}

/// Exactly three names are left out of a scan: `target`, `.git` and
/// `rustsync_state.txt`; any other name, such as `.gitignore`, is scanned.
pub proof fn law_ignored_names(name: Seq<char>)
    ensures
        ignored_name(name) <==> (name == "target"@ || name == ".git"@ || name
            == "rustsync_state.txt"@),
{
}

/// A destination whose components begin with all of the source's lies
/// inside the source, however many components follow; one that differs in
/// any of the source's components, or has fewer, does not.
pub proof fn law_components_prefix(base: Seq<Seq<char>>, path: Seq<Seq<char>>, extra: Seq<Seq<char>>)
    ensures
        components_prefix(base, base + extra),
        components_prefix(base, path) ==> path =~= base + path.skip(base.len() as int),
        base.len() > path.len() ==> !components_prefix(base, path),
        (exists|i: int| 0 <= i < base.len() && i < path.len() && base[i] != path[i])
            ==> !components_prefix(base, path),
{
    assert forall|i: int| 0 <= i < base.len() implies base[i] == (base + extra)[i] by {}
}

/// The previous entries whose path no current entry has, in order.
pub open spec fn absent_entries(previous: Seq<EntryView>, current: Seq<EntryView>) -> Seq<EntryView>
    decreases previous.len(),
{
    if previous.len() == 0 {
        seq![]
    } else if absent_from(previous[0], current) {
        seq![previous[0]] + absent_entries(previous.drop_first(), current)
    } else {
        absent_entries(previous.drop_first(), current)
    }
}

proof fn lemma_absent_entries_push(previous: Seq<EntryView>, current: Seq<EntryView>)
    requires
        previous.len() > 0,
    ensures
        absent_entries(previous, current) == absent_entries(previous.drop_last(), current) + (
        if absent_from(previous.last(), current) {
            seq![previous.last()]
        } else {
            Seq::<EntryView>::empty()
        }),
    decreases previous.len(),
{
    if previous.len() == 1 {
        assert(previous.drop_last() =~= Seq::<EntryView>::empty());
        assert(previous.drop_first() =~= Seq::<EntryView>::empty());
        assert(previous.last() == previous[0]);
    } else {
        let t = previous.drop_first();
        lemma_absent_entries_push(t, current);
        assert(t.drop_last() =~= previous.drop_last().drop_first());
        assert(t.last() == previous.last());
        assert(previous.drop_last()[0] == previous[0]);
    }
}

proof fn lemma_deleted_changes_in_order(previous: Seq<EntryView>, current: Seq<EntryView>)
    ensures
        deleted_changes(previous, current) == absent_entries(previous, current).map_values(
            |e: EntryView| ChangeView { path: e.path, state: FileState::Deleted },
        ),
    decreases previous.len(),
{
    if previous.len() > 0 {
        lemma_deleted_changes_in_order(previous.drop_last(), current);
        lemma_absent_entries_push(previous, current);
        lemma_absent_has_path(previous.last(), current);
        let f = |e: EntryView| ChangeView { path: e.path, state: FileState::Deleted };
        let a = absent_entries(previous.drop_last(), current);
        if absent_from(previous.last(), current) {
            assert((a + seq![previous.last()]).map_values(f) =~= a.map_values(f).push(
                f(previous.last()),
            ));
        } else {
            assert(a + Seq::<EntryView>::empty() =~= a);
        }
    } else {
        assert(absent_entries(previous, current).map_values(
            |e: EntryView| ChangeView { path: e.path, state: FileState::Deleted },
        ) =~= Seq::<ChangeView>::empty());
    }
}

/// After the current entries, the report lists exactly the previous entries
/// whose path is gone, as `Deleted`, in the order of the previous scan.
pub proof fn law_deletions_in_order(current: Seq<EntryView>, previous: Seq<EntryView>)
    ensures
        scan_changes(current, previous).subrange(
            current.len() as int,
            scan_changes(current, previous).len() as int,
        ) == absent_entries(previous, current).map_values(
            |e: EntryView| ChangeView { path: e.path, state: FileState::Deleted },
        ),
{
    lemma_deleted_changes_in_order(previous, current);
    let r = scan_changes(current, previous);
    assert(r.subrange(current.len() as int, r.len() as int) =~= deleted_changes(previous, current));
}

} // verus!
