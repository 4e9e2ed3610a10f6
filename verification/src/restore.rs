//! Bringing the working directory and the staging area in line with a
//! snapshot, within the paths that a filter names.

use crate::index::{bare_record, FileMetaData, FileMetaDataView, Index};
use crate::path::{
    absolute_form, all_canonical, all_resolve, both, canonical, canonical_is_fixed, grounded,
    include_in_paths, included, is_not, lemma_filter_agree, lemma_filter_all, lemma_filter_no_duplicates,
    lemma_filter_none, lemma_filter_step, lemma_filter_twice, lemma_remove_is_filter, path_seq,
    resolves, to_workdir_absolute_path, Dirs, Path, PathView,
};
use crate::table::Table;
use crate::tree::{blob_paths, blob_seq, TreeBlob, TreeBlobView};
use crate::blob::Blob;
use crate::hash::{calc_hash, content_hash};
use crate::store::{Fatal, Store};
use crate::worktree::{integrate_paths, integrated, written, FileStateView, Timestamp, WorkTree};
use vstd::prelude::*;

verus! {

/// The snapshot as a map from absolute paths to hashes. Where a path comes
/// twice, the later file counts.
pub open spec fn target_map(blobs: Seq<TreeBlobView>, work: PathView) -> Map<PathView, Seq<char>>
    decreases blobs.len(),
{
    if blobs.len() == 0 {
        Map::empty()
    } else {
        target_map(blobs.drop_last(), work).insert(
            absolute_form(blobs.last().path, work),
            blobs.last().hash,
        )
    }
}

/// The paths of the snapshot, each once, in the order in which they first
/// come.
pub open spec fn target_paths(blobs: Seq<TreeBlobView>, work: PathView) -> Seq<PathView>
    decreases blobs.len(),
{
    if blobs.len() == 0 {
        Seq::empty()
    } else if target_map(blobs.drop_last(), work).contains_key(
        absolute_form(blobs.last().path, work),
    ) {
        target_paths(blobs.drop_last(), work)
    } else {
        target_paths(blobs.drop_last(), work).push(absolute_form(blobs.last().path, work))
    }
}

/// The paths that a filter names: its own, or the whole working tree where
/// there is none.
pub open spec fn filter_paths(filter: Option<Seq<PathView>>, work: PathView) -> Seq<PathView> {
    match filter {
        Some(paths) => paths,
        None => seq![work],
    }
}

/// The views of a filter.
pub open spec fn filter_view(filter: Option<&Vec<Path>>) -> Option<Seq<PathView>> {
    match filter {
        Some(paths) => Some(path_seq(paths@)),
        None => None,
    }
}

/// The paths that a filter names; no filter stands for the whole working
/// tree.
pub fn preprocess_filters(filter: Option<&Vec<Path>>, dirs: &Dirs) -> (paths: Vec<Path>)
    ensures
        path_seq(paths@) == filter_paths(filter_view(filter), dirs@.work),
{
    match filter {
        Some(given) => {
            let mut paths: Vec<Path> = Vec::new();
            let mut i: usize = 0;
            while i < given.len()
                invariant
                    0 <= i <= given.len(),
                    paths.len() == i,
                    forall|k: int| 0 <= k < i ==> paths@[k]@ == given@[k]@,
                decreases given.len() - i,
            {
                paths.push(given[i].clone());
                i += 1;
            }
            assert(path_seq(paths@) =~= path_seq(given@));
            paths
        },
        None => {
            let mut paths: Vec<Path> = Vec::new();
            paths.push(dirs.work.clone());
            assert(path_seq(paths@) =~= seq![dirs@.work]);
            paths
        },
    }
}

/// The snapshot with absolute paths, as a table.
pub fn preprocess_blobs(blobs: &Vec<TreeBlob>, dirs: &Dirs) -> (target: Table<Path, String>)
    requires
        grounded(blob_paths(blob_seq(blobs@)), dirs@.work),
    ensures
        target.wf(),
        target.map() == target_map(blob_seq(blobs@), dirs@.work),
        target.keys() == target_paths(blob_seq(blobs@), dirs@.work),
        all_canonical(target.keys()),
{
    let mut target: Table<Path, String> = Table::new();
    let ghost all = blob_seq(blobs@);
    let mut i: usize = 0;
    assert(all.take(0) =~= Seq::empty());
    while i < blobs.len()
        invariant
            0 <= i <= blobs.len(),
            all == blob_seq(blobs@),
            grounded(blob_paths(all), dirs@.work),
            target.wf(),
            target.map() == target_map(all.take(i as int), dirs@.work),
            target.keys() == target_paths(all.take(i as int), dirs@.work),
            all_canonical(target.keys()),
        decreases blobs.len() - i,
    {
        proof {
            assert(all.take(i + 1).drop_last() =~= all.take(i as int));
            assert(all.take(i + 1).last() == blobs@[i as int]@);
            assert(blob_paths(all)[i as int] == blobs@[i as int]@.path);
        }
        let abs = to_workdir_absolute_path(&blobs[i].path, dirs);
        target.insert(abs, blobs[i].hash.clone());
        i += 1;
    }
    assert(all.take(i as int) =~= all);
    target
}

/// The path lies in the filter's scope and is none of the staging area.
pub open spec fn missing_in_index(
    index: Map<PathView, FileMetaDataView>,
    filters: Seq<PathView>,
    current: PathView,
) -> spec_fn(PathView) -> bool {
    |p: PathView| !index.contains_key(p) && included(p, filters, current)
}

/// The path lies in the filter's scope and no file is there.
pub open spec fn missing_in_worktree(tree: &WorkTree, filters: Seq<PathView>, current: PathView)
    -> spec_fn(PathView) -> bool {
    |p: PathView| !tree.has_file(p) && included(p, filters, current)
}

/// The files of the snapshot, within the filter's scope, that the staging
/// area has no record of.
pub fn get_index_deleted_files_in_filters(
    index: &Index,
    filters: &Vec<Path>,
    target: &Table<Path, String>,
) -> (files: Vec<Path>)
    requires
        index.wf(),
        all_canonical(target.keys()),
        all_resolve(path_seq(filters@), index.dirs@.current),
    ensures
        path_seq(files@) == target.keys().filter(
            missing_in_index(index@, path_seq(filters@), index.dirs@.current),
        ),
{
    let ghost pred = missing_in_index(index@, path_seq(filters@), index.dirs@.current);
    let mut files: Vec<Path> = Vec::new();
    let mut i: usize = 0;
    assert(target.keys().take(0) =~= Seq::empty());
    assert(path_seq(files@) =~= target.keys().take(0).filter(pred));
    while i < target.entries.len()
        invariant
            0 <= i <= target.entries.len(),
            index.wf(),
            all_canonical(target.keys()),
            all_resolve(path_seq(filters@), index.dirs@.current),
            pred == missing_in_index(index@, path_seq(filters@), index.dirs@.current),
            path_seq(files@) == target.keys().take(i as int).filter(pred),
        decreases target.entries.len() - i,
    {
        let path = &target.entries[i].key;
        let ghost before = path_seq(files@);
        proof {
            assert(target.keys()[i as int] == path@);
            assert(canonical(path@));
            canonical_is_fixed(path@, index.dirs@.current);
            lemma_filter_step(target.keys(), i as int, pred);
        }
        if !index.contains(path) && include_in_paths(path, filters, &index.dirs) {
            files.push(path.clone());
            assert(path_seq(files@) =~= before.push(path@));
        }
        i += 1;
    }
    assert(target.keys().take(i as int) =~= target.keys());
    files
}

/// The files of the snapshot, within the filter's scope, at which no file is
/// left.
pub fn get_worktree_deleted_files_in_filters(
    filters: &Vec<Path>,
    target: &Table<Path, String>,
    tree: &WorkTree,
    dirs: &Dirs,
) -> (files: Vec<Path>)
    requires
        all_canonical(target.keys()),
        all_resolve(path_seq(filters@), dirs@.current),
    ensures
        path_seq(files@) == target.keys().filter(
            missing_in_worktree(tree, path_seq(filters@), dirs@.current),
        ),
{
    let ghost pred = missing_in_worktree(tree, path_seq(filters@), dirs@.current);
    let mut files: Vec<Path> = Vec::new();
    let mut i: usize = 0;
    assert(target.keys().take(0) =~= Seq::empty());
    assert(path_seq(files@) =~= target.keys().take(0).filter(pred));
    while i < target.entries.len()
        invariant
            0 <= i <= target.entries.len(),
            all_canonical(target.keys()),
            all_resolve(path_seq(filters@), dirs@.current),
            pred == missing_in_worktree(tree, path_seq(filters@), dirs@.current),
            path_seq(files@) == target.keys().take(i as int).filter(pred),
        decreases target.entries.len() - i,
    {
        let path = &target.entries[i].key;
        let ghost before = path_seq(files@);
        proof {
            assert(target.keys()[i as int] == path@);
            assert(canonical(path@));
            canonical_is_fixed(path@, dirs@.current);
            lemma_filter_step(target.keys(), i as int, pred);
        }
        if !tree.file_exists(path) && include_in_paths(path, filters, dirs) {
            files.push(path.clone());
            assert(path_seq(files@) =~= before.push(path@));
        }
        i += 1;
    }
    assert(target.keys().take(i as int) =~= target.keys());
    files
}

/// The record with which a path of the snapshot is staged: the record that
/// is there where it has the snapshot's hash, else a bare record of that
/// hash.
pub open spec fn restored_record(
    index: Map<PathView, FileMetaDataView>,
    target: Map<PathView, Seq<char>>,
    path: PathView,
    now: Timestamp,
) -> FileMetaDataView {
    if index.contains_key(path) && index[path].hash == target[path] {
        index[path]
    } else {
        bare_record(target[path], now)
    }
}

/// The staging area after the paths `done` were brought in line with the
/// snapshot: each of them is staged exactly if the snapshot holds it, and
/// then with the snapshot's hash.
pub open spec fn restored_at(
    index: Map<PathView, FileMetaDataView>,
    target: Map<PathView, Seq<char>>,
    done: spec_fn(PathView) -> bool,
    now: Timestamp,
) -> Map<PathView, FileMetaDataView> {
    Map::new(
        |p: PathView|
            if done(p) {
                target.contains_key(p)
            } else {
                index.contains_key(p)
            },
        |p: PathView|
            if done(p) && target.contains_key(p) {
                restored_record(index, target, p, now)
            } else {
                index[p]
            },
    )
}

/// The staging area brought in line with the snapshot at every path in the
/// filter's scope. Paths out of the scope stay as they are.
pub open spec fn restored_index(
    index: Map<PathView, FileMetaDataView>,
    target: Map<PathView, Seq<char>>,
    filters: Seq<PathView>,
    current: PathView,
    now: Timestamp,
) -> Map<PathView, FileMetaDataView> {
    restored_at(index, target, |p: PathView| included(p, filters, current), now)
}

/// Restoring the staging area a second time changes nothing, whatever the
/// time of the second call.
pub proof fn restore_index_is_idempotent(
    index: Map<PathView, FileMetaDataView>,
    target: Map<PathView, Seq<char>>,
    filters: Seq<PathView>,
    current: PathView,
    now: Timestamp,
    later: Timestamp,
)
    ensures
        restored_index(restored_index(index, target, filters, current, now), target, filters, current, later)
            == restored_index(index, target, filters, current, now),
{
    let once = restored_index(index, target, filters, current, now);
    let twice = restored_index(once, target, filters, current, later);
    assert(twice =~= once);
}

/// The path is none of `done`, or the snapshot holds it: a staged path of
/// which this holds stays staged.
pub open spec fn stays(done: Seq<PathView>, target: Map<PathView, Seq<char>>) -> spec_fn(
    PathView,
) -> bool {
    |p: PathView| !done.contains(p) || target.contains_key(p)
}

/// The path is not staged, and the snapshot holds it: such a path becomes
/// staged.
pub open spec fn enters(
    index: Map<PathView, FileMetaDataView>,
    target: Map<PathView, Seq<char>>,
) -> spec_fn(PathView) -> bool {
    |p: PathView| !index.contains_key(p) && target.contains_key(p)
}

/// Brings the staging area in line with the snapshot at each of `paths`.
/// The staged paths that stay keep their order; those that become staged
/// come after them, in the order of `paths`.
fn restore_index_paths(
    index: &mut Index,
    paths: &Vec<Path>,
    target: &Table<Path, String>,
    now: Timestamp,
)
    requires
        old(index).wf(),
        target.wf(),
        all_canonical(path_seq(paths@)),
        path_seq(paths@).no_duplicates(),
    ensures
        final(index).wf(),
        final(index).dirs@ == old(index).dirs@,
        final(index)@ == restored_at(
            old(index)@,
            target.map(),
            |p: PathView| path_seq(paths@).contains(p),
            now,
        ),
        final(index).tracked_paths() == old(index).tracked_paths().filter(
            stays(path_seq(paths@), target.map()),
        ) + path_seq(paths@).filter(enters(old(index)@, target.map())),
{
    let ghost start = index@;
    let ghost first = index.tracked_paths();
    let ghost goal = target.map();
    let ghost all = path_seq(paths@);
    let mut i: usize = 0;
    assert(index@ =~= restored_at(start, goal, |p: PathView| all.take(0).contains(p), now));
    proof {
        assert(all.take(0) =~= Seq::empty());
        lemma_filter_all(first, stays(all.take(0), goal));
        lemma_filter_none(all.take(0), enters(start, goal));
        assert(first + Seq::<PathView>::empty() =~= first);
    }
    while i < paths.len()
        invariant
            0 <= i <= paths.len(),
            index.wf(),
            target.wf(),
            index.dirs@ == old(index).dirs@,
            all == path_seq(paths@),
            all_canonical(all),
            all.no_duplicates(),
            goal == target.map(),
            first.no_duplicates(),
            forall|p: PathView| start.contains_key(p) <==> first.contains(p),
            index@ == restored_at(start, goal, |p: PathView| all.take(i as int).contains(p), now),
            index.tracked_paths() == first.filter(stays(all.take(i as int), goal)) + all.take(
                i as int,
            ).filter(enters(start, goal)),
        decreases paths.len() - i,
    {
        let path = &paths[i];
        let ghost q = path@;
        let ghost held = index@;
        let ghost before = *index;
        let ghost keys = index.tracked_paths();
        let ghost done = all.take(i as int);
        let ghost more = all.take(i + 1);
        proof {
            assert(all[i as int] == q);
            assert(canonical(q));
            canonical_is_fixed(q, index.dirs@.current);
            assert(more =~= done.push(q));
            assert forall|p: PathView| more.contains(p) <==> (done.contains(p) || p == q) by {
                if done.contains(p) {
                    let k = choose|k: int| 0 <= k < done.len() && done[k] == p;
                    assert(more[k] == p);
                }
                if p == q {
                    assert(more[i as int] == p);
                }
            }
        }
        match target.get(path) {
            Some(hash) => {
                if !index.verify_hash(path, hash) || !index.contains(path) {
                    index.add(path.clone(), FileMetaData::bare(hash.clone(), now));
                }
            },
            None => {
                index.remove(path);
            },
        }
        assert(index@ =~= restored_at(start, goal, |p: PathView| more.contains(p), now));
        proof {
            let stay = stays(done, goal);
            let stay_more = stays(more, goal);
            let enter = enters(start, goal);
            let old_part = first.filter(stay);
            let new_part = done.filter(enter);
            lemma_filter_step(all, i as int, enter);
            assert(!done.contains(q)) by {
                if done.contains(q) {
                    let k = choose|k: int| 0 <= k < done.len() && done[k] == q;
                    assert(all[k] == q);
                }
            }
            assert(held.contains_key(q) == start.contains_key(q));
            if goal.contains_key(q) || !start.contains_key(q) {
                // No staged path leaves: a path of the snapshot stays or
                // enters, and one that is not staged cannot leave.
                assert forall|k: int| 0 <= k < first.len() implies stay(#[trigger] first[k])
                    == stay_more(first[k]) by {
                    assert(first.contains(first[k]));
                }
                lemma_filter_agree(first, stay, stay_more);
                if goal.contains_key(q) && !start.contains_key(q) {
                    assert((old_part + new_part).push(q) =~= old_part + new_part.push(q));
                }
            } else {
                // The path is staged and the snapshot does not hold it.
                assert(first.contains(q));
                let at = choose|at: int| 0 <= at < first.len() && first[at] == q;
                assert(stay(first[at]));
                first.lemma_filter_contains(stay, at);
                let j = choose|j: int| 0 <= j < old_part.len() && old_part[j] == q;
                assert(keys[j] == q);
                before.entries.lemma_entry(j);
                assert(keys.remove(j) =~= old_part.remove(j) + new_part);
                lemma_filter_no_duplicates(first, stay);
                lemma_remove_is_filter(old_part, j);
                lemma_filter_twice(first, stay, is_not(q));
                assert forall|k: int| 0 <= k < first.len() implies both(stay, is_not(q))(
                    #[trigger] first[k],
                ) == stay_more(first[k]) by {}
                lemma_filter_agree(first, both(stay, is_not(q)), stay_more);
            }
        }
        i += 1;
    }
    assert(all.take(i as int) =~= all);
    assert(index@ =~= restored_at(start, goal, |p: PathView| all.contains(p), now));
}

/// The path is out of the filter's scope, or the snapshot holds it: a
/// staged path of which this holds stays staged.
pub open spec fn stays_staged(
    target: Map<PathView, Seq<char>>,
    filters: Seq<PathView>,
    current: PathView,
) -> spec_fn(PathView) -> bool {
    |p: PathView| !included(p, filters, current) || target.contains_key(p)
}

/// The staged paths after the staging area was brought in line with the
/// snapshot: those that stay, in their order, and then the paths of the
/// snapshot that were missing in the filter's scope, in the snapshot's
/// order.
pub open spec fn restored_paths(
    staged: Seq<PathView>,
    index: Map<PathView, FileMetaDataView>,
    target: Map<PathView, Seq<char>>,
    snapshot: Seq<PathView>,
    filters: Seq<PathView>,
    current: PathView,
) -> Seq<PathView> {
    staged.filter(stays_staged(target, filters, current)) + snapshot.filter(
        missing_in_index(index, filters, current),
    )
}

/// Every path of the snapshot is a key of the snapshot's map.
pub proof fn lemma_target_paths(blobs: Seq<TreeBlobView>, work: PathView)
    ensures
        forall|k: int|
            0 <= k < target_paths(blobs, work).len() ==> target_map(blobs, work).contains_key(
                #[trigger] target_paths(blobs, work)[k],
            ),
    decreases blobs.len(),
{
    if blobs.len() > 0 {
        lemma_target_paths(blobs.drop_last(), work);
        let fewer = target_paths(blobs.drop_last(), work);
        let all = target_paths(blobs, work);
        assert forall|k: int| 0 <= k < all.len() implies target_map(blobs, work).contains_key(
            #[trigger] all[k],
        ) by {
            if k < fewer.len() {
                assert(all[k] == fewer[k]);
                assert(target_map(blobs.drop_last(), work).contains_key(fewer[k]));
            }
        }
    }
}

/// Restoring the staging area a second time leaves the staged paths in the
/// order in which the first restore left them.
pub proof fn restore_index_keeps_the_order(
    staged: Seq<PathView>,
    index: Map<PathView, FileMetaDataView>,
    blobs: Seq<TreeBlobView>,
    work: PathView,
    filters: Seq<PathView>,
    current: PathView,
    now: Timestamp,
)
    ensures
        restored_paths(
            restored_paths(
                staged,
                index,
                target_map(blobs, work),
                target_paths(blobs, work),
                filters,
                current,
            ),
            restored_index(index, target_map(blobs, work), filters, current, now),
            target_map(blobs, work),
            target_paths(blobs, work),
            filters,
            current,
        ) == restored_paths(
            staged,
            index,
            target_map(blobs, work),
            target_paths(blobs, work),
            filters,
            current,
        ),
{
    let target = target_map(blobs, work);
    let snapshot = target_paths(blobs, work);
    let stay = stays_staged(target, filters, current);
    let once = restored_paths(staged, index, target, snapshot, filters, current);
    let after = restored_index(index, target, filters, current, now);
    let kept = staged.filter(stay);
    let entered = snapshot.filter(missing_in_index(index, filters, current));
    lemma_target_paths(blobs, work);
    assert forall|k: int| 0 <= k < once.len() implies stay(#[trigger] once[k]) by {
        if k < kept.len() {
            staged.lemma_filter_pred(stay, k);
        } else {
            let p = entered[k - kept.len()];
            assert(entered.contains(p));
            snapshot.lemma_filter_contains_rev(missing_in_index(index, filters, current), p);
        }
    }
    lemma_filter_all(once, stay);
    assert forall|k: int| 0 <= k < snapshot.len() implies !missing_in_index(
        after,
        filters,
        current,
    )(#[trigger] snapshot[k]) by {}
    lemma_filter_none(snapshot, missing_in_index(after, filters, current));
    assert(once + Seq::<PathView>::empty() =~= once);
}

/// Brings the staging area in line with the snapshot `target_blobs` within
/// the filter's scope: a path of the snapshot is staged with the snapshot's
/// hash, a staged path that the snapshot does not hold is taken out. The
/// staged paths that stay keep their order; those that become staged come
/// after them, in the snapshot's order. No filter stands for the whole
/// working tree.
pub fn restore_index(
    filter: Option<&Vec<Path>>,
    target_blobs: &Vec<TreeBlob>,
    index: &mut Index,
    now: Timestamp,
)
    requires
        old(index).wf(),
        grounded(blob_paths(blob_seq(target_blobs@)), old(index).dirs@.work),
        all_resolve(
            filter_paths(filter_view(filter), old(index).dirs@.work),
            old(index).dirs@.current,
        ),
    ensures
        final(index).wf(),
        final(index).dirs@ == old(index).dirs@,
        final(index)@ == restored_index(
            old(index)@,
            target_map(blob_seq(target_blobs@), old(index).dirs@.work),
            filter_paths(filter_view(filter), old(index).dirs@.work),
            old(index).dirs@.current,
            now,
        ),
        final(index).tracked_paths() == restored_paths(
            old(index).tracked_paths(),
            old(index)@,
            target_map(blob_seq(target_blobs@), old(index).dirs@.work),
            target_paths(blob_seq(target_blobs@), old(index).dirs@.work),
            filter_paths(filter_view(filter), old(index).dirs@.work),
            old(index).dirs@.current,
        ),
{
    let ghost start = index@;
    let ghost first = index.tracked_paths();
    let ghost current = index.dirs@.current;
    let input_paths = preprocess_filters(filter, &index.dirs);
    let target = preprocess_blobs(target_blobs, &index.dirs);
    let ghost goal = target.map();
    let ghost filters = path_seq(input_paths@);
    let deleted = get_index_deleted_files_in_filters(index, &input_paths, &target);
    let staged = index.get_tracked_files();
    proof {
        assert forall|i: int| 0 <= i < staged.len() implies resolves(
            #[trigger] path_seq(staged@)[i],
            current,
        ) by {
            canonical_is_fixed(path_seq(staged@)[i], current);
        }
    }
    let kept = crate::path::filter_to_fit_paths(&staged, &input_paths, &index.dirs);
    let ghost in_scope = |p: PathView| included(p, filters, current);
    let ghost missing = missing_in_index(start, filters, current);
    proof {
        let good = |p: PathView| canonical(p);
        crate::path::lemma_filter_keeps(path_seq(staged@), in_scope, good);
        crate::path::lemma_filter_keeps(target.keys(), missing, good);
        lemma_filter_no_duplicates(path_seq(staged@), in_scope);
        lemma_filter_no_duplicates(target.keys(), missing);
    }
    restore_index_paths(index, &kept, &target, now);
    let ghost half = index@;
    let ghost half_paths = index.tracked_paths();
    restore_index_paths(index, &deleted, &target, now);
    proof {
        let wanted = restored_index(start, goal, filters, current, now);
        assert forall|p: PathView| path_seq(kept@).contains(p) <==> (start.contains_key(p)
            && included(p, filters, current)) by {
            if path_seq(kept@).contains(p) {
                path_seq(staged@).lemma_filter_contains_rev(in_scope, p);
            }
            if start.contains_key(p) && included(p, filters, current) {
                let k = old(index).entries.lemma_key_index(p);
                path_seq(staged@).lemma_filter_contains(in_scope, k);
            }
        }
        assert forall|p: PathView| path_seq(deleted@).contains(p) <==> (goal.contains_key(p)
            && !start.contains_key(p) && included(p, filters, current)) by {
            if path_seq(deleted@).contains(p) {
                target.keys().lemma_filter_contains_rev(missing, p);
            }
            if goal.contains_key(p) && !start.contains_key(p) && included(p, filters, current) {
                let k = target.lemma_key_index(p);
                target.keys().lemma_filter_contains(missing, k);
            }
        }
        assert(index@ =~= wanted);
        // The order: none of the paths looked at first becomes staged, and
        // none of those looked at then was staged or leaves.
        let kept_paths = path_seq(kept@);
        let new_paths = path_seq(deleted@);
        let stay = stays_staged(goal, filters, current);
        assert forall|k: int| 0 <= k < kept_paths.len() implies !enters(start, goal)(
            #[trigger] kept_paths[k],
        ) by {
            assert(kept_paths.contains(kept_paths[k]));
        }
        lemma_filter_none(kept_paths, enters(start, goal));
        assert forall|k: int| 0 <= k < first.len() implies stays(kept_paths, goal)(
            #[trigger] first[k],
        ) == stay(first[k]) by {
            assert(first.contains(first[k]));
            assert(start.contains_key(first[k]));
        }
        lemma_filter_agree(first, stays(kept_paths, goal), stay);
        assert(half_paths =~= first.filter(stay));
        assert forall|k: int| 0 <= k < half_paths.len() implies stays(new_paths, goal)(
            #[trigger] half_paths[k],
        ) by {
            if new_paths.contains(half_paths[k]) {
            }
        }
        lemma_filter_all(half_paths, stays(new_paths, goal));
        assert forall|k: int| 0 <= k < new_paths.len() implies enters(half, goal)(
            #[trigger] new_paths[k],
        ) by {
            assert(new_paths.contains(new_paths[k]));
            assert(!kept_paths.contains(new_paths[k]));
        }
        lemma_filter_all(new_paths, enters(half, goal));
    }
}

/// The paths that a restore of the working directory looks at: what the
/// filter stands for, and the files of the snapshot, within the filter's
/// scope, at which no file is left.
pub open spec fn worktree_scope(
    tree: &WorkTree,
    target: Map<PathView, Seq<char>>,
    filters: Seq<PathView>,
    current: PathView,
) -> spec_fn(PathView) -> bool {
    |p: PathView|
        integrated(tree, filters, current, p) || (target.contains_key(p) && !tree.has_file(p)
            && included(p, filters, current))
}

/// The snapshot holds the path, and the file is missing or has another
/// content.
pub open spec fn rewrites(
    files: Map<PathView, FileStateView>,
    target: Map<PathView, Seq<char>>,
    path: PathView,
) -> bool {
    target.contains_key(path) && (!files.contains_key(path) || content_hash(files[path].content)
        != target[path])
}

/// The store holds the content of every file that has to be written.
pub open spec fn blobs_present(
    files: Map<PathView, FileStateView>,
    target: Map<PathView, Seq<char>>,
    store: Map<Seq<char>, Seq<char>>,
    scope: spec_fn(PathView) -> bool,
) -> bool {
    forall|p: PathView| scope(p) && #[trigger] rewrites(files, target, p) ==> store.contains_key(target[p])
}

/// The files after the paths in `scope` were brought in line with the
/// snapshot: a file of the snapshot has the snapshot's content, and a file
/// that the snapshot does not hold is gone where it was tracked. Untracked
/// files stay.
pub open spec fn restored_files(
    files: Map<PathView, FileStateView>,
    target: Map<PathView, Seq<char>>,
    index: Map<PathView, FileMetaDataView>,
    store: Map<Seq<char>, Seq<char>>,
    scope: spec_fn(PathView) -> bool,
    now: Timestamp,
) -> Map<PathView, FileStateView> {
    Map::new(
        |p: PathView|
            if scope(p) {
                target.contains_key(p) || (files.contains_key(p) && !index.contains_key(p))
            } else {
                files.contains_key(p)
            },
        |p: PathView|
            if scope(p) && rewrites(files, target, p) {
                written(
                    if files.contains_key(p) {
                        Some(files[p])
                    } else {
                        None
                    },
                    store[target[p]],
                    now,
                )
            } else {
                files[p]
            },
    )
}

/// Brings the working directory in line with the snapshot `target_blobs`
/// within the filter's scope. A file of the snapshot that is missing or has
/// another content is written; a file that the snapshot does not hold is
/// removed where it is tracked and left alone where it is not. A directory
/// that loses its last file is gone with it. Where the store lacks the
/// content of a file that has to be written, nothing is changed.
pub fn restore_worktree(
    filter: Option<&Vec<Path>>,
    target_blobs: &Vec<TreeBlob>,
    store: &Store,
    index: &Index,
    tree: &mut WorkTree,
    now: Timestamp,
) -> (done: Result<(), Fatal>)
    requires
        store.wf(),
        index.wf(),
        old(tree).wf(),
        grounded(blob_paths(blob_seq(target_blobs@)), index.dirs@.work),
        all_resolve(filter_paths(filter_view(filter), index.dirs@.work), index.dirs@.current),
    ensures
        final(tree).wf(),
        match done {
            Ok(_) => {
                &&& blobs_present(
                    old(tree).file_map(),
                    target_map(blob_seq(target_blobs@), index.dirs@.work),
                    store@,
                    worktree_scope(
                        old(tree),
                        target_map(blob_seq(target_blobs@), index.dirs@.work),
                        filter_paths(filter_view(filter), index.dirs@.work),
                        index.dirs@.current,
                    ),
                )
                &&& final(tree).file_map() == restored_files(
                    old(tree).file_map(),
                    target_map(blob_seq(target_blobs@), index.dirs@.work),
                    index@,
                    store@,
                    worktree_scope(
                        old(tree),
                        target_map(blob_seq(target_blobs@), index.dirs@.work),
                        filter_paths(filter_view(filter), index.dirs@.work),
                        index.dirs@.current,
                    ),
                    now,
                )
            },
            Err(e) => {
                &&& e == Fatal::Missing
                &&& !blobs_present(
                    old(tree).file_map(),
                    target_map(blob_seq(target_blobs@), index.dirs@.work),
                    store@,
                    worktree_scope(
                        old(tree),
                        target_map(blob_seq(target_blobs@), index.dirs@.work),
                        filter_paths(filter_view(filter), index.dirs@.work),
                        index.dirs@.current,
                    ),
                )
                &&& final(tree).file_map() == old(tree).file_map()
            },
        },
{
    let dirs = &index.dirs;
    let ghost current = dirs@.current;
    let ghost work = dirs@.work;
    let ghost first = old(tree).file_map();
    let input_paths = preprocess_filters(filter, dirs);
    let target = preprocess_blobs(target_blobs, dirs);
    let ghost goal = target.map();
    let ghost filters = path_seq(input_paths@);
    let ghost scope = worktree_scope(old(tree), goal, filters, current);
    let deleted = get_worktree_deleted_files_in_filters(&input_paths, &target, tree, dirs);
    let mut paths = integrate_paths(&input_paths, tree, dirs);
    let ghost named = path_seq(paths@);
    let mut d: usize = 0;
    assert(path_seq(deleted@).take(0) =~= Seq::empty());
    assert(named.to_set() =~= named.to_set().union(Seq::<PathView>::empty().to_set()));
    while d < deleted.len()
        invariant
            0 <= d <= deleted.len(),
            path_seq(paths@).no_duplicates(),
            path_seq(paths@).to_set() == named.to_set().union(
                path_seq(deleted@).take(d as int).to_set(),
            ),
        decreases deleted.len() - d,
    {
        let ghost so_far = path_seq(deleted@).take(d as int);
        proof {
            assert(path_seq(deleted@).take(d + 1) =~= so_far.push(deleted@[d as int]@));
            so_far.lemma_push_to_set_commute(deleted@[d as int]@);
        }
        push_unique_path(&mut paths, deleted[d].clone());
        assert(path_seq(paths@).to_set() =~= named.to_set().union(
            path_seq(deleted@).take(d + 1).to_set(),
        ));
        d += 1;
    }
    let ghost all = path_seq(paths@);
    proof {
        assert(path_seq(deleted@).take(d as int) =~= path_seq(deleted@));
        let missing = missing_in_worktree(old(tree), filters, current);
        assert forall|p: PathView| all.contains(p) <==> scope(p) by {
            assert(all.to_set().contains(p) <==> all.contains(p));
            assert(named.to_set().contains(p) <==> named.contains(p));
            assert(path_seq(deleted@).to_set().contains(p) <==> path_seq(deleted@).contains(p));
            if path_seq(deleted@).contains(p) {
                target.keys().lemma_filter_contains_rev(missing, p);
            }
            if goal.contains_key(p) && !old(tree).has_file(p) && included(p, filters, current) {
                let k = target.lemma_key_index(p);
                target.keys().lemma_filter_contains(missing, k);
            }
        }
    }
    // First see that nothing is missing, so that a failure changes nothing.
    let mut i: usize = 0;
    while i < paths.len()
        invariant
            0 <= i <= paths.len(),
            store.wf(),
            target.wf(),
            tree.wf(),
            *tree == *old(tree),
            first == tree.file_map(),
            goal == target.map(),
            goal == target_map(blob_seq(target_blobs@), index.dirs@.work),
            filters == filter_paths(filter_view(filter), index.dirs@.work),
            current == index.dirs@.current,
            scope == worktree_scope(old(tree), goal, filters, current),
            all == path_seq(paths@),
            forall|p: PathView| all.contains(p) <==> scope(p),
            forall|k: int|
                0 <= k < i ==> (rewrites(first, goal, #[trigger] all[k]) ==> store@.contains_key(
                    goal[all[k]],
                )),
        decreases paths.len() - i,
    {
        let path = &paths[i];
        assert(all[i as int] == path@);
        match target.get(path) {
            Some(hash) => {
                let differs = match tree.file(path) {
                    Some(file) => calc_hash(&file.content) != *hash,
                    None => true,
                };
                if differs && !store.contains(hash) {
                    assert(all.contains(path@));
                    assert(scope(path@) && rewrites(first, goal, path@));
                    return Err(Fatal::Missing);
                }
            },
            None => {},
        }
        i += 1;
    }
    proof {
        assert forall|p: PathView| scope(p) && #[trigger] rewrites(first, goal, p) implies store@.contains_key(
            goal[p],
        ) by {
            assert(all.contains(p));
            let k = choose|k: int| 0 <= k < all.len() && all[k] == p;
            assert(rewrites(first, goal, all[k]));
        }
    }
    let mut j: usize = 0;
    assert(tree.file_map() =~= restored_files(
        first,
        goal,
        index@,
        store@,
        |p: PathView| all.take(0).contains(p),
        now,
    ));
    while j < paths.len()
        invariant
            0 <= j <= paths.len(),
            store.wf(),
            index.wf(),
            target.wf(),
            tree.wf(),
            dirs == &index.dirs,
            work == dirs@.work,
            current == dirs@.current,
            goal == target.map(),
            all_canonical(target.keys()),
            all == path_seq(paths@),
            all.no_duplicates(),
            forall|p: PathView| all.contains(p) <==> scope(p),
            first == old(tree).file_map(),
            forall|k: int|
                0 <= k < all.len() ==> (rewrites(first, goal, #[trigger] all[k]) ==> store@.contains_key(
                    goal[all[k]],
                )),
            tree.file_map() == restored_files(
                first,
                goal,
                index@,
                store@,
                |p: PathView| all.take(j as int).contains(p),
                now,
            ),
        decreases paths.len() - j,
    {
        let path = &paths[j];
        let ghost q = path@;
        let ghost done = all.take(j as int);
        let ghost more = all.take(j + 1);
        let ghost held = tree.file_map();
        proof {
            assert(all[j as int] == q);
            assert(more =~= done.push(q));
            assert(!done.contains(q)) by {
                if done.contains(q) {
                    let k = choose|k: int| 0 <= k < done.len() && done[k] == q;
                    assert(all[k] == q);
                }
            }
            assert forall|p: PathView| more.contains(p) <==> (done.contains(p) || p == q) by {
                if done.contains(p) {
                    let k = choose|k: int| 0 <= k < done.len() && done[k] == p;
                    assert(more[k] == p);
                }
                if p == q {
                    assert(more[j as int] == p);
                }
            }
            assert(held.contains_key(q) == first.contains_key(q));
            assert(held.contains_key(q) ==> held[q] == first[q]);
        }
        match target.get(path) {
            Some(hash) => {
                let differs = match tree.file(path) {
                    Some(file) => calc_hash(&file.content) != *hash,
                    None => true,
                };
                if differs {
                    proof {
                        let k = target.lemma_key_index(q);
                        assert(canonical(target.keys()[k]));
                        assert(rewrites(first, goal, all[j as int]));
                    }
                    let _ = Blob::restore(hash, path, store, tree, now);
                }
            },
            None => {
                if tree.file_exists(path) {
                    proof {
                        let k = tree.files.lemma_key_index(q);
                        assert(canonical(tree.files.keys()[k]));
                        canonical_is_fixed(q, current);
                    }
                    if index.is_tracked(path) {
                        tree.remove_file(path);
                    }
                }
            },
        }
        assert(tree.file_map() =~= restored_files(
            first,
            goal,
            index@,
            store@,
            |p: PathView| more.contains(p),
            now,
        ));
        j += 1;
    }
    assert(all.take(j as int) =~= all);
    assert(tree.file_map() =~= restored_files(first, goal, index@, store@, scope, now));
    Ok(())
}

/// Every content that the store holds for the snapshot is stored under its
/// own hash.
pub open spec fn content_addressed(
    target: Map<PathView, Seq<char>>,
    store: Map<Seq<char>, Seq<char>>,
) -> bool {
    forall|p: PathView| #[trigger]
        target.contains_key(p) && store.contains_key(target[p]) ==> content_hash(store[target[p]])
            == target[p]
}

/// No path is a file and a directory at once.
pub open spec fn files_are_no_dirs(tree: &WorkTree) -> bool {
    forall|p: PathView| !(#[trigger] tree.has_file(p) && tree.is_dir(p))
}

/// What holds at one path when a working directory that was restored is
/// restored again: a file of the snapshot is there with the snapshot's
/// content, and a file that is left and that the snapshot does not hold is
/// not tracked.
proof fn lemma_restored_path(
    tree: &WorkTree,
    after: &WorkTree,
    target: Map<PathView, Seq<char>>,
    index: Map<PathView, FileMetaDataView>,
    store: Map<Seq<char>, Seq<char>>,
    filters: Seq<PathView>,
    current: PathView,
    now: Timestamp,
    p: PathView,
)
    requires
        tree.wf(),
        after.wf(),
        current.absolute,
        after.file_map() == restored_files(
            tree.file_map(),
            target,
            index,
            store,
            worktree_scope(tree, target, filters, current),
            now,
        ),
        blobs_present(
            tree.file_map(),
            target,
            store,
            worktree_scope(tree, target, filters, current),
        ),
        content_addressed(target, store),
        files_are_no_dirs(tree),
        worktree_scope(after, target, filters, current)(p),
    ensures
        !rewrites(after.file_map(), target, p),
        !target.contains_key(p) && after.has_file(p) ==> !index.contains_key(p),
{
    let before = tree.file_map();
    let left = after.file_map();
    let scope = worktree_scope(tree, target, filters, current);
    // A file that is left was there before, or is one of the snapshot.
    assert(left.contains_key(p) ==> before.contains_key(p) || (scope(p) && target.contains_key(p)));
    if scope(p) {
        if target.contains_key(p) {
            assert(left.contains_key(p));
            if rewrites(before, target, p) {
                assert(store.contains_key(target[p]));
                assert(left[p].content == store[target[p]]);
            }
        }
    } else {
        assert(left.contains_key(p) == before.contains_key(p));
        // The path was not looked at before, so it is not one that the
        // filter stood for then.
        assert(!integrated(tree, filters, current, p));
        if integrated(after, filters, current, p) {
            let i = choose|i: int|
                0 <= i < filters.len() && crate::worktree::named_by(
                    after,
                    #[trigger] filters[i],
                    current,
                    p,
                );
            let abs = absolute_form(filters[i], current);
            assert(!crate::worktree::named_by(tree, filters[i], current, p));
            if after.is_dir(abs) {
                assert(after.has_file(p) && crate::worktree::listed(p, abs));
                assert(before.contains_key(p));
                let k = tree.files.lemma_key_index(p);
                assert(crate::worktree::below(tree.files.keys()[k], abs));
                assert(tree.is_dir(abs));
                assert(false);
            } else {
                assert(p == abs);
                assert(abs.absolute);
                assert(absolute_form(p, current) == p);
                assert(p.parts.is_prefix_of(p.parts)) by {
                    assert(p.parts.subrange(0, p.parts.len() as int) =~= p.parts);
                }
                assert(crate::path::starts_with(
                    absolute_form(p, current),
                    absolute_form(filters[i], current),
                ));
                assert(included(p, filters, current));
                if tree.is_dir(abs) {
                    assert(!tree.has_file(p));
                    assert(!before.contains_key(p));
                    assert(!target.contains_key(p));
                } else {
                    assert(false);
                }
            }
        } else {
            assert(target.contains_key(p) && !after.has_file(p) && included(p, filters, current));
            assert(!tree.has_file(p));
            assert(false);
        }
    }
}

/// Restoring the working directory a second time changes no file, whatever
/// the time of the second call. This holds where the first call found every
/// content it needed, each under its own hash, and where no path was a file
/// and a directory at once.
pub proof fn restore_worktree_is_idempotent(
    tree: &WorkTree,
    after: &WorkTree,
    target: Map<PathView, Seq<char>>,
    index: Map<PathView, FileMetaDataView>,
    store: Map<Seq<char>, Seq<char>>,
    filters: Seq<PathView>,
    current: PathView,
    now: Timestamp,
    later: Timestamp,
)
    requires
        tree.wf(),
        after.wf(),
        current.absolute,
        after.file_map() == restored_files(
            tree.file_map(),
            target,
            index,
            store,
            worktree_scope(tree, target, filters, current),
            now,
        ),
        blobs_present(
            tree.file_map(),
            target,
            store,
            worktree_scope(tree, target, filters, current),
        ),
        content_addressed(target, store),
        files_are_no_dirs(tree),
    ensures
        blobs_present(
            after.file_map(),
            target,
            store,
            worktree_scope(after, target, filters, current),
        ),
        restored_files(
            after.file_map(),
            target,
            index,
            store,
            worktree_scope(after, target, filters, current),
            later,
        ) == after.file_map(),
{
    let left = after.file_map();
    let scope = worktree_scope(after, target, filters, current);
    let again = restored_files(left, target, index, store, scope, later);
    assert forall|p: PathView| scope(p) implies !rewrites(left, target, p) && (!target.contains_key(
        p,
    ) && after.has_file(p) ==> !index.contains_key(p)) by {
        lemma_restored_path(tree, after, target, index, store, filters, current, now, p);
    }
    assert forall|p: PathView| again.contains_key(p) == left.contains_key(p) by {
        if scope(p) {
            assert(!rewrites(left, target, p));
            assert(!target.contains_key(p) && after.has_file(p) ==> !index.contains_key(p));
        }
    }
    assert forall|p: PathView| again.contains_key(p) implies again[p] == left[p] by {
        if scope(p) {
            assert(!rewrites(left, target, p));
        }
    }
    assert(again =~= left);
}

/// Adds `path` to `out` unless it is there.
fn push_unique_path(out: &mut Vec<Path>, path: Path)
    requires
        path_seq(old(out)@).no_duplicates(),
    ensures
        path_seq(final(out)@).no_duplicates(),
        path_seq(final(out)@).to_set() == path_seq(old(out)@).to_set().insert(path@),
{
    let ghost before = path_seq(out@);
    let mut i: usize = 0;
    while i < out.len()
        invariant
            0 <= i <= out.len(),
            path_seq(out@) == before,
            before.no_duplicates(),
            forall|k: int| 0 <= k < i ==> before[k] != path@,
        decreases out.len() - i,
    {
        if out[i].same_as(&path) {
            assert(before[i as int] == path@);
            assert(before.to_set() =~= before.to_set().insert(path@));
            return ;
        }
        i += 1;
    }
    let ghost p = path@;
    out.push(path);
    assert(path_seq(out@) =~= before.push(p));
    proof {
        before.lemma_push_to_set_commute(p);
    }
}

} // verus!
