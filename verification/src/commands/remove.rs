//! The rm command: taking files out of the staging area, and out of the
//! working directory unless they are to stay there.

use crate::index::{FileMetaDataView, Index};
use crate::path::{all_canonicalizable, canonical, canonical_is_fixed, path_seq, Path, PathView};
use crate::repo::Repository;
use crate::worktree::{below, listed, without_tree, FileStateView, WorkTree};
use vstd::prelude::*;

verus! {

/// What removing one path came to.
#[derive(Debug, Clone, Copy, PartialEq, Eq, Structural)]
pub enum RemoveOutcome {
    /// Nothing is at the path.
    NotExist,
    /// The path is not tracked; untracked files are not removed.
    NotTracked,
    /// The path is a directory, and removing directories was not asked for.
    NeedsRecursive,
    Removed,
}

/// What removing the path `key` comes to.
pub open spec fn remove_outcome(
    index: Map<PathView, FileMetaDataView>,
    tree: &WorkTree,
    key: PathView,
    recursive: bool,
) -> RemoveOutcome {
    if !tree.has_file(key) && !tree.is_dir(key) {
        RemoveOutcome::NotExist
    } else if !index.contains_key(key) {
        RemoveOutcome::NotTracked
    } else if tree.is_dir(key) && !recursive {
        RemoveOutcome::NeedsRecursive
    } else {
        RemoveOutcome::Removed
    }
}

/// The staging area without the files that a listing of `dir` reaches.
pub open spec fn without_listed(
    index: Map<PathView, FileMetaDataView>,
    tree: &WorkTree,
    dir: PathView,
) -> Map<PathView, FileMetaDataView> {
    Map::new(
        |p: PathView| index.contains_key(p) && !(tree.has_file(p) && listed(p, dir)),
        |p: PathView| index[p],
    )
}

/// The staging area after the path `key` was removed.
pub open spec fn index_without(
    index: Map<PathView, FileMetaDataView>,
    tree: &WorkTree,
    key: PathView,
    recursive: bool,
) -> Map<PathView, FileMetaDataView> {
    if remove_outcome(index, tree, key, recursive) != RemoveOutcome::Removed {
        index
    } else if tree.is_dir(key) {
        without_listed(index, tree, key)
    } else {
        index.remove(key)
    }
}

/// The path is no file that a listing of `dir` reaches.
pub open spec fn is_unlisted(tree: &WorkTree, dir: PathView) -> spec_fn(PathView) -> bool {
    |p: PathView| !(tree.has_file(p) && listed(p, dir))
}

/// The path is none of `done`.
pub open spec fn is_left(done: Seq<PathView>) -> spec_fn(PathView) -> bool {
    |p: PathView| !done.contains(p)
}

/// The staged paths after the path `key` was removed: the others, in their
/// order.
pub open spec fn paths_without(
    paths: Seq<PathView>,
    index: Map<PathView, FileMetaDataView>,
    tree: &WorkTree,
    key: PathView,
    recursive: bool,
) -> Seq<PathView> {
    if remove_outcome(index, tree, key, recursive) != RemoveOutcome::Removed {
        paths
    } else if tree.is_dir(key) {
        paths.filter(is_unlisted(tree, key))
    } else {
        paths.remove(paths.index_of(key))
    }
}

/// The files after the path `key` was removed.
pub open spec fn files_without(
    index: Map<PathView, FileMetaDataView>,
    tree: &WorkTree,
    key: PathView,
    cached: bool,
    recursive: bool,
) -> Map<PathView, FileStateView> {
    if cached || remove_outcome(index, tree, key, recursive) != RemoveOutcome::Removed {
        tree.file_map()
    } else if tree.is_dir(key) {
        without_tree(tree.file_map(), key)
    } else {
        tree.file_map().remove(key)
    }
}

/// Removes one tracked path from the staging area, and from the working
/// directory unless `cached` is set. A directory is removed, with all that
/// is below it, only where `recursive` is set; of the staging area it takes
/// the files that a listing of it reaches.
pub fn remove_one(file: &Path, cached: bool, recursive: bool, repo: &mut Repository) -> (outcome:
    RemoveOutcome)
    requires
        old(repo).wf(),
        old(repo).index.accepts(file@),
    ensures
        final(repo).wf(),
        final(repo).store == old(repo).store,
        final(repo).refs == old(repo).refs,
        final(repo).index.dirs@ == old(repo).index.dirs@,
        outcome == remove_outcome(
            old(repo).index@,
            &old(repo).tree,
            old(repo).index.key_of(file@),
            recursive,
        ),
        final(repo).index@ == index_without(
            old(repo).index@,
            &old(repo).tree,
            old(repo).index.key_of(file@),
            recursive,
        ),
        final(repo).index.tracked_paths() == paths_without(
            old(repo).index.tracked_paths(),
            old(repo).index@,
            &old(repo).tree,
            old(repo).index.key_of(file@),
            recursive,
        ),
        final(repo).tree.file_map() == files_without(
            old(repo).index@,
            &old(repo).tree,
            old(repo).index.key_of(file@),
            cached,
            recursive,
        ),
{
    let key = repo.index.preprocess(file);
    proof {
        canonical_is_fixed(key@, repo.index.dirs@.current);
    }
    let is_dir = repo.tree.dir_exists(&key);
    if !repo.tree.file_exists(&key) && !is_dir {
        return RemoveOutcome::NotExist;
    }
    if !repo.index.contains(&key) {
        return RemoveOutcome::NotTracked;
    }
    if is_dir && !recursive {
        return RemoveOutcome::NeedsRecursive;
    }
    if is_dir {
        let files = repo.tree.list_files(&key);
        let ghost first = repo.index@;
        let ghost first_paths = repo.index.tracked_paths();
        let ghost all = path_seq(files@);
        let mut i: usize = 0;
        proof {
            let pred = |f: PathView| listed(f, key@);
            let good = |p: PathView| canonical(p);
            crate::path::lemma_filter_keeps(repo.tree.files.keys(), pred, good);
            crate::path::lemma_filter_no_duplicates(repo.tree.files.keys(), pred);
            assert(all.take(0) =~= Seq::empty());
            crate::path::lemma_filter_all(first_paths, is_left(all.take(0)));
            assert(repo.index@ =~= Map::new(
                |p: PathView| first.contains_key(p) && !all.take(0).contains(p),
                |p: PathView| first[p],
            ));
        }
        while i < files.len()
            invariant
                0 <= i <= files.len(),
                repo.wf(),
                repo.store == old(repo).store,
                repo.refs == old(repo).refs,
                repo.tree == old(repo).tree,
                repo.index.dirs@ == old(repo).index.dirs@,
                all == path_seq(files@),
                crate::path::all_canonical(all),
                all.no_duplicates(),
                first == old(repo).index@,
                first_paths == old(repo).index.tracked_paths(),
                repo.index@ == Map::new(
                    |p: PathView| first.contains_key(p) && !all.take(i as int).contains(p),
                    |p: PathView| first[p],
                ),
                repo.index.tracked_paths() == first_paths.filter(is_left(all.take(i as int))),
            decreases files.len() - i,
        {
            let ghost done = all.take(i as int);
            let ghost more = all.take(i + 1);
            let ghost before = repo.index;
            let ghost keys = repo.index.tracked_paths();
            proof {
                assert(canonical(all[i as int]));
                canonical_is_fixed(all[i as int], repo.index.dirs@.current);
                assert(more =~= done.push(all[i as int]));
                assert forall|p: PathView| more.contains(p) <==> (done.contains(p) || p
                    == all[i as int]) by {
                    if done.contains(p) {
                        let k = choose|k: int| 0 <= k < done.len() && done[k] == p;
                        assert(more[k] == p);
                    }
                    if p == all[i as int] {
                        assert(more[i as int] == p);
                    }
                }
            }
            repo.index.remove(&files[i]);
            assert(repo.index@ =~= Map::new(
                |p: PathView| first.contains_key(p) && !more.contains(p),
                |p: PathView| first[p],
            ));
            proof {
                let q = all[i as int];
                assert(!done.contains(q)) by {
                    if done.contains(q) {
                        let k = choose|k: int| 0 <= k < done.len() && done[k] == q;
                        assert(all[k] == q);
                    }
                }
                if before@.contains_key(q) {
                    let j = keys.index_of(q);
                    assert(keys.contains(q));
                    crate::path::lemma_remove_is_filter(keys, j);
                    crate::path::lemma_filter_twice(first_paths, is_left(done), crate::path::is_not(q));
                    assert forall|k: int| 0 <= k < first_paths.len() implies crate::path::both(
                        is_left(done),
                        crate::path::is_not(q),
                    )(#[trigger] first_paths[k]) == is_left(more)(first_paths[k]) by {}
                    crate::path::lemma_filter_agree(
                        first_paths,
                        crate::path::both(is_left(done), crate::path::is_not(q)),
                        is_left(more),
                    );
                } else {
                    assert forall|k: int| 0 <= k < first_paths.len() implies is_left(done)(
                        #[trigger] first_paths[k],
                    ) == is_left(more)(first_paths[k]) by {
                        assert(first_paths.contains(first_paths[k]));
                        assert(first.contains_key(first_paths[k]));
                    }
                    crate::path::lemma_filter_agree(first_paths, is_left(done), is_left(more));
                }
            }
            i += 1;
        }
        proof {
            assert(all.take(i as int) =~= all);
            let pred = |f: PathView| listed(f, key@);
            assert forall|p: PathView| all.contains(p) <==> (old(repo).tree.has_file(p) && listed(
                p,
                key@,
            )) by {
                if all.contains(p) {
                    old(repo).tree.files.keys().lemma_filter_contains_rev(pred, p);
                }
                if old(repo).tree.has_file(p) && listed(p, key@) {
                    let k = old(repo).tree.files.lemma_key_index(p);
                    old(repo).tree.files.keys().lemma_filter_contains(pred, k);
                }
            }
            assert(repo.index@ =~= without_listed(first, &old(repo).tree, key@));
            assert forall|k: int| 0 <= k < first_paths.len() implies is_left(all)(
                #[trigger] first_paths[k],
            ) == is_unlisted(&old(repo).tree, key@)(first_paths[k]) by {}
            crate::path::lemma_filter_agree(
                first_paths,
                is_left(all),
                is_unlisted(&old(repo).tree, key@),
            );
        }
        if !cached {
            repo.tree.remove_dir_all(&key);
        }
    } else {
        repo.index.remove(&key);
        if !cached {
            repo.tree.remove_file(&key);
        }
    }
    RemoveOutcome::Removed
}

/// The step from `middle` to `after` is the removal of the path `key`, with
/// the outcome `outcome`.
pub open spec fn removed_step(
    middle: &Repository,
    after: &Repository,
    key: PathView,
    cached: bool,
    recursive: bool,
    outcome: RemoveOutcome,
) -> bool {
    &&& outcome == remove_outcome(middle.index@, &middle.tree, key, recursive)
    &&& after.index@ == index_without(middle.index@, &middle.tree, key, recursive)
    &&& after.index.tracked_paths() == paths_without(
        middle.index.tracked_paths(),
        middle.index@,
        &middle.tree,
        key,
        recursive,
    )
    &&& after.tree.file_map() == files_without(
        middle.index@,
        &middle.tree,
        key,
        cached,
        recursive,
    )
}

/// The state after the paths `files` were removed one after the other, with
/// the outcome of each.
pub open spec fn removed_all(
    before: &Repository,
    after: &Repository,
    files: Seq<PathView>,
    cached: bool,
    recursive: bool,
    outcomes: Seq<RemoveOutcome>,
) -> bool
    decreases files.len(),
{
    if files.len() == 0 {
        &&& outcomes.len() == 0
        &&& after.index@ == before.index@
        &&& after.index.tracked_paths() == before.index.tracked_paths()
        &&& after.tree.file_map() == before.tree.file_map()
    } else {
        &&& outcomes.len() == files.len()
        &&& exists|middle: Repository|
            removed_all(
                before,
                &middle,
                files.drop_last(),
                cached,
                recursive,
                outcomes.drop_last(),
            ) && #[trigger] removed_step(
                &middle,
                after,
                before.index.key_of(files.last()),
                cached,
                recursive,
                outcomes.last(),
            )
    }
}

/// The rm command: removes each of `files` in turn, see `remove_one`.
pub fn remove(files: &Vec<Path>, cached: bool, recursive: bool, repo: &mut Repository) -> (outcomes:
    Vec<RemoveOutcome>)
    requires
        old(repo).wf(),
        all_canonicalizable(path_seq(files@), old(repo).index.dirs@.current),
    ensures
        final(repo).wf(),
        final(repo).store == old(repo).store,
        final(repo).refs == old(repo).refs,
        final(repo).index.dirs@ == old(repo).index.dirs@,
        removed_all(old(repo), final(repo), path_seq(files@), cached, recursive, outcomes@),
{
    let ghost all = path_seq(files@);
    let mut outcomes: Vec<RemoveOutcome> = Vec::new();
    let mut i: usize = 0;
    assert(all.take(0) =~= Seq::empty());
    while i < files.len()
        invariant
            0 <= i <= files.len(),
            repo.wf(),
            repo.store == old(repo).store,
            repo.refs == old(repo).refs,
            repo.index.dirs@ == old(repo).index.dirs@,
            all == path_seq(files@),
            all_canonicalizable(all, old(repo).index.dirs@.current),
            removed_all(old(repo), repo, all.take(i as int), cached, recursive, outcomes@),
        decreases files.len() - i,
    {
        let ghost middle = *repo;
        let ghost so_far = outcomes@;
        assert(crate::path::canonicalizable(all[i as int], repo.index.dirs@.current));
        let outcome = remove_one(&files[i], cached, recursive, repo);
        outcomes.push(outcome);
        proof {
            assert(all.take(i + 1).drop_last() =~= all.take(i as int));
            assert(all.take(i + 1).last() == all[i as int]);
            assert(outcomes@.drop_last() =~= so_far);
            assert(removed_all(
                old(repo),
                &middle,
                all.take(i + 1).drop_last(),
                cached,
                recursive,
                outcomes@.drop_last(),
            ));
            let key = old(repo).index.key_of(all.take(i + 1).last());
            assert(key == middle.index.key_of(files@[i as int]@));
            assert(removed_step(&middle, repo, key, cached, recursive, outcomes@.last()));
            assert(outcomes@.len() == all.take(i + 1).len());
            assert(removed_all(
                old(repo),
                repo,
                all.take(i + 1),
                cached,
                recursive,
                outcomes@,
            ));
        }
        i += 1;
    }
    assert(all.take(i as int) =~= all);
    outcomes
}

} // verus!
