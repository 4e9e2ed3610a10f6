//! The add command: staging what has changed in the working directory.

use crate::blob::Blob;
use crate::hash::content_hash;
use crate::index::{
    hash_matches, possibly_modified, record_of, FileMetaData, FileMetaDataView, Index,
};
use crate::path::{
    all_canonical, all_resolve, canonical, canonical_is_fixed, path_seq, starts_with, Path,
    PathView,
};
use crate::repo::Repository;
use crate::status::{changes_to_be_staged, unstaged};
use crate::store::{saved, Store};
use crate::worktree::{is_inside_repo, repo_dir, WorkTree};
use vstd::prelude::*;

verus! {

/// What staging one file came to.
#[derive(Debug, Clone, Copy, PartialEq, Eq, Structural)]
pub enum AddOutcome {
    /// The path lies outside the working tree; nothing was staged.
    Outside,
    /// The path lies in the repository's own directory; nothing was staged.
    InsideRepo,
    /// The file is gone; its record was taken out.
    Removed,
    /// The file was not tracked; it is now.
    Added,
    /// The file's content has changed; its record was renewed.
    Modified,
    /// The record is up to date.
    Unchanged,
}

/// What staging the file at `key` comes to.
pub open spec fn stage_outcome(
    index: Map<PathView, FileMetaDataView>,
    tree: &WorkTree,
    key: PathView,
    work: PathView,
) -> AddOutcome {
    if !starts_with(key, work) {
        AddOutcome::Outside
    } else if (tree.has_file(key) || tree.is_dir(key)) && starts_with(key, repo_dir(work)) {
        AddOutcome::InsideRepo
    } else if !tree.has_file(key) {
        AddOutcome::Removed
    } else if !index.contains_key(key) {
        AddOutcome::Added
    } else if possibly_modified(index, tree, key) && !hash_matches(
        index,
        key,
        content_hash(tree.file_map()[key].content),
    ) {
        AddOutcome::Modified
    } else {
        AddOutcome::Unchanged
    }
}

/// The staging area after the file at `key` was staged.
pub open spec fn staged_one(
    index: Map<PathView, FileMetaDataView>,
    tree: &WorkTree,
    key: PathView,
    work: PathView,
) -> Map<PathView, FileMetaDataView> {
    match stage_outcome(index, tree, key, work) {
        AddOutcome::Removed => index.remove(key),
        AddOutcome::Added | AddOutcome::Modified => index.insert(
            key,
            record_of(content_hash(tree.file_map()[key].content), tree, key),
        ),
        _ => index,
    }
}

/// The store after the file at `key` was staged: the content of a file that
/// was looked into is saved.
pub open spec fn stored_one(
    store: Map<Seq<char>, Seq<char>>,
    index: Map<PathView, FileMetaDataView>,
    tree: &WorkTree,
    key: PathView,
    work: PathView,
) -> Map<Seq<char>, Seq<char>> {
    match stage_outcome(index, tree, key, work) {
        AddOutcome::Added | AddOutcome::Modified => saved(store, tree.file_map()[key].content),
        AddOutcome::Unchanged => if possibly_modified(index, tree, key) {
            saved(store, tree.file_map()[key].content)
        } else {
            store
        },
        _ => store,
    }
}

/// The staged paths after the file at `key` was staged: a path that leaves
/// is taken out, a new one goes last, and the others keep their order.
pub open spec fn paths_staged_one(
    paths: Seq<PathView>,
    index: Map<PathView, FileMetaDataView>,
    tree: &WorkTree,
    key: PathView,
    work: PathView,
) -> Seq<PathView> {
    match stage_outcome(index, tree, key, work) {
        AddOutcome::Removed => if index.contains_key(key) {
            paths.remove(paths.index_of(key))
        } else {
            paths
        },
        AddOutcome::Added => paths.push(key),
        _ => paths,
    }
}

/// The staged paths after the files at `keys` were staged one after the
/// other.
pub open spec fn paths_staged_all(
    paths: Seq<PathView>,
    index: Map<PathView, FileMetaDataView>,
    tree: &WorkTree,
    keys: Seq<PathView>,
    work: PathView,
) -> Seq<PathView>
    decreases keys.len(),
{
    if keys.len() == 0 {
        paths
    } else {
        paths_staged_one(
            paths_staged_all(paths, index, tree, keys.drop_last(), work),
            staged_all(index, tree, keys.drop_last(), work),
            tree,
            keys.last(),
            work,
        )
    }
}

/// The staging area after the files at `keys` were staged one after the
/// other.
pub open spec fn staged_all(
    index: Map<PathView, FileMetaDataView>,
    tree: &WorkTree,
    keys: Seq<PathView>,
    work: PathView,
) -> Map<PathView, FileMetaDataView>
    decreases keys.len(),
{
    if keys.len() == 0 {
        index
    } else {
        staged_one(staged_all(index, tree, keys.drop_last(), work), tree, keys.last(), work)
    }
}

/// The store after the files at `keys` were staged one after the other.
pub open spec fn stored_all(
    store: Map<Seq<char>, Seq<char>>,
    index: Map<PathView, FileMetaDataView>,
    tree: &WorkTree,
    keys: Seq<PathView>,
    work: PathView,
) -> Map<Seq<char>, Seq<char>>
    decreases keys.len(),
{
    if keys.len() == 0 {
        store
    } else {
        stored_one(
            stored_all(store, index, tree, keys.drop_last(), work),
            staged_all(index, tree, keys.drop_last(), work),
            tree,
            keys.last(),
            work,
        )
    }
}

/// The outcomes of staging the files at `keys` one after the other.
pub open spec fn stage_outcomes(
    index: Map<PathView, FileMetaDataView>,
    tree: &WorkTree,
    keys: Seq<PathView>,
    work: PathView,
) -> Seq<AddOutcome> {
    Seq::new(
        keys.len(),
        |k: int| stage_outcome(staged_all(index, tree, keys.take(k), work), tree, keys[k], work),
    )
}

/// Stages one file: a file that is gone leaves the staging area, a file
/// that is not tracked enters it, and a tracked file gets a new record where
/// its fingerprint and its content have changed. Paths outside the working
/// tree and in the repository's own directory are passed over.
pub fn add_a_file(file: &Path, index: &mut Index, tree: &WorkTree, store: &mut Store) -> (outcome:
    AddOutcome)
    requires
        old(index).wf(),
        tree.wf(),
        old(store).wf(),
        old(index).accepts(file@),
    ensures
        final(index).wf(),
        final(store).wf(),
        final(index).dirs@ == old(index).dirs@,
        outcome == stage_outcome(
            old(index)@,
            tree,
            old(index).key_of(file@),
            old(index).dirs@.work,
        ),
        final(index)@ == staged_one(
            old(index)@,
            tree,
            old(index).key_of(file@),
            old(index).dirs@.work,
        ),
        final(index).tracked_paths() == paths_staged_one(
            old(index).tracked_paths(),
            old(index)@,
            tree,
            old(index).key_of(file@),
            old(index).dirs@.work,
        ),
        final(store)@ == stored_one(
            old(store)@,
            old(index)@,
            tree,
            old(index).key_of(file@),
            old(index).dirs@.work,
        ),
{
    let key = index.preprocess(file);
    proof {
        canonical_is_fixed(key@, index.dirs@.current);
    }
    if !key.starts_with(&index.dirs.work) {
        return AddOutcome::Outside;
    }
    if is_inside_repo(&key, tree, &index.dirs) {
        return AddOutcome::InsideRepo;
    }
    let state = match tree.file(&key) {
        Some(state) => state,
        None => {
            index.remove(&key);
            return AddOutcome::Removed;
        },
    };
    if !index.contains(&key) {
        let blob = Blob::new(state.content.clone(), store);
        let meta = FileMetaData::new(&blob, &key, tree);
        index.add(key, meta);
        AddOutcome::Added
    } else if index.is_modified(&key, tree) {
        let blob = Blob::new(state.content.clone(), store);
        if !index.verify_hash(&key, &blob.hash) {
            let meta = FileMetaData::new(&blob, &key, tree);
            index.update(key, meta);
            AddOutcome::Modified
        } else {
            AddOutcome::Unchanged
        }
    } else {
        AddOutcome::Unchanged
    }
}

/// The paths that a call of `add` is about: those given, and the whole
/// working tree with `all` or `update`.
pub open spec fn add_paths(raw: Seq<PathView>, all: bool, update: bool, work: PathView) -> Seq<
    PathView,
> {
    if all || update {
        raw.push(work)
    } else {
        raw
    }
}

/// The files that a call of `add` stages, in order: the modified, the
/// deleted and, unless only tracked files are updated, the new ones among
/// the changes at or below the paths.
pub open spec fn add_keys(repo: &Repository, raw: Seq<PathView>, all: bool, update: bool) -> Seq<
    PathView,
> {
    let dirs = repo.index.dirs@;
    let changes = unstaged(&repo.index, &repo.tree).absolute(dirs.work).within(
        add_paths(raw, all, update, dirs.work),
        dirs.current,
    );
    changes.modified + changes.deleted + if update && !all {
        Seq::empty()
    } else {
        changes.new
    }
}

fn stage_each(
    files: &Vec<Path>,
    index: &mut Index,
    tree: &WorkTree,
    store: &mut Store,
    outcomes: &mut Vec<AddOutcome>,
)
    requires
        old(index).wf(),
        tree.wf(),
        old(store).wf(),
        all_canonical(path_seq(files@)),
    ensures
        final(index).wf(),
        final(store).wf(),
        final(index).dirs@ == old(index).dirs@,
        final(index)@ == staged_all(old(index)@, tree, path_seq(files@), old(index).dirs@.work),
        final(index).tracked_paths() == paths_staged_all(
            old(index).tracked_paths(),
            old(index)@,
            tree,
            path_seq(files@),
            old(index).dirs@.work,
        ),
        final(store)@ == stored_all(
            old(store)@,
            old(index)@,
            tree,
            path_seq(files@),
            old(index).dirs@.work,
        ),
        final(outcomes)@ == old(outcomes)@ + stage_outcomes(
            old(index)@,
            tree,
            path_seq(files@),
            old(index).dirs@.work,
        ),
{
    let ghost all = path_seq(files@);
    let ghost given = outcomes@;
    let ghost first = index@;
    let ghost first_paths = index.tracked_paths();
    let ghost held = store@;
    let ghost work = index.dirs@.work;
    let mut i: usize = 0;
    assert(all.take(0) =~= Seq::empty());
    while i < files.len()
        invariant
            0 <= i <= files.len(),
            index.wf(),
            tree.wf(),
            store.wf(),
            all == path_seq(files@),
            all_canonical(all),
            index.dirs@ == old(index).dirs@,
            work == index.dirs@.work,
            index@ == staged_all(first, tree, all.take(i as int), work),
            index.tracked_paths() == paths_staged_all(
                first_paths,
                first,
                tree,
                all.take(i as int),
                work,
            ),
            store@ == stored_all(held, first, tree, all.take(i as int), work),
            given == old(outcomes)@,
            outcomes@.len() == given.len() + i,
            forall|k: int|
                0 <= k < i ==> #[trigger] outcomes@[given.len() + k] == stage_outcome(
                    staged_all(first, tree, all.take(k), work),
                    tree,
                    all[k],
                    work,
                ),
            forall|k: int| 0 <= k < given.len() ==> outcomes@[k] == given[k],
        decreases files.len() - i,
    {
        proof {
            assert(all.take(i + 1).drop_last() =~= all.take(i as int));
            assert(all.take(i + 1).last() == files@[i as int]@);
            assert(canonical(all[i as int]));
            canonical_is_fixed(files@[i as int]@, index.dirs@.current);
        }
        let outcome = add_a_file(&files[i], index, tree, store);
        outcomes.push(outcome);
        i += 1;
    }
    assert(all.take(i as int) =~= all);
    let ghost wanted = given + stage_outcomes(first, tree, all, work);
    assert forall|k: int| 0 <= k < wanted.len() implies outcomes@[k] == wanted[k] by {
        if k >= given.len() {
            let at = k - given.len();
            assert(outcomes@[given.len() + at] == stage_outcomes(first, tree, all, work)[at]);
        }
    }
    assert(outcomes@ =~= wanted);
}

/// Stages the changes at or below the paths given: modified and deleted
/// files, and new files too unless `update` is set alone. With `all` or
/// `update` the whole working tree is looked at. The outcomes come in the
/// order in which the files were staged.
pub fn add(raw_paths: Vec<Path>, all: bool, update: bool, repo: &mut Repository) -> (outcomes:
    Vec<AddOutcome>)
    requires
        old(repo).wf(),
        all_resolve(path_seq(raw_paths@), old(repo).index.dirs@.current),
    ensures
        final(repo).wf(),
        final(repo).refs == old(repo).refs,
        final(repo).tree == old(repo).tree,
        final(repo).index.dirs@ == old(repo).index.dirs@,
        final(repo).index@ == staged_all(
            old(repo).index@,
            &old(repo).tree,
            add_keys(old(repo), path_seq(raw_paths@), all, update),
            old(repo).index.dirs@.work,
        ),
        final(repo).index.tracked_paths() == paths_staged_all(
            old(repo).index.tracked_paths(),
            old(repo).index@,
            &old(repo).tree,
            add_keys(old(repo), path_seq(raw_paths@), all, update),
            old(repo).index.dirs@.work,
        ),
        final(repo).store@ == stored_all(
            old(repo).store@,
            old(repo).index@,
            &old(repo).tree,
            add_keys(old(repo), path_seq(raw_paths@), all, update),
            old(repo).index.dirs@.work,
        ),
        outcomes@ == stage_outcomes(
            old(repo).index@,
            &old(repo).tree,
            add_keys(old(repo), path_seq(raw_paths@), all, update),
            old(repo).index.dirs@.work,
        ),
{
    let ghost raw = path_seq(raw_paths@);
    let ghost work = repo.index.dirs@.work;
    let ghost current = repo.index.dirs@.current;
    let mut paths = raw_paths;
    if all || update {
        paths.push(repo.index.dirs.work.clone());
        proof {
            assert(path_seq(paths@) =~= raw.push(work));
            canonical_is_fixed(work, current);
        }
    }
    assert(path_seq(paths@) == add_paths(raw, all, update, work));
    let changes = changes_to_be_staged(&repo.index, &repo.tree).filter_abs(
        &paths,
        &repo.index.dirs,
    );
    let ghost keys = add_keys(old(repo), raw, all, update);
    let ghost first = repo.index@;
    let ghost first_paths = repo.index.tracked_paths();
    let ghost held = repo.store@;
    let mut outcomes: Vec<AddOutcome> = Vec::new();
    stage_each(&changes.modified, &mut repo.index, &repo.tree, &mut repo.store, &mut outcomes);
    stage_each(&changes.deleted, &mut repo.index, &repo.tree, &mut repo.store, &mut outcomes);
    if !(update && !all) {
        stage_each(&changes.new, &mut repo.index, &repo.tree, &mut repo.store, &mut outcomes);
    }
    proof {
        let tree = &old(repo).tree;
        let tail = if update && !all {
            Seq::<PathView>::empty()
        } else {
            changes@.new
        };
        let a = changes@.modified;
        let b = changes@.deleted;
        lemma_staged_concat(first, held, tree, a, b, work);
        lemma_staged_concat(first, held, tree, a + b, tail, work);
        lemma_paths_concat(first_paths, first, tree, a, b, work);
        lemma_paths_concat(first_paths, first, tree, a + b, tail, work);
        lemma_outcomes_concat(first, tree, a, b, work);
        lemma_outcomes_concat(first, tree, a + b, tail, work);
        assert(stage_outcomes(first, tree, a, work) + stage_outcomes(
            staged_all(first, tree, a, work),
            tree,
            b,
            work,
        ) + stage_outcomes(staged_all(first, tree, a + b, work), tree, tail, work)
            == stage_outcomes(first, tree, a + b + tail, work));
        assert(Seq::<AddOutcome>::empty() + stage_outcomes(first, tree, a, work)
            =~= stage_outcomes(first, tree, a, work));
        if update && !all {
            assert(stage_outcomes(staged_all(first, tree, a + b, work), tree, tail, work)
                =~= Seq::<AddOutcome>::empty());
            assert(outcomes@ + Seq::<AddOutcome>::empty() =~= outcomes@);
        }
    }
    outcomes
}

/// The outcomes of staging two lists in a row are those of the first and,
/// after it, those of the second.
proof fn lemma_outcomes_concat(
    index: Map<PathView, FileMetaDataView>,
    tree: &WorkTree,
    a: Seq<PathView>,
    b: Seq<PathView>,
    work: PathView,
)
    ensures
        stage_outcomes(index, tree, a + b, work) == stage_outcomes(index, tree, a, work)
            + stage_outcomes(staged_all(index, tree, a, work), tree, b, work),
{
    let whole = stage_outcomes(index, tree, a + b, work);
    let parts = stage_outcomes(index, tree, a, work) + stage_outcomes(
        staged_all(index, tree, a, work),
        tree,
        b,
        work,
    );
    let store = Map::<Seq<char>, Seq<char>>::empty();
    assert forall|k: int| 0 <= k < whole.len() implies whole[k] == parts[k] by {
        if k < a.len() {
            assert((a + b).take(k) =~= a.take(k));
        } else {
            assert((a + b).take(k) =~= a + b.take(k - a.len()));
            lemma_staged_concat(index, store, tree, a, b.take(k - a.len()), work);
        }
    }
    assert(whole =~= parts);
}

/// The staged paths after two lists were staged in a row are those after
/// the second was staged after the first.
proof fn lemma_paths_concat(
    paths: Seq<PathView>,
    index: Map<PathView, FileMetaDataView>,
    tree: &WorkTree,
    a: Seq<PathView>,
    b: Seq<PathView>,
    work: PathView,
)
    ensures
        paths_staged_all(paths, index, tree, a + b, work) == paths_staged_all(
            paths_staged_all(paths, index, tree, a, work),
            staged_all(index, tree, a, work),
            tree,
            b,
            work,
        ),
    decreases b.len(),
{
    if b.len() == 0 {
        assert(a + b =~= a);
    } else {
        assert((a + b).drop_last() =~= a + b.drop_last());
        assert((a + b).last() == b.last());
        lemma_paths_concat(paths, index, tree, a, b.drop_last(), work);
        lemma_staged_concat(
            index,
            Map::<Seq<char>, Seq<char>>::empty(),
            tree,
            a,
            b.drop_last(),
            work,
        );
    }
}

/// Staging two lists in a row is staging the second after the first.
proof fn lemma_staged_concat(
    index: Map<PathView, FileMetaDataView>,
    store: Map<Seq<char>, Seq<char>>,
    tree: &WorkTree,
    a: Seq<PathView>,
    b: Seq<PathView>,
    work: PathView,
)
    ensures
        staged_all(index, tree, a + b, work) == staged_all(
            staged_all(index, tree, a, work),
            tree,
            b,
            work,
        ),
        stored_all(store, index, tree, a + b, work) == stored_all(
            stored_all(store, index, tree, a, work),
            staged_all(index, tree, a, work),
            tree,
            b,
            work,
        ),
    decreases b.len(),
{
    if b.len() == 0 {
        assert(a + b =~= a);
    } else {
        assert((a + b).drop_last() =~= a + b.drop_last());
        assert((a + b).last() == b.last());
        lemma_staged_concat(index, store, tree, a, b.drop_last(), work);
    }
}

} // verus!
