//! The restore command: choosing the snapshot to restore from, then
//! restoring the working directory, the staging area or both.

use crate::head::{branch_exists, current_head_commit, get_branch_head, head_commit};
use crate::index::{FileMetaDataView, Index};
use crate::object::{check_object_type, object_type, ObjectType};
use crate::path::{
    all_resolve, canonical, canonical_is_fixed, grounded, path_seq, plain_path_lands, Path,
    PathView,
};
use crate::repo::Repository;
use crate::restore::{
    blobs_present, restore_index, restore_worktree, restored_files, restored_index,
    restored_paths, target_map, target_paths, worktree_scope,
};
use crate::status::{commit_files, load_commit_files};
use crate::store::{search_result, Fatal};
use crate::tree::{blob_paths, blob_seq, flatten_paths_are_plain, TreeBlob, TreeBlobView};
use crate::worktree::{FileStateView, Timestamp};
use vstd::prelude::*;

verus! {

/// Why nothing was restored.
#[derive(Debug, Clone, Copy, PartialEq, Eq, Structural)]
pub enum RestoreErr {
    /// The source is no branch and no commit.
    InvalidObject,
    /// The source names a branch or `HEAD` without a commit.
    Unresolved,
    /// The repository is not in order.
    Broken(Fatal),
}

/// The commit that a source stands for. Without a source it is the commit
/// of `HEAD` where the staging area is restored, and none (the empty hash)
/// where only the working directory is. A source is `HEAD`, or the name of
/// a branch, or else the beginning of a commit's hash.
pub open spec fn source_commit(
    head: Seq<char>,
    branches: Map<Seq<char>, Seq<char>>,
    store: Map<Seq<char>, Seq<char>>,
    names: Seq<Seq<char>>,
    source: Option<Seq<char>>,
    staged: bool,
) -> Result<Seq<char>, RestoreErr> {
    match source {
        None => Ok(
            if staged {
                head_commit(head, branches)
            } else {
                Seq::empty()
            },
        ),
        Some(src) => if src == "HEAD"@ {
            Ok(head_commit(head, branches))
        } else if branches.contains_key(src) {
            Ok(branches[src])
        } else {
            match search_result(names, src) {
                None => Err(RestoreErr::InvalidObject),
                Some(hash) => if object_type(store, hash) != ObjectType::Commit {
                    Err(RestoreErr::InvalidObject)
                } else {
                    Ok(hash)
                },
            }
        },
    }
}

/// What is staged, as a snapshot with absolute paths.
pub open spec fn index_blobs(index: &Index) -> Seq<TreeBlobView> {
    Seq::new(
        index.entries.keys().len(),
        |i: int|
            TreeBlobView { path: index.entries.keys()[i], hash: index.entries.values()[i].hash },
    )
}

/// The snapshot to restore from: what is staged where neither a source nor
/// the staging area was asked for, else the files of the source's commit.
/// A source without a commit is an error; no source and no commit give the
/// empty snapshot.
pub open spec fn source_files(
    index: &Index,
    store: Map<Seq<char>, Seq<char>>,
    source_given: bool,
    staged: bool,
    commit: Seq<char>,
) -> Result<Seq<TreeBlobView>, RestoreErr> {
    if !source_given && !staged {
        Ok(index_blobs(index))
    } else if commit.len() == 0 {
        if source_given {
            Err(RestoreErr::Unresolved)
        } else {
            Ok(Seq::empty())
        }
    } else {
        match commit_files(store, commit) {
            Ok(files) => Ok(files),
            Err(e) => Err(RestoreErr::Broken(e)),
        }
    }
}

/// The snapshot that a call of `restore` restores from.
pub open spec fn restore_plan(repo: &Repository, source: Option<Seq<char>>, staged: bool)
    -> Result<Seq<TreeBlobView>, RestoreErr> {
    match source_commit(
        repo.refs.head@,
        repo.refs.branch_map(),
        repo.store@,
        repo.store.names(),
        source,
        staged,
    ) {
        Err(e) => Err(e),
        Ok(commit) => source_files(&repo.index, repo.store@, source.is_some(), staged, commit),
    }
}

/// The views of an optional text.
pub open spec fn text_view(text: Option<String>) -> Option<Seq<char>> {
    match text {
        Some(t) => Some(t@),
        None => None,
    }
}

fn staged_blobs(index: &Index) -> (blobs: Vec<TreeBlob>)
    requires
        index.wf(),
    ensures
        blob_seq(blobs@) == index_blobs(index),
        grounded(blob_paths(blob_seq(blobs@)), index.dirs@.work),
{
    let mut blobs: Vec<TreeBlob> = Vec::new();
    let mut i: usize = 0;
    while i < index.entries.entries.len()
        invariant
            0 <= i <= index.entries.entries.len(),
            blobs.len() == i,
            forall|k: int| 0 <= k < i ==> blobs@[k]@ == index_blobs(index)[k],
        decreases index.entries.entries.len() - i,
    {
        let entry = &index.entries.entries[i];
        blobs.push(TreeBlob { path: entry.key.clone(), hash: entry.value.hash.clone() });
        i += 1;
    }
    assert(blob_seq(blobs@) =~= index_blobs(index));
    proof {
        assert forall|k: int| 0 <= k < blobs.len() implies crate::path::resolves(
            #[trigger] blob_paths(blob_seq(blobs@))[k],
            index.dirs@.work,
        ) && canonical(
            crate::path::absolute_form(blob_paths(blob_seq(blobs@))[k], index.dirs@.work),
        ) by {
            assert(canonical(index.entries.keys()[k]));
            canonical_is_fixed(index.entries.keys()[k], index.dirs@.work);
        }
    }
    blobs
}

/// The files of a commit can be read from the working tree's root.
pub proof fn lemma_commit_files_grounded(
    store: Map<Seq<char>, Seq<char>>,
    commit: Seq<char>,
    work: PathView,
)
    requires
        commit_files(store, commit) is Ok,
        canonical(work),
    ensures
        grounded(blob_paths(commit_files(store, commit)->Ok_0), work),
{
    let read = crate::commit::read_commit(store, commit)->Ok_0;
    let entries = crate::tree::read_tree(store, read.tree)->Ok_0;
    flatten_paths_are_plain(store, entries, crate::tree::MAX_DEPTH as nat);
    let files = commit_files(store, commit)->Ok_0;
    assert forall|k: int| 0 <= k < files.len() implies crate::path::resolves(
        #[trigger] blob_paths(files)[k],
        work,
    ) && canonical(crate::path::absolute_form(blob_paths(files)[k], work)) by {
        assert(blob_paths(files)[k] == files[k].path);
        plain_path_lands(files[k].path, work);
    }
}

/// Restores `paths` from `source`: the working directory where `worktree`
/// is set, the staging area where `staged` is. In the staging area the paths
/// that stay keep their order, and those that become staged come after them. Where the source cannot be
/// made out, or the store lacks a content that the working directory needs,
/// nothing is changed.
pub fn restore(
    paths: &Vec<Path>,
    source: Option<String>,
    worktree: bool,
    staged: bool,
    repo: &mut Repository,
    now: Timestamp,
) -> (done: Result<(), RestoreErr>)
    requires
        old(repo).wf(),
        all_resolve(path_seq(paths@), old(repo).index.dirs@.current),
    ensures
        final(repo).wf(),
        final(repo).store == old(repo).store,
        final(repo).refs == old(repo).refs,
        final(repo).index.dirs@ == old(repo).index.dirs@,
        match restore_plan(old(repo), text_view(source), staged) {
            Err(e) => {
                &&& done == Err::<(), RestoreErr>(e)
                &&& final(repo).tree.file_map() == old(repo).tree.file_map()
                &&& final(repo).index@ == old(repo).index@
                &&& final(repo).index.tracked_paths() == old(repo).index.tracked_paths()
            },
            Ok(files) => {
                let target = target_map(files, old(repo).index.dirs@.work);
                let scope = worktree_scope(
                    &old(repo).tree,
                    target,
                    path_seq(paths@),
                    old(repo).index.dirs@.current,
                );
                if worktree && !blobs_present(
                    old(repo).tree.file_map(),
                    target,
                    old(repo).store@,
                    scope,
                ) {
                    &&& done == Err::<(), RestoreErr>(RestoreErr::Broken(Fatal::Missing))
                    &&& final(repo).tree.file_map() == old(repo).tree.file_map()
                    &&& final(repo).index@ == old(repo).index@
                    &&& final(repo).index.tracked_paths() == old(repo).index.tracked_paths()
                } else {
                    &&& done is Ok
                    &&& final(repo).tree.file_map() == if worktree {
                        restored_files(
                            old(repo).tree.file_map(),
                            target,
                            old(repo).index@,
                            old(repo).store@,
                            scope,
                            now,
                        )
                    } else {
                        old(repo).tree.file_map()
                    }
                    &&& final(repo).index@ == if staged {
                        restored_index(
                            old(repo).index@,
                            target,
                            path_seq(paths@),
                            old(repo).index.dirs@.current,
                            now,
                        )
                    } else {
                        old(repo).index@
                    }
                    &&& final(repo).index.tracked_paths() == if staged {
                        restored_paths(
                            old(repo).index.tracked_paths(),
                            old(repo).index@,
                            target,
                            target_paths(files, old(repo).index.dirs@.work),
                            path_seq(paths@),
                            old(repo).index.dirs@.current,
                        )
                    } else {
                        old(repo).index.tracked_paths()
                    }
                }
            },
        },
{
    let source_given = source.is_some();
    let commit = match source {
        None => {
            if staged {
                current_head_commit(&repo.refs)
            } else {
                String::new()
            }
        },
        Some(src) => {
            if src == String::from_str("HEAD") {
                current_head_commit(&repo.refs)
            } else if branch_exists(&repo.refs, &src) {
                get_branch_head(&repo.refs, &src)
            } else {
                match repo.store.search(&src) {
                    None => { return Err(RestoreErr::InvalidObject); },
                    Some(hash) => {
                        if check_object_type(&hash, &repo.store) != ObjectType::Commit {
                            return Err(RestoreErr::InvalidObject);
                        }
                        hash
                    },
                }
            }
        },
    };
    let blobs = if !source_given && !staged {
        staged_blobs(&repo.index)
    } else if commit.as_str().unicode_len() == 0 {
        if source_given {
            return Err(RestoreErr::Unresolved);
        }
        let none: Vec<TreeBlob> = Vec::new();
        assert(blob_seq(none@) =~= Seq::empty());
        assert(grounded(blob_paths(blob_seq(none@)), repo.index.dirs@.work));
        none
    } else {
        match load_commit_files(&commit, &repo.store) {
            Ok(files) => {
                proof {
                    lemma_commit_files_grounded(repo.store@, commit@, repo.index.dirs@.work);
                }
                files
            },
            Err(e) => { return Err(RestoreErr::Broken(e)); },
        }
    };
    if worktree {
        match restore_worktree(Some(paths), &blobs, &repo.store, &repo.index, &mut repo.tree, now) {
            Ok(_) => {},
            Err(e) => { return Err(RestoreErr::Broken(e)); },
        }
    }
    if staged {
        restore_index(Some(paths), &blobs, &mut repo.index, now);
    }
    Ok(())
}

} // verus!
