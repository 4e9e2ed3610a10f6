//! Switching to a branch or a commit: the working directory and the staging
//! area are brought in line first, `HEAD` moves last.

use crate::commands::branch::{branch, creation, BranchErr, BranchOutcome};
use crate::head::{
    branch_exists, branches_on_branch, change_head_to_branch, change_head_to_commit,
    get_branch_head, head_commit, head_on_branch,
};
use crate::object::{check_object_type, object_type, ObjectType};
use crate::path::canonical_is_fixed;
use crate::repo::Repository;
use crate::restore::{
    blobs_present, restore_index, restore_worktree, restored_files, restored_index,
    restored_paths, target_map, target_paths, worktree_scope,
};
use crate::commands::restore::lemma_commit_files_grounded;
use crate::status::{
    changes_to_be_committed, changes_to_be_staged, commit_files, load_commit_files,
    staged_against, unstaged,
};
use crate::store::{search_result, Fatal};
use crate::worktree::Timestamp;
use vstd::prelude::*;

verus! {

/// Why a switch did not happen.
#[derive(Debug, Clone, Copy, PartialEq, Eq, Structural)]
pub enum SwitchErr {
    /// There are changes that are not staged or not committed.
    NoClean,
    /// There is no branch of that name.
    InvalidBranch,
    /// What was named is no commit.
    InvalidObject,
    /// The repository is not in order.
    Broken(Fatal),
}

/// Nothing that a command can change has changed.
pub open spec fn same_state(before: &Repository, after: &Repository) -> bool {
    &&& after.store@ == before.store@
    &&& after.store.names() == before.store.names()
    &&& after.refs.head@ == before.refs.head@
    &&& after.refs.branch_map() == before.refs.branch_map()
    &&& after.index@ == before.index@
    &&& after.index.tracked_paths() == before.index.tracked_paths()
    &&& after.tree.file_map() == before.tree.file_map()
}

/// Whether the commit `commit` can be checked out: its snapshot can be
/// read, and the store holds every content that has to be written.
pub open spec fn checkout_result(before: &Repository, commit: Seq<char>) -> Result<(), Fatal> {
    let work = before.index.dirs@.work;
    let current = before.index.dirs@.current;
    match commit_files(before.store@, commit) {
        Err(e) => Err(e),
        Ok(files) => if !blobs_present(
            before.tree.file_map(),
            target_map(files, work),
            before.store@,
            worktree_scope(&before.tree, target_map(files, work), seq![work], current),
        ) {
            Err(Fatal::Missing)
        } else {
            Ok(())
        },
    }
}

/// The state after the commit `commit` was checked out: the whole working
/// tree and the staging area are in line with the commit's snapshot; in the
/// staging area the paths that stay keep their order, and those that become
/// staged come after them. Where the commit cannot be checked out, nothing
/// has changed.
pub open spec fn checked_out(
    before: &Repository,
    after: &Repository,
    commit: Seq<char>,
    now: Timestamp,
) -> bool {
    let work = before.index.dirs@.work;
    let current = before.index.dirs@.current;
    if checkout_result(before, commit) is Err {
        &&& after.tree.file_map() == before.tree.file_map()
        &&& after.index@ == before.index@
        &&& after.index.tracked_paths() == before.index.tracked_paths()
    } else {
        let target = target_map(commit_files(before.store@, commit)->Ok_0, work);
        &&& after.tree.file_map() == restored_files(
            before.tree.file_map(),
            target,
            before.index@,
            before.store@,
            worktree_scope(&before.tree, target, seq![work], current),
            now,
        )
        &&& after.index@ == restored_index(before.index@, target, seq![work], current, now)
        &&& after.index.tracked_paths() == restored_paths(
            before.index.tracked_paths(),
            before.index@,
            target,
            target_paths(commit_files(before.store@, commit)->Ok_0, work),
            seq![work],
            current,
        )
    }
}

/// Brings the whole working tree and the staging area in line with the
/// snapshot of a commit. `HEAD` is not moved.
pub fn switch_to_commit(commit_hash: &String, repo: &mut Repository, now: Timestamp) -> (done:
    Result<(), Fatal>)
    requires
        old(repo).wf(),
    ensures
        final(repo).wf(),
        final(repo).store == old(repo).store,
        final(repo).refs == old(repo).refs,
        final(repo).index.dirs@ == old(repo).index.dirs@,
        done == checkout_result(old(repo), commit_hash@),
        checked_out(old(repo), final(repo), commit_hash@, now),
{
    let files = match load_commit_files(commit_hash, &repo.store) {
        Ok(files) => files,
        Err(e) => { return Err(e); },
    };
    proof {
        lemma_commit_files_grounded(repo.store@, commit_hash@, repo.index.dirs@.work);
        canonical_is_fixed(repo.index.dirs@.work, repo.index.dirs@.current);
    }
    match restore_worktree(None, &files, &repo.store, &repo.index, &mut repo.tree, now) {
        Ok(_) => {},
        Err(e) => { return Err(e); },
    }
    restore_index(None, &files, &mut repo.index, now);
    Ok(())
}

/// Whether nothing is left to stage and nothing to commit.
pub open spec fn clean(repo: &Repository) -> Result<bool, Fatal> {
    if !unstaged(&repo.index, &repo.tree).is_empty() {
        Ok(false)
    } else {
        match staged_against(
            &repo.index,
            head_commit(repo.refs.head@, repo.refs.branch_map()),
            repo.store@,
        ) {
            Err(e) => Err(e),
            Ok(changes) => Ok(changes.is_empty()),
        }
    }
}

/// Whether nothing is left to stage and nothing to commit.
pub fn is_clean(repo: &Repository) -> (yes: Result<bool, Fatal>)
    requires
        repo.wf(),
    ensures
        yes == clean(repo),
{
    if !changes_to_be_staged(&repo.index, &repo.tree).is_empty() {
        return Ok(false);
    }
    match changes_to_be_committed(&repo.index, &repo.refs, &repo.store) {
        Ok(changes) => Ok(changes.is_empty()),
        Err(e) => Err(e),
    }
}

/// The commit to switch to: the branch's where `name` is a branch, else,
/// where a detached `HEAD` is allowed, the one commit whose hash begins
/// with `name`.
pub open spec fn switch_target(repo: &Repository, name: Seq<char>, detach: bool) -> Result<
    Seq<char>,
    SwitchErr,
> {
    if repo.refs.branch_map().contains_key(name) {
        Ok(repo.refs.branch_map()[name])
    } else if detach {
        match search_result(repo.store.names(), name) {
            None => Err(SwitchErr::InvalidObject),
            Some(hash) => if object_type(repo.store@, hash) != ObjectType::Commit {
                Err(SwitchErr::InvalidObject)
            } else {
                Ok(hash)
            },
        }
    } else {
        Err(SwitchErr::InvalidBranch)
    }
}

/// The outcome of a switch to `name`. Nothing happens unless the repository
/// is clean and `name` can be made out; then the commit is checked out, and
/// only when that is done `HEAD` moves: onto the branch, or onto the commit.
pub open spec fn switched(
    before: &Repository,
    after: &Repository,
    name: Seq<char>,
    detach: bool,
    now: Timestamp,
    done: Result<(), SwitchErr>,
) -> bool {
    match clean(before) {
        Err(e) => done == Err::<(), SwitchErr>(SwitchErr::Broken(e)) && same_state(before, after),
        Ok(is_clean) => if !is_clean {
            done == Err::<(), SwitchErr>(SwitchErr::NoClean) && same_state(before, after)
        } else {
            match switch_target(before, name, detach) {
                Err(e) => done == Err::<(), SwitchErr>(e) && same_state(before, after),
                Ok(commit) => {
                    &&& after.store@ == before.store@
                    &&& after.store.names() == before.store.names()
                    &&& checked_out(before, after, commit, now)
                    &&& match checkout_result(before, commit) {
                        Err(e) => {
                            &&& done == Err::<(), SwitchErr>(SwitchErr::Broken(e))
                            &&& after.refs.head@ == before.refs.head@
                            &&& after.refs.branch_map() == before.refs.branch_map()
                        },
                        Ok(_) => {
                            &&& done is Ok
                            &&& after.refs.head@ == if before.refs.branch_map().contains_key(name) {
                                head_on_branch(before.refs.branch_map(), name)
                            } else {
                                commit
                            }
                            &&& after.refs.branch_map() == if before.refs.branch_map().contains_key(
                                name,
                            ) {
                                branches_on_branch(before.refs.branch_map(), name)
                            } else {
                                before.refs.branch_map()
                            }
                        },
                    }
                },
            }
        },
    }
}

/// Switches to the branch `branch`, or, where `detach` is set and there is
/// no such branch, to the commit whose hash begins with it.
pub fn switch_to(branch: &String, detach: bool, repo: &mut Repository, now: Timestamp) -> (done:
    Result<(), SwitchErr>)
    requires
        old(repo).wf(),
    ensures
        final(repo).wf(),
        final(repo).index.dirs@ == old(repo).index.dirs@,
        switched(old(repo), final(repo), branch@, detach, now, done),
{
    match is_clean(repo) {
        Err(e) => { return Err(SwitchErr::Broken(e)); },
        Ok(yes) => {
            if !yes {
                return Err(SwitchErr::NoClean);
            }
        },
    }
    if branch_exists(&repo.refs, branch) {
        let commit = get_branch_head(&repo.refs, branch);
        let checkout = switch_to_commit(&commit, repo, now);
        match checkout {
            Ok(_) => {
                change_head_to_branch(&mut repo.refs, branch);
                Ok(())
            },
            Err(e) => {
                Err(SwitchErr::Broken(e))
            },
        }
    } else if detach {
        let commit = match repo.store.search(branch) {
            Some(commit) => commit,
            None => { return Err(SwitchErr::InvalidObject); },
        };
        if check_object_type(&commit, &repo.store) != ObjectType::Commit {
            return Err(SwitchErr::InvalidObject);
        }
        let checkout = switch_to_commit(&commit, repo, now);
        match checkout {
            Ok(_) => {
                change_head_to_commit(&mut repo.refs, &commit);
                Ok(())
            },
            Err(e) => {
                Err(SwitchErr::Broken(e))
            },
        }
    } else {
        Err(SwitchErr::InvalidBranch)
    }
}

/// The step from `before` to `middle` is the making of the branch `name` at
/// `base` (at the commit of `HEAD` where no base is given), with the
/// outcome `made`. Only the branches can have changed.
pub open spec fn branch_made(
    before: &Repository,
    middle: &Repository,
    name: Seq<char>,
    base: Option<Seq<char>>,
    made: Result<(), BranchErr>,
) -> bool {
    let start = match base {
        Some(hash) => hash,
        None => head_commit(before.refs.head@, before.refs.branch_map()),
    };
    &&& middle.store == before.store
    &&& middle.index == before.index
    &&& middle.tree == before.tree
    &&& middle.refs.head@ == before.refs.head@
    &&& match creation(
        before.refs.branch_map(),
        before.store@,
        before.store.names(),
        name,
        start,
    ) {
        Ok(hash) => made is Ok && middle.refs.branch_map() == before.refs.branch_map().insert(
            name,
            hash,
        ),
        Err(e) => made == Err::<(), BranchErr>(e) && middle.refs.branch_map()
            == before.refs.branch_map(),
    }
}

/// The views of an optional text.
pub open spec fn option_view(text: Option<String>) -> Option<Seq<char>> {
    match text {
        Some(t) => Some(t@),
        None => None,
    }
}

/// The switch command. With `create`, a branch of that name is made at
/// `target_branch` (at the commit of `HEAD` where none is given) and then
/// switched to, whether or not it could be made; how the making went is
/// returned with the outcome of the switch. Without `create`,
/// `target_branch` is switched to and has to be given.
pub fn switch(
    target_branch: Option<String>,
    create: Option<String>,
    detach: bool,
    repo: &mut Repository,
    now: Timestamp,
) -> (done: (Option<BranchOutcome>, Result<(), SwitchErr>))
    requires
        old(repo).wf(),
        create.is_some() || target_branch.is_some(),
    ensures
        final(repo).wf(),
        final(repo).index.dirs@ == old(repo).index.dirs@,
        create.is_none() ==> done.0.is_none() && switched(
            old(repo),
            final(repo),
            target_branch.unwrap()@,
            detach,
            now,
            done.1,
        ),
        create.is_some() ==> done.0 is Some && done.0.unwrap() is Created && exists|
            middle: Repository,
        |
            branch_made(
                old(repo),
                &middle,
                create.unwrap()@,
                option_view(target_branch),
                done.0.unwrap()->Created_0,
            ) && #[trigger] switched(&middle, final(repo), create.unwrap()@, true, now, done.1),
{
    match create {
        Some(new_branch) => {
            let made = branch(
                Some(new_branch.clone()),
                target_branch,
                false,
                None,
                false,
                &mut repo.refs,
                &repo.store,
            );
            let ghost middle = *repo;
            let done = switch_to(&new_branch, true, repo, now);
            proof {
                assert(made is Created);
                assert(branch_made(
                    old(repo),
                    &middle,
                    new_branch@,
                    option_view(target_branch),
                    made->Created_0,
                ));
                assert(switched(&middle, repo, new_branch@, true, now, done));
            }
            let both = (Some(made), done);
            proof {
                assert(both.0.unwrap()->Created_0 == made->Created_0);
                assert(create.unwrap()@ == new_branch@);
                assert(branch_made(
                    old(repo),
                    &middle,
                    create.unwrap()@,
                    option_view(target_branch),
                    both.0.unwrap()->Created_0,
                ) && switched(&middle, repo, create.unwrap()@, true, now, both.1));
            }
            both
        },
        None => {
            let name = match target_branch {
                Some(name) => name,
                None => String::new(),
            };
            (None, switch_to(&name, detach, repo, now))
        },
    }
}

} // verus!
