//! Merging by fast-forward: moving to a commit that has the current one
//! among its ancestors.

use crate::commands::switch::{
    checked_out, checkout_result, clean, is_clean, same_state, switch_to, switch_to_commit,
    switched, SwitchErr,
};
use crate::commit::{read_commit, Commit, CommitView};
use crate::head::{
    branch_exists, current_head, current_head_commit, get_branch_head, head_commit, parse_head,
    update_branch, Head, HeadView,
};
use crate::object::{check_object_type, object_type, ObjectType};
use crate::path::text_seq;
use crate::repo::Repository;
use crate::store::{search_result, Fatal, Store};
use crate::worktree::Timestamp;
use vstd::prelude::*;

verus! {

/// Why a merge did not happen.
#[derive(Debug, Clone, Copy, PartialEq, Eq, Structural)]
pub enum MergeErr {
    /// The current commit is no ancestor of the one to merge.
    NoFastForward,
    /// There are changes that are not staged or not committed.
    NoClean,
    /// What was named is no branch and no commit.
    InvalidObject,
    /// The repository is not in order.
    Broken(Fatal),
}

/// Whether `current` is `target` or one of its ancestors, found by following
/// the parents depth first. Chains longer than `depth` are taken for a
/// circle, and a commit on the way that cannot be read fails the search.
pub open spec fn is_ancestor(
    store: Map<Seq<char>, Seq<char>>,
    current: Seq<char>,
    target: Seq<char>,
    depth: nat,
) -> Result<bool, Fatal>
    decreases depth, 0nat,
{
    match read_commit(store, target) {
        Err(e) => Err(e),
        Ok(commit) => if current == target {
            Ok(true)
        } else if depth == 0 {
            Err(Fatal::Cyclic)
        } else {
            is_ancestor_of_any(store, current, commit.parent, (depth - 1) as nat)
        },
    }
}

/// Whether `current` is one of `targets` or an ancestor of one, trying them
/// in order.
pub open spec fn is_ancestor_of_any(
    store: Map<Seq<char>, Seq<char>>,
    current: Seq<char>,
    targets: Seq<Seq<char>>,
    depth: nat,
) -> Result<bool, Fatal>
    decreases depth, 1 + targets.len(),
{
    if targets.len() == 0 {
        Ok(false)
    } else {
        match is_ancestor(store, current, targets[0], depth) {
            Err(e) => Err(e),
            Ok(found) => if found {
                Ok(true)
            } else {
                is_ancestor_of_any(store, current, targets.drop_first(), depth)
            },
        }
    }
}

/// What the check for a fast-forward comes to.
pub open spec fn fast_forward(
    store: Map<Seq<char>, Seq<char>>,
    current: Seq<char>,
    target: Seq<char>,
    depth: nat,
) -> Result<bool, MergeErr> {
    match is_ancestor(store, current, target, depth) {
        Ok(found) => if found {
            Ok(true)
        } else {
            Err(MergeErr::NoFastForward)
        },
        Err(e) => Err(MergeErr::Broken(e)),
    }
}

fn search_ancestor(current: &String, target: &String, store: &Store, depth: usize) -> (found:
    Result<bool, Fatal>)
    requires
        store.wf(),
    ensures
        found == is_ancestor(store@, current@, target@, depth as nat),
    decreases depth, 0nat,
{
    let commit = match Commit::load(target, store) {
        Ok(commit) => commit,
        Err(e) => { return Err(e); },
    };
    if *current == *target {
        return Ok(true);
    }
    if depth == 0 {
        return Err(Fatal::Cyclic);
    }
    let ghost parents = commit@.parent;
    let mut i: usize = 0;
    assert(parents.skip(0) =~= parents);
    while i < commit.parent.len()
        invariant
            0 <= i <= commit.parent.len(),
            store.wf(),
            depth > 0,
            current@ != target@,
            read_commit(store@, target@) == Ok::<CommitView, Fatal>(commit@),
            parents == text_seq(commit.parent@),
            parents == commit@.parent,
            is_ancestor_of_any(store@, current@, parents, (depth - 1) as nat)
                == is_ancestor_of_any(
                store@,
                current@,
                parents.skip(i as int),
                (depth - 1) as nat,
            ),
        decreases commit.parent.len() - i,
    {
        assert(parents.skip(i as int).len() > 0);
        assert(parents.skip(i as int)[0] == commit.parent@[i as int]@);
        assert(parents.skip(i as int).drop_first() =~= parents.skip(i + 1));
        match search_ancestor(current, &commit.parent[i], store, depth - 1) {
            Ok(found) => {
                if found {
                    return Ok(true);
                }
            },
            Err(e) => { return Err(e); },
        }
        i += 1;
    }
    assert(parents.skip(i as int).len() == 0);
    Ok(false)
}

/// Checks that `target` can be reached from `current` by a fast-forward:
/// that `current` is `target` or one of its ancestors.
pub fn check_ff(current: &String, target: &String, store: &Store) -> (found: Result<
    bool,
    MergeErr,
>)
    requires
        store.wf(),
    ensures
        found == fast_forward(store@, current@, target@, store.names().len()),
{
    match search_ancestor(current, target, store, store.objects.len()) {
        Ok(found) => if found {
            Ok(true)
        } else {
            Err(MergeErr::NoFastForward)
        },
        Err(e) => Err(MergeErr::Broken(e)),
    }
}

/// The outcome of a switch that stands behind the outcome of a merge on a
/// detached `HEAD`.
pub open spec fn as_switch(done: Result<(), MergeErr>) -> Result<(), SwitchErr> {
    match done {
        Ok(_) => Ok(()),
        Err(MergeErr::NoClean) => Err(SwitchErr::NoClean),
        Err(MergeErr::InvalidObject) => Err(SwitchErr::InvalidObject),
        Err(MergeErr::Broken(e)) => Err(SwitchErr::Broken(e)),
        Err(MergeErr::NoFastForward) => Err(SwitchErr::InvalidBranch),
    }
}

/// The outcome of merging the commit `commit` by fast-forward. Nothing
/// happens unless the repository is clean and the commit of `HEAD` is an
/// ancestor of `commit`. Then the commit is checked out; on a branch the
/// branch moves to it, a detached `HEAD` is switched to it.
pub open spec fn merged(
    before: &Repository,
    after: &Repository,
    commit: Seq<char>,
    now: Timestamp,
    done: Result<(), MergeErr>,
) -> bool {
    match clean(before) {
        Err(e) => done == Err::<(), MergeErr>(MergeErr::Broken(e)) && same_state(before, after),
        Ok(is_clean) => if !is_clean {
            done == Err::<(), MergeErr>(MergeErr::NoClean) && same_state(before, after)
        } else {
            match fast_forward(
                before.store@,
                head_commit(before.refs.head@, before.refs.branch_map()),
                commit,
                before.store.names().len(),
            ) {
                Err(e) => done == Err::<(), MergeErr>(e) && same_state(before, after),
                Ok(_) => match parse_head(before.refs.head@) {
                    HeadView::Branch(name) => {
                        &&& after.store@ == before.store@
                        &&& after.store.names() == before.store.names()
                        &&& after.refs.head@ == before.refs.head@
                        &&& checked_out(before, after, commit, now)
                        &&& match checkout_result(before, commit) {
                            Err(e) => {
                                &&& done == Err::<(), MergeErr>(MergeErr::Broken(e))
                                &&& after.refs.branch_map() == before.refs.branch_map()
                            },
                            Ok(_) => {
                                &&& done is Ok
                                &&& after.refs.branch_map() == before.refs.branch_map().insert(
                                    name,
                                    commit,
                                )
                            },
                        }
                    },
                    HeadView::Detached(_) => {
                        &&& !(done matches Err(MergeErr::NoFastForward))
                        &&& switched(before, after, commit, true, now, as_switch(done))
                    },
                },
            }
        },
    }
}

/// Merges the commit `commit_hash` into what is checked out, by
/// fast-forward only.
pub fn merge_ff(commit_hash: &String, repo: &mut Repository, now: Timestamp) -> (done: Result<
    (),
    MergeErr,
>)
    requires
        old(repo).wf(),
    ensures
        final(repo).wf(),
        final(repo).index.dirs@ == old(repo).index.dirs@,
        merged(old(repo), final(repo), commit_hash@, now, done),
{
    match is_clean(repo) {
        Err(e) => { return Err(MergeErr::Broken(e)); },
        Ok(yes) => {
            if !yes {
                return Err(MergeErr::NoClean);
            }
        },
    }
    let current = current_head_commit(&repo.refs);
    match check_ff(&current, commit_hash, &repo.store) {
        Ok(_) => {},
        Err(e) => { return Err(e); },
    }
    match current_head(&repo.refs) {
        Head::Branch(name) => {
            match switch_to_commit(commit_hash, repo, now) {
                Ok(_) => {
                    update_branch(&mut repo.refs, &name, commit_hash);
                    Ok(())
                },
                Err(e) => Err(MergeErr::Broken(e)),
            }
        },
        Head::Detached(_) => {
            match switch_to(commit_hash, true, repo, now) {
                Ok(_) => Ok(()),
                Err(SwitchErr::NoClean) => Err(MergeErr::NoClean),
                Err(SwitchErr::InvalidObject) => Err(MergeErr::InvalidObject),
                Err(SwitchErr::InvalidBranch) => Err(MergeErr::InvalidObject),
                Err(SwitchErr::Broken(e)) => Err(MergeErr::Broken(e)),
            }
        },
    }
}

/// The commit that a merge of `name` is about: the branch's where `name` is
/// a branch, else the one commit whose hash begins with `name`.
pub open spec fn merge_target(repo: &Repository, name: Seq<char>) -> Result<Seq<char>, MergeErr> {
    if repo.refs.branch_map().contains_key(name) {
        Ok(repo.refs.branch_map()[name])
    } else {
        match search_result(repo.store.names(), name) {
            None => Err(MergeErr::InvalidObject),
            Some(hash) => if object_type(repo.store@, hash) != ObjectType::Commit {
                Err(MergeErr::InvalidObject)
            } else {
                Ok(hash)
            },
        }
    }
}

/// The merge command: merges a branch, or a commit named by the beginning
/// of its hash, by fast-forward.
pub fn merge(branch: &String, repo: &mut Repository, now: Timestamp) -> (done: Result<
    (),
    MergeErr,
>)
    requires
        old(repo).wf(),
    ensures
        final(repo).wf(),
        final(repo).index.dirs@ == old(repo).index.dirs@,
        match merge_target(old(repo), branch@) {
            Err(e) => done == Err::<(), MergeErr>(e) && same_state(old(repo), final(repo)),
            Ok(commit) => merged(old(repo), final(repo), commit, now, done),
        },
{
    let commit = if branch_exists(&repo.refs, branch) {
        get_branch_head(&repo.refs, branch)
    } else {
        match repo.store.search(branch) {
            None => { return Err(MergeErr::InvalidObject); },
            Some(hash) => {
                if check_object_type(&hash, &repo.store) != ObjectType::Commit {
                    return Err(MergeErr::InvalidObject);
                }
                hash
            },
        }
    };
    merge_ff(&commit, repo, now)
}

} // verus!
