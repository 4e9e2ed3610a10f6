//! The status command: where `HEAD` stands, what is staged for the next
//! commit, and what is not staged yet.

use crate::head::{current_head, head_commit, parse_head, Head};
use crate::repo::Repository;
use crate::status::{
    changes_to_be_committed, changes_to_be_staged, staged_against, unstaged, Changes,
};
use crate::store::Fatal;
use vstd::prelude::*;

verus! {

/// The state of a repository, with paths relative to the current directory.
#[derive(Debug)]
pub struct StatusReport {
    pub head: Head,
    /// What differs between the staging area and the last commit.
    pub staged: Changes,
    /// What differs between the working directory and the staging area.
    pub unstaged: Changes,
}

/// The state of the repository. Nothing is filtered out; the paths are
/// relative to the current directory.
pub fn status(repo: &Repository) -> (report: Result<StatusReport, Fatal>)
    requires
        repo.wf(),
    ensures
        match report {
            Ok(r) => {
                &&& r.head@ == parse_head(repo.refs.head@)
                &&& staged_against(
                    &repo.index,
                    head_commit(repo.refs.head@, repo.refs.branch_map()),
                    repo.store@,
                ) is Ok
                &&& r.staged@ == staged_against(
                    &repo.index,
                    head_commit(repo.refs.head@, repo.refs.branch_map()),
                    repo.store@,
                )->Ok_0.absolute(repo.index.dirs@.work).relative(repo.index.dirs@.current)
                &&& r.unstaged@ == unstaged(&repo.index, &repo.tree).absolute(
                    repo.index.dirs@.work,
                ).relative(repo.index.dirs@.current)
            },
            Err(e) => staged_against(
                &repo.index,
                head_commit(repo.refs.head@, repo.refs.branch_map()),
                repo.store@,
            ) == Err::<crate::status::ChangesView, Fatal>(e),
        },
{
    let head = current_head(&repo.refs);
    let staged = match changes_to_be_committed(&repo.index, &repo.refs, &repo.store) {
        Ok(changes) => changes,
        Err(e) => { return Err(e); },
    };
    let unstaged = changes_to_be_staged(&repo.index, &repo.tree);
    Ok(
        StatusReport {
            head,
            staged: staged.to_relative(&repo.index.dirs),
            unstaged: unstaged.to_relative(&repo.index.dirs),
        },
    )
}

} // verus!
