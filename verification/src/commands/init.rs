//! The init command.

use crate::path::Dirs;
use crate::repo::Repository;
use vstd::prelude::*;

verus! {

/// Makes a repository for the working tree at `dirs`, unless there is one:
/// a repository is never initialised again. Returns the repository and
/// whether it was made now.
pub fn init(existing: Option<Repository>, dirs: Dirs) -> (made: (Repository, bool))
    requires
        dirs@.wf(),
        existing matches Some(repo) ==> repo.wf(),
    ensures
        made.0.wf(),
        made.1 == existing.is_none(),
        match existing {
            Some(repo) => made.0 == repo,
            None => {
                &&& made.0.index.dirs@ == dirs@
                &&& made.0.store@ == Map::<Seq<char>, Seq<char>>::empty()
                &&& made.0.refs.head@ == "ref: refs/heads/master\n"@
                &&& made.0.refs.branch_names() == Seq::<Seq<char>>::empty()
                &&& made.0.index.tracked_paths().len() == 0
                &&& made.0.tree.file_paths().len() == 0
            },
        },
{
    match existing {
        Some(repo) => (repo, false),
        None => (Repository::init(dirs), true),
    }
}

} // verus!
