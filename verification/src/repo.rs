//! The repository as one value: the object store, the refs, the staging area
//! and the working directory.

use crate::head::Refs;
use crate::index::Index;
use crate::path::Dirs;
use crate::store::Store;
use crate::worktree::WorkTree;
use vstd::prelude::*;

verus! {

/// A repository with its working directory.
pub struct Repository {
    pub store: Store,
    pub refs: Refs,
    pub index: Index,
    pub tree: WorkTree,
}

impl Repository {
    /// Every part is in order.
    pub open spec fn wf(&self) -> bool {
        &&& self.store.wf()
        &&& self.refs.wf()
        &&& self.index.wf()
        &&& self.tree.wf()
    }

    /// A fresh repository in an empty working directory: no object, `HEAD`
    /// on the branch `master`, nothing staged.
    pub fn init(dirs: Dirs) -> (repo: Repository)
        requires
            dirs@.wf(),
        ensures
            repo.wf(),
            repo.index.dirs@ == dirs@,
            repo.store@ == Map::<Seq<char>, Seq<char>>::empty(),
            repo.refs.head@ == "ref: refs/heads/master\n"@,
            repo.refs.branch_names() == Seq::<Seq<char>>::empty(),
            repo.index.tracked_paths().len() == 0,
            repo.tree.file_paths().len() == 0,
    {
        Repository {
            store: Store::new(),
            refs: Refs::new(),
            index: Index::new(dirs),
            tree: WorkTree::new(),
        }
    }
}

} // verus!
