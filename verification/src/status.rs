//! The two comparisons that say what state a repository is in: the staging
//! area against the last commit, and the working directory against the
//! staging area.

use crate::commit::{read_commit, Commit, CommitView};
use crate::hash::{calc_hash, content_hash};
use crate::head::{current_head_commit, head_commit, Refs};
use crate::index::{hash_matches, possibly_modified, FileMetaDataView, Index};
use crate::path::{
    absolute_form, absolute_seq, all_canonical, all_resolve, canonical, canonical_is_fixed,
    filter_to_fit_paths, get_relative_path_to_dir, grounded, included, lemma_filter_keeps,
    lemma_filter_step, path_seq, plain_path_lands, relative_form, relative_path_reads_back,
    relative_seq, resolves, to_workdir_absolute_path, to_workdir_relative_path, Dirs, DirsView,
    Path, PathView,
};
use crate::store::{Fatal, Store};
use crate::tree::{
    blob_paths, blob_seq, flatten, read_tree, TreeBlob, TreeBlobView, TreeEntryView, MAX_DEPTH,
};
use crate::worktree::{list_workdir_files, WorkTree};
use vstd::prelude::*;

verus! {

/// A set of changes, sorted into new, modified and deleted paths. The paths
/// are relative to the working tree's root unless a conversion says
/// otherwise.
#[derive(Debug)]
pub struct Changes {
    pub new: Vec<Path>,
    pub modified: Vec<Path>,
    pub deleted: Vec<Path>,
}

/// What a `Changes` stands for in specifications.
pub struct ChangesView {
    pub new: Seq<PathView>,
    pub modified: Seq<PathView>,
    pub deleted: Seq<PathView>,
}

impl View for Changes {
    type V = ChangesView;

    open spec fn view(&self) -> ChangesView {
        ChangesView {
            new: path_seq(self.new@),
            modified: path_seq(self.modified@),
            deleted: path_seq(self.deleted@),
        }
    }
}

impl ChangesView {
    /// There is no change.
    pub open spec fn is_empty(self) -> bool {
        self.new.len() == 0 && self.modified.len() == 0 && self.deleted.len() == 0
    }

    /// Every path can be made absolute against `dir`.
    pub open spec fn resolves(self, dir: PathView) -> bool {
        all_resolve(self.new, dir) && all_resolve(self.modified, dir) && all_resolve(
            self.deleted,
            dir,
        )
    }

    /// Every path can be read from `dir`, and is canonical then.
    pub open spec fn grounded(self, dir: PathView) -> bool {
        grounded(self.new, dir) && grounded(self.modified, dir) && grounded(self.deleted, dir)
    }

    /// The changes with every path made absolute against `dir`.
    pub open spec fn absolute(self, dir: PathView) -> ChangesView {
        ChangesView {
            new: absolute_seq(self.new, dir),
            modified: absolute_seq(self.modified, dir),
            deleted: absolute_seq(self.deleted, dir),
        }
    }

    /// The changes with every path written relative to `dir`.
    pub open spec fn relative(self, dir: PathView) -> ChangesView {
        ChangesView {
            new: relative_seq(self.new, dir),
            modified: relative_seq(self.modified, dir),
            deleted: relative_seq(self.deleted, dir),
        }
    }

    /// The changes at or below one of `paths`.
    pub open spec fn within(self, paths: Seq<PathView>, current: PathView) -> ChangesView {
        ChangesView {
            new: self.new.filter(|p: PathView| included(p, paths, current)),
            modified: self.modified.filter(|p: PathView| included(p, paths, current)),
            deleted: self.deleted.filter(|p: PathView| included(p, paths, current)),
        }
    }
}

fn absolute_all(paths: &Vec<Path>, dirs: &Dirs) -> (made: Vec<Path>)
    requires
        all_resolve(path_seq(paths@), dirs@.work),
    ensures
        path_seq(made@) == absolute_seq(path_seq(paths@), dirs@.work),
{
    let mut made: Vec<Path> = Vec::new();
    let mut i: usize = 0;
    while i < paths.len()
        invariant
            0 <= i <= paths.len(),
            all_resolve(path_seq(paths@), dirs@.work),
            made.len() == i,
            forall|k: int| 0 <= k < i ==> made@[k]@ == absolute_form(paths@[k]@, dirs@.work),
        decreases paths.len() - i,
    {
        assert(resolves(path_seq(paths@)[i as int], dirs@.work));
        made.push(to_workdir_absolute_path(&paths[i], dirs));
        i += 1;
    }
    assert(path_seq(made@) =~= absolute_seq(path_seq(paths@), dirs@.work));
    made
}

fn relative_all(paths: &Vec<Path>, dirs: &Dirs) -> (made: Vec<Path>)
    requires
        dirs@.wf(),
        all_canonical(path_seq(paths@)),
    ensures
        path_seq(made@) == relative_seq(path_seq(paths@), dirs@.current),
{
    let mut made: Vec<Path> = Vec::new();
    let mut i: usize = 0;
    while i < paths.len()
        invariant
            0 <= i <= paths.len(),
            dirs@.wf(),
            all_canonical(path_seq(paths@)),
            made.len() == i,
            forall|k: int| 0 <= k < i ==> made@[k]@ == relative_form(paths@[k]@, dirs@.current),
        decreases paths.len() - i,
    {
        proof {
            assert(canonical(path_seq(paths@)[i as int]));
            canonical_is_fixed(paths@[i as int]@, dirs@.current);
        }
        made.push(get_relative_path_to_dir(&paths[i], &dirs.current, dirs));
        i += 1;
    }
    assert(path_seq(made@) =~= relative_seq(path_seq(paths@), dirs@.current));
    made
}

impl Changes {
    /// Changes without a path.
    pub fn new() -> (changes: Changes)
        ensures
            changes@.is_empty(),
    {
        let changes = Changes { new: Vec::new(), modified: Vec::new(), deleted: Vec::new() };
        assert(path_seq(changes.new@).len() == 0);
        changes
    }

    /// Whether there is no change.
    pub fn is_empty(&self) -> (yes: bool)
        ensures
            yes == self@.is_empty(),
    {
        self.new.is_empty() && self.modified.is_empty() && self.deleted.is_empty()
    }

    /// The changes with every path made absolute; the paths are read from
    /// the working tree's root.
    pub fn to_absolute(&self, dirs: &Dirs) -> (made: Changes)
        requires
            self@.resolves(dirs@.work),
        ensures
            made@ == self@.absolute(dirs@.work),
    {
        Changes {
            new: absolute_all(&self.new, dirs),
            modified: absolute_all(&self.modified, dirs),
            deleted: absolute_all(&self.deleted, dirs),
        }
    }

    /// The changes, whose paths are canonical, with every path written
    /// relative to the current directory.
    pub fn to_relative_from_abs(&self, dirs: &Dirs) -> (made: Changes)
        requires
            dirs@.wf(),
            all_canonical(self@.new),
            all_canonical(self@.modified),
            all_canonical(self@.deleted),
        ensures
            made@ == self@.relative(dirs@.current),
    {
        Changes {
            new: relative_all(&self.new, dirs),
            modified: relative_all(&self.modified, dirs),
            deleted: relative_all(&self.deleted, dirs),
        }
    }

    /// The changes at or below one of `paths`, with absolute paths. A
    /// directory in `paths` stands for everything under it; with no path at
    /// all nothing is left.
    pub fn filter_abs(&self, paths: &Vec<Path>, dirs: &Dirs) -> (kept: Changes)
        requires
            dirs@.wf(),
            self@.resolves(dirs@.work),
            all_resolve(path_seq(paths@), dirs@.current),
        ensures
            kept@ == self@.absolute(dirs@.work).within(path_seq(paths@), dirs@.current),
            self@.grounded(dirs@.work) ==> all_canonical(kept@.new) && all_canonical(
                kept@.modified,
            ) && all_canonical(kept@.deleted),
    {
        let abs = self.to_absolute(dirs);
        proof {
            lemma_absolute_resolves(self@.new, dirs@);
            lemma_absolute_resolves(self@.modified, dirs@);
            lemma_absolute_resolves(self@.deleted, dirs@);
            if self@.grounded(dirs@.work) {
                let pred = |p: PathView| included(p, path_seq(paths@), dirs@.current);
                let good = |p: PathView| canonical(p);
                lemma_filter_keeps(absolute_seq(self@.new, dirs@.work), pred, good);
                lemma_filter_keeps(absolute_seq(self@.modified, dirs@.work), pred, good);
                lemma_filter_keeps(absolute_seq(self@.deleted, dirs@.work), pred, good);
            }
        }
        Changes {
            new: filter_to_fit_paths(&abs.new, paths, dirs),
            modified: filter_to_fit_paths(&abs.modified, paths, dirs),
            deleted: filter_to_fit_paths(&abs.deleted, paths, dirs),
        }
    }
}

/// Paths made absolute against the working tree's root are absolute, so they
/// resolve against any directory.
proof fn lemma_absolute_resolves(paths: Seq<PathView>, dirs: DirsView)
    requires
        dirs.wf(),
    ensures
        all_resolve(absolute_seq(paths, dirs.work), dirs.current),
{
    assert forall|i: int| 0 <= i < paths.len() implies resolves(
        #[trigger] absolute_seq(paths, dirs.work)[i],
        dirs.current,
    ) by {
        assert(absolute_form(paths[i], dirs.work).absolute);
    }
}

impl Changes {
    /// The changes at or below one of `paths`, with paths relative to the
    /// current directory. With no path at all nothing is left.
    pub fn filter_relative(&self, paths: &Vec<Path>, dirs: &Dirs) -> (kept: Changes)
        requires
            dirs@.wf(),
            self@.grounded(dirs@.work),
            all_resolve(path_seq(paths@), dirs@.current),
        ensures
            kept@ == self@.absolute(dirs@.work).within(path_seq(paths@), dirs@.current).relative(
                dirs@.current,
            ),
    {
        let kept = self.filter_abs(paths, dirs);
        kept.to_relative_from_abs(dirs)
    }

    /// The changes with every path written relative to the current
    /// directory.
    pub fn to_relative(&self, dirs: &Dirs) -> (made: Changes)
        requires
            dirs@.wf(),
            self@.grounded(dirs@.work),
        ensures
            made@ == self@.absolute(dirs@.work).relative(dirs@.current),
    {
        self.to_absolute(dirs).to_relative_from_abs(dirs)
    }
}

/// No file is left at the path.
pub open spec fn is_gone(tree: &WorkTree) -> spec_fn(PathView) -> bool {
    |p: PathView| !tree.has_file(p)
}

/// The file at the path is there, its fingerprint differs from the record,
/// and so does the hash of its content.
pub open spec fn is_edited(index: Map<PathView, FileMetaDataView>, tree: &WorkTree) -> spec_fn(
    PathView,
) -> bool {
    |p: PathView|
        tree.has_file(p) && possibly_modified(index, tree, p) && !hash_matches(
            index,
            p,
            content_hash(tree.file_map()[p].content),
        )
}

/// The path has no record in the staging area.
pub open spec fn is_untracked(index: Map<PathView, FileMetaDataView>) -> spec_fn(PathView) -> bool {
    |p: PathView| !index.contains_key(p)
}

/// What differs between the working directory and the staging area: staged
/// paths without a file are deleted, staged files whose content changed are
/// modified, and files without a record are new.
pub open spec fn unstaged(index: &Index, tree: &WorkTree) -> ChangesView {
    ChangesView {
        new: relative_seq(
            tree.listing(index.dirs@.work).filter(is_untracked(index@)),
            index.dirs@.work,
        ),
        modified: relative_seq(
            index.tracked_paths().filter(is_edited(index@, tree)),
            index.dirs@.work,
        ),
        deleted: relative_seq(index.tracked_paths().filter(is_gone(tree)), index.dirs@.work),
    }
}

/// Appends `path`, written relative to the working tree's root.
fn push_relative(out: &mut Vec<Path>, path: &Path, dirs: &Dirs)
    requires
        dirs@.wf(),
        canonical(path@),
    ensures
        path_seq(final(out)@) == path_seq(old(out)@).push(relative_form(path@, dirs@.work)),
{
    proof {
        canonical_is_fixed(path@, dirs@.current);
    }
    let ghost before = path_seq(out@);
    let rel = to_workdir_relative_path(path, dirs);
    out.push(rel);
    assert(path_seq(out@) =~= before.push(relative_form(path@, dirs@.work)));
}

/// Canonical paths written relative to a directory can be read from it.
pub proof fn lemma_relative_grounded(paths: Seq<PathView>, dir: PathView)
    requires
        all_canonical(paths),
        dir.absolute,
    ensures
        grounded(relative_seq(paths, dir), dir),
        absolute_seq(relative_seq(paths, dir), dir) == paths,
{
    assert forall|i: int| 0 <= i < paths.len() implies resolves(
        #[trigger] relative_seq(paths, dir)[i],
        dir,
    ) && canonical(absolute_form(relative_seq(paths, dir)[i], dir)) && absolute_form(
        relative_seq(paths, dir)[i],
        dir,
    ) == paths[i] by {
        assert(canonical(paths[i]));
        relative_path_reads_back(paths[i], dir);
    }
    assert(absolute_seq(relative_seq(paths, dir), dir) =~= paths);
}

/// Compares the working directory with the staging area. The paths are
/// relative to the working tree's root; nothing is filtered out.
pub fn changes_to_be_staged(index: &Index, tree: &WorkTree) -> (changes: Changes)
    requires
        index.wf(),
        tree.wf(),
    ensures
        changes@ == unstaged(index, tree),
        changes@.grounded(index.dirs@.work),
{
    let dirs = &index.dirs;
    let ghost work = dirs@.work;
    let ghost staged = index.tracked_paths();
    let ghost gone = is_gone(tree);
    let ghost edited = is_edited(index@, tree);
    let mut deleted: Vec<Path> = Vec::new();
    let mut modified: Vec<Path> = Vec::new();
    let mut i: usize = 0;
    assert(staged.take(0) =~= Seq::empty());
    assert(path_seq(deleted@) =~= relative_seq(staged.take(0).filter(gone), work));
    assert(path_seq(modified@) =~= relative_seq(staged.take(0).filter(edited), work));
    while i < index.entries.entries.len()
        invariant
            0 <= i <= index.entries.entries.len(),
            index.wf(),
            tree.wf(),
            dirs == &index.dirs,
            work == dirs@.work,
            staged == index.tracked_paths(),
            gone == is_gone(tree),
            edited == is_edited(index@, tree),
            path_seq(deleted@) == relative_seq(staged.take(i as int).filter(gone), work),
            path_seq(modified@) == relative_seq(staged.take(i as int).filter(edited), work),
        decreases index.entries.entries.len() - i,
    {
        let file = &index.entries.entries[i].key;
        let ghost p = file@;
        proof {
            assert(staged[i as int] == p);
            assert(canonical(p));
            canonical_is_fixed(p, dirs@.current);
            index.entries.lemma_entry(i as int);
            lemma_filter_step(staged, i as int, gone);
            lemma_filter_step(staged, i as int, edited);
        }
        let ghost deleted_before = staged.take(i as int).filter(gone);
        let ghost modified_before = staged.take(i as int).filter(edited);
        match tree.file(file) {
            None => {
                push_relative(&mut deleted, file, dirs);
                assert(path_seq(deleted@) =~= relative_seq(deleted_before.push(p), work));
            },
            Some(state) => {
                if index.is_modified(file, tree) {
                    let hash = calc_hash(&state.content);
                    if !index.verify_hash(file, &hash) {
                        push_relative(&mut modified, file, dirs);
                        assert(path_seq(modified@) =~= relative_seq(
                            modified_before.push(p),
                            work,
                        ));
                    }
                }
            },
        }
        i += 1;
    }
    assert(staged.take(i as int) =~= staged);
    let files = list_workdir_files(tree, dirs);
    let ghost present = tree.listing(work);
    let ghost fresh = is_untracked(index@);
    let mut new: Vec<Path> = Vec::new();
    let mut j: usize = 0;
    proof {
        let listed_pred = |file: PathView| crate::worktree::listed(file, work);
        let good = |p: PathView| canonical(p);
        lemma_filter_keeps(tree.files.keys(), listed_pred, good);
        assert(all_canonical(present));
        assert(present.take(0) =~= Seq::empty());
        assert(path_seq(new@) =~= relative_seq(present.take(0).filter(fresh), work));
    }
    while j < files.len()
        invariant
            0 <= j <= files.len(),
            index.wf(),
            dirs == &index.dirs,
            work == dirs@.work,
            present == path_seq(files@),
            all_canonical(present),
            fresh == is_untracked(index@),
            path_seq(new@) == relative_seq(present.take(j as int).filter(fresh), work),
        decreases files.len() - j,
    {
        let file = &files[j];
        let ghost p = file@;
        let ghost new_before = present.take(j as int).filter(fresh);
        proof {
            assert(present[j as int] == p);
            assert(canonical(p));
            canonical_is_fixed(p, dirs@.current);
            lemma_filter_step(present, j as int, fresh);
        }
        if !index.is_tracked(file) {
            push_relative(&mut new, file, dirs);
            assert(path_seq(new@) =~= relative_seq(new_before.push(p), work));
        }
        j += 1;
    }
    assert(present.take(j as int) =~= present);
    let changes = Changes { new, modified, deleted };
    proof {
        let good = |p: PathView| canonical(p);
        lemma_filter_keeps(present, fresh, good);
        lemma_filter_keeps(staged, edited, good);
        lemma_filter_keeps(staged, gone, good);
        lemma_relative_grounded(present.filter(fresh), work);
        lemma_relative_grounded(staged.filter(edited), work);
        lemma_relative_grounded(staged.filter(gone), work);
    }
    changes
}

/// The files of the snapshot that the commit `head` holds.
pub open spec fn commit_files(store: Map<Seq<char>, Seq<char>>, head: Seq<char>) -> Result<
    Seq<TreeBlobView>,
    Fatal,
> {
    match read_commit(store, head) {
        Err(e) => Err(e),
        Ok(commit) => match read_tree(store, commit.tree) {
            Err(e) => Err(e),
            Ok(entries) => flatten(store, entries, MAX_DEPTH as nat),
        },
    }
}

/// The file of the snapshot is staged with another content.
pub open spec fn is_restaged(index: &Index) -> spec_fn(TreeBlobView) -> bool {
    |b: TreeBlobView|
        relative_seq(index.tracked_paths(), index.dirs@.work).contains(b.path) && !hash_matches(
            index@,
            absolute_form(b.path, index.dirs@.work),
            b.hash,
        )
}

/// The file of the snapshot is not staged.
pub open spec fn is_unstaged(index: &Index) -> spec_fn(TreeBlobView) -> bool {
    |b: TreeBlobView| !relative_seq(index.tracked_paths(), index.dirs@.work).contains(b.path)
}

/// The path is none of the snapshot.
pub open spec fn is_added(files: Seq<TreeBlobView>) -> spec_fn(PathView) -> bool {
    |p: PathView| !blob_paths(files).contains(p)
}

/// What differs between the staging area and a snapshot: a path in both is
/// modified where the hashes differ, a path of the snapshot alone is
/// deleted, a staged path alone is new.
pub open spec fn against_snapshot(index: &Index, files: Seq<TreeBlobView>) -> ChangesView {
    ChangesView {
        new: relative_seq(index.tracked_paths(), index.dirs@.work).filter(is_added(files)),
        modified: blob_paths(files.filter(is_restaged(index))),
        deleted: blob_paths(files.filter(is_unstaged(index))),
    }
}

/// What differs between the staging area and the commit `head`. Without a
/// commit everything that is staged is new.
pub open spec fn staged_against(index: &Index, head: Seq<char>, store: Map<Seq<char>, Seq<char>>)
    -> Result<ChangesView, Fatal> {
    if head.len() == 0 {
        Ok(
            ChangesView {
                new: relative_seq(index.tracked_paths(), index.dirs@.work),
                modified: Seq::empty(),
                deleted: Seq::empty(),
            },
        )
    } else {
        match commit_files(store, head) {
            Err(e) => Err(e),
            Ok(files) => Ok(against_snapshot(index, files)),
        }
    }
}

/// The views of a result that holds changes.
pub open spec fn changes_result(found: Result<Changes, Fatal>) -> Result<ChangesView, Fatal> {
    match found {
        Ok(changes) => Ok(changes@),
        Err(e) => Err(e),
    }
}

/// The files of the snapshot that the commit `head` holds.
pub fn load_commit_files(head: &String, store: &Store) -> (found: Result<Vec<TreeBlob>, Fatal>)
    requires
        store.wf(),
    ensures
        crate::tree::blobs_result(found) == commit_files(store@, head@),
{
    let commit = match Commit::load(head, store) {
        Ok(commit) => commit,
        Err(e) => { return Err(e); },
    };
    let tree = match commit.get_tree(store) {
        Ok(tree) => tree,
        Err(e) => { return Err(e); },
    };
    tree.get_recursive_blobs(store)
}

fn find_path(list: &Vec<Path>, path: &Path) -> (at: Option<usize>)
    ensures
        match at {
            Some(j) => j < list.len() && list@[j as int]@ == path@,
            None => !path_seq(list@).contains(path@),
        },
{
    let mut j: usize = 0;
    while j < list.len()
        invariant
            0 <= j <= list.len(),
            forall|k: int| 0 <= k < j ==> path_seq(list@)[k] != path@,
        decreases list.len() - j,
    {
        if list[j].same_as(path) {
            return Some(j);
        }
        j += 1;
    }
    None
}

fn holds_path(files: &Vec<TreeBlob>, path: &Path) -> (yes: bool)
    ensures
        yes == blob_paths(blob_seq(files@)).contains(path@),
{
    let mut j: usize = 0;
    while j < files.len()
        invariant
            0 <= j <= files.len(),
            forall|k: int| 0 <= k < j ==> blob_paths(blob_seq(files@))[k] != path@,
        decreases files.len() - j,
    {
        if files[j].path.same_as(path) {
            assert(blob_paths(blob_seq(files@))[j as int] == path@);
            return true;
        }
        j += 1;
    }
    false
}

/// The paths of a list of files pushed one by one.
proof fn lemma_blob_paths_push(files: Seq<TreeBlobView>, file: TreeBlobView)
    ensures
        blob_paths(files.push(file)) == blob_paths(files).push(file.path),
{
    assert(blob_paths(files.push(file)) =~= blob_paths(files).push(file.path));
}

/// Compares the staging area with the commit that `HEAD` stands on. The
/// paths are relative to the working tree's root.
pub fn changes_to_be_committed(index: &Index, refs: &Refs, store: &Store) -> (changes: Result<
    Changes,
    Fatal,
>)
    requires
        index.wf(),
        refs.wf(),
        store.wf(),
    ensures
        changes_result(changes) == staged_against(
            index,
            head_commit(refs.head@, refs.branch_map()),
            store@,
        ),
        changes matches Ok(c) ==> c@.grounded(index.dirs@.work),
{
    let dirs = &index.dirs;
    let ghost work = dirs@.work;
    let ghost keys = index.tracked_paths();
    let ghost staged = relative_seq(keys, work);
    let paths = index.get_tracked_files();
    let mut rels: Vec<Path> = Vec::new();
    let mut i: usize = 0;
    assert(path_seq(rels@) =~= staged.take(0));
    while i < paths.len()
        invariant
            0 <= i <= paths.len(),
            index.wf(),
            dirs == &index.dirs,
            work == dirs@.work,
            keys == index.tracked_paths(),
            keys == path_seq(paths@),
            staged == relative_seq(keys, work),
            path_seq(rels@) == staged.take(i as int),
        decreases paths.len() - i,
    {
        proof {
            assert(canonical(keys[i as int]));
            assert(staged.take(i + 1) =~= staged.take(i as int).push(staged[i as int]));
        }
        push_relative(&mut rels, &paths[i], dirs);
        i += 1;
    }
    assert(staged.take(i as int) =~= staged);
    proof {
        lemma_relative_grounded(keys, work);
    }
    let head = current_head_commit(refs);
    if head.as_str().unicode_len() == 0 {
        let changes = Changes { new: rels, modified: Vec::new(), deleted: Vec::new() };
        assert(changes@.modified =~= Seq::empty());
        assert(changes@.deleted =~= Seq::empty());
        return Ok(changes);
    }
    let files = match load_commit_files(&head, store) {
        Ok(files) => files,
        Err(e) => { return Err(e); },
    };
    let ghost snapshot = blob_seq(files@);
    let ghost restaged = is_restaged(index);
    let ghost dropped = is_unstaged(index);
    let mut modified: Vec<Path> = Vec::new();
    let mut deleted: Vec<Path> = Vec::new();
    let mut j: usize = 0;
    proof {
        let commit = read_commit(store@, head@)->Ok_0;
        let entries = read_tree(store@, commit.tree)->Ok_0;
        crate::tree::flatten_paths_are_plain(store@, entries, MAX_DEPTH as nat);
        assert(snapshot.take(0) =~= Seq::empty());
        assert(path_seq(modified@) =~= blob_paths(snapshot.take(0).filter(restaged)));
        assert(path_seq(deleted@) =~= blob_paths(snapshot.take(0).filter(dropped)));
    }
    while j < files.len()
        invariant
            0 <= j <= files.len(),
            index.wf(),
            dirs == &index.dirs,
            work == dirs@.work,
            keys == index.tracked_paths(),
            staged == relative_seq(keys, work),
            path_seq(rels@) == staged,
            snapshot == blob_seq(files@),
            restaged == is_restaged(index),
            dropped == is_unstaged(index),
            forall|k: int|
                0 <= k < snapshot.len() ==> {
                    let file = #[trigger] snapshot[k];
                    !file.path.absolute && crate::path::plain(file.path.parts)
                },
            path_seq(modified@) == blob_paths(snapshot.take(j as int).filter(restaged)),
            path_seq(deleted@) == blob_paths(snapshot.take(j as int).filter(dropped)),
            grounded(path_seq(modified@), work),
            grounded(path_seq(deleted@), work),
        decreases files.len() - j,
    {
        let file = &files[j];
        let ghost b = file@;
        let ghost modified_before = snapshot.take(j as int).filter(restaged);
        let ghost deleted_before = snapshot.take(j as int).filter(dropped);
        let ghost modified_paths = path_seq(modified@);
        let ghost deleted_paths = path_seq(deleted@);
        proof {
            assert(snapshot[j as int] == b);
            lemma_filter_step(snapshot, j as int, restaged);
            lemma_filter_step(snapshot, j as int, dropped);
            lemma_blob_paths_push(modified_before, b);
            lemma_blob_paths_push(deleted_before, b);
            plain_path_lands(b.path, work);
        }
        match find_path(&rels, &file.path) {
            Some(at) => {
                proof {
                    assert(staged[at as int] == b.path);
                    assert(canonical(keys[at as int]));
                    relative_path_reads_back(keys[at as int], work);
                    index.entries.lemma_entry(at as int);
                }
                if index.entries.entries[at].value.hash != file.hash {
                    modified.push(file.path.clone());
                    assert(path_seq(modified@) =~= modified_paths.push(b.path));
                }
            },
            None => {
                deleted.push(file.path.clone());
                assert(path_seq(deleted@) =~= deleted_paths.push(b.path));
            },
        }
        j += 1;
    }
    assert(snapshot.take(j as int) =~= snapshot);
    let ghost added = is_added(snapshot);
    let mut new: Vec<Path> = Vec::new();
    let mut k: usize = 0;
    assert(staged.take(0) =~= Seq::empty());
    assert(path_seq(new@) =~= staged.take(0).filter(added));
    while k < rels.len()
        invariant
            0 <= k <= rels.len(),
            path_seq(rels@) == staged,
            snapshot == blob_seq(files@),
            added == is_added(snapshot),
            path_seq(new@) == staged.take(k as int).filter(added),
        decreases rels.len() - k,
    {
        let ghost new_before = path_seq(new@);
        proof {
            lemma_filter_step(staged, k as int, added);
        }
        if !holds_path(&files, &rels[k]) {
            new.push(rels[k].clone());
            assert(path_seq(new@) =~= new_before.push(staged[k as int]));
        }
        k += 1;
    }
    assert(staged.take(k as int) =~= staged);
    proof {
        let good = |p: PathView| resolves(p, work) && canonical(absolute_form(p, work));
        lemma_filter_keeps(staged, added, good);
    }
    Ok(Changes { new, modified, deleted })
}

} // verus!
