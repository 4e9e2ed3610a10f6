//! A picture of the working directory: the files with their content and
//! times. A directory is there exactly where a file lies below it, so a
//! directory that loses its last file is gone with it. Commands change the
//! picture; bringing the disk in line with it is left to the caller, who
//! learns from `emptied_dirs` which directories to remove.

use crate::path::{
    absolute_form, all_canonical, all_resolve, canonical, get_absolute_path, path_seq, resolves,
    starts_with, Dirs, Path, PathView,
};
use crate::table::Table;
use vstd::prelude::*;

verus! {

/// A point in time: seconds and nanoseconds since the epoch.
#[derive(Debug, Clone, Copy, PartialEq, Eq, Structural)]
pub struct Timestamp {
    pub secs: u64,
    pub nanos: u32,
}

/// A file of the working directory.
#[derive(Debug)]
pub struct FileState {
    pub content: String,
    pub created: Timestamp,
    pub modified: Timestamp,
    pub executable: bool,
}

/// What a `FileState` stands for in specifications.
pub struct FileStateView {
    pub content: Seq<char>,
    pub created: Timestamp,
    pub modified: Timestamp,
    pub executable: bool,
}

impl View for FileState {
    type V = FileStateView;

    open spec fn view(&self) -> FileStateView {
        FileStateView {
            content: self.content@,
            created: self.created,
            modified: self.modified,
            executable: self.executable,
        }
    }
}

impl Clone for FileState {
    fn clone(&self) -> (copy: FileState)
        ensures
            copy@ == self@,
    {
        FileState {
            content: self.content.clone(),
            created: self.created,
            modified: self.modified,
            executable: self.executable,
        }
    }
}

/// The working directory.
pub struct WorkTree {
    /// The files, by absolute path.
    pub files: Table<Path, FileState>,
}

/// `path` lies below `dir`, and is not `dir` itself.
pub open spec fn below(path: PathView, dir: PathView) -> bool {
    starts_with(path, dir) && path.parts.len() > dir.parts.len()
}

/// The name of the directory that holds a repository's own files.
pub open spec fn marker() -> Seq<char> {
    ".mit"@
}

/// A listing of `dir` reaches `file`: the file lies below `dir`, and neither
/// `dir` nor a directory between the two is a repository's own directory.
pub open spec fn listed(file: PathView, dir: PathView) -> bool {
    &&& below(file, dir)
    &&& forall|k: int|
        0 <= k && dir.parts.len() - 1 <= k < file.parts.len() - 1 ==> #[trigger] file.parts[k]
            != marker()
}

/// The file written over `before` (if there was one) at time `now`.
pub open spec fn written(before: Option<FileStateView>, content: Seq<char>, now: Timestamp)
    -> FileStateView {
    match before {
        Some(file) => FileStateView {
            content,
            created: file.created,
            modified: now,
            executable: file.executable,
        },
        None => FileStateView { content, created: now, modified: now, executable: false },
    }
}

/// What a path of the list stands for: the files that a listing of it
/// reaches where it is a directory, else the path itself, made absolute.
pub open spec fn named_by(
    tree: &WorkTree,
    path: PathView,
    current: PathView,
    file: PathView,
) -> bool {
    let abs = absolute_form(path, current);
    if tree.is_dir(abs) {
        tree.has_file(file) && listed(file, abs)
    } else {
        file == abs
    }
}

/// A path that one of `paths` stands for.
pub open spec fn integrated(
    tree: &WorkTree,
    paths: Seq<PathView>,
    current: PathView,
    file: PathView,
) -> bool {
    exists|i: int| 0 <= i < paths.len() && named_by(tree, #[trigger] paths[i], current, file)
}

fn is_marker(part: &String) -> (yes: bool)
    ensures
        yes == (part@ == marker()),
{
    let mark = String::from_str(".mit");
    *part == mark
}

/// Whether a listing of `dir` reaches `file`.
pub fn is_listed(file: &Path, dir: &Path) -> (yes: bool)
    ensures
        yes == listed(file@, dir@),
{
    if !file.starts_with(dir) || file.parts.len() <= dir.parts.len() {
        return false;
    }
    let mut k: usize = if dir.parts.len() > 0 {
        dir.parts.len() - 1
    } else {
        0
    };
    let ghost start = k;
    while k < file.parts.len() - 1
        invariant
            start <= k <= file.parts.len() - 1,
            0 <= start,
            dir.parts.len() - 1 <= start,
            below(file@, dir@),
            forall|j: int| start <= j < k ==> #[trigger] file@.parts[j] != marker(),
        decreases file.parts.len() - k,
    {
        if is_marker(&file.parts[k]) {
            assert(file@.parts[k as int] == marker());
            return false;
        }
        k += 1;
    }
    true
}

impl WorkTree {
    /// No file occurs twice, and every file's path is canonical.
    pub open spec fn wf(&self) -> bool {
        self.files.wf() && all_canonical(self.files.keys())
    }

    /// The files, as a map from absolute paths.
    pub open spec fn file_map(&self) -> Map<PathView, FileStateView> {
        self.files.map()
    }

    /// The paths of the files, in the order in which the tree holds them.
    pub open spec fn file_paths(&self) -> Seq<PathView> {
        self.files.keys()
    }

    /// There is a file at `path`.
    pub open spec fn has_file(&self, path: PathView) -> bool {
        self.files.map().contains_key(path)
    }

    /// `dir` is a directory: a file lies below it.
    pub open spec fn is_dir(&self, dir: PathView) -> bool {
        exists|i: int|
            0 <= i < self.files.keys().len() && below(#[trigger] self.files.keys()[i], dir)
    }

    /// The files that a listing of `dir` reaches, in the tree's order.
    pub open spec fn listing(&self, dir: PathView) -> Seq<PathView> {
        self.files.keys().filter(|file: PathView| listed(file, dir))
    }

    /// An empty working directory.
    pub fn new() -> (tree: WorkTree)
        ensures
            tree.wf(),
            tree.file_map() == Map::<PathView, FileStateView>::empty(),
            tree.file_paths() == Seq::<PathView>::empty(),
    {
        WorkTree { files: Table::new() }
    }

    /// Whether there is a file at `path`.
    pub fn file_exists(&self, path: &Path) -> (yes: bool)
        ensures
            yes == self.has_file(path@),
    {
        self.files.contains(path)
    }

    /// The file at `path`.
    pub fn file(&self, path: &Path) -> (found: Option<&FileState>)
        requires
            self.wf(),
        ensures
            match found {
                Some(file) => self.has_file(path@) && self.file_map()[path@] == file@,
                None => !self.has_file(path@),
            },
    {
        self.files.get(path)
    }

    /// Whether `dir` is a directory.
    pub fn dir_exists(&self, dir: &Path) -> (yes: bool)
        ensures
            yes == self.is_dir(dir@),
    {
        let mut j: usize = 0;
        while j < self.files.entries.len()
            invariant
                0 <= j <= self.files.entries.len(),
                forall|k: int| 0 <= k < j ==> !below(#[trigger] self.files.keys()[k], dir@),
            decreases self.files.entries.len() - j,
        {
            let file = &self.files.entries[j].key;
            if file.starts_with(dir) && file.parts.len() > dir.parts.len() {
                assert(below(self.files.keys()[j as int], dir@));
                return true;
            }
            j += 1;
        }
        false
    }

    /// Writes a file at time `now`. A file that is there keeps its creation
    /// time and its mode; the directories above it come with it.
    pub fn write_file(&mut self, path: &Path, content: String, now: Timestamp)
        requires
            old(self).wf(),
            canonical(path@),
        ensures
            final(self).wf(),
            final(self).file_map() == old(self).file_map().insert(
                path@,
                written(
                    if old(self).has_file(path@) {
                        Some(old(self).file_map()[path@])
                    } else {
                        None
                    },
                    content@,
                    now,
                ),
            ),
            old(self).has_file(path@) ==> final(self).file_paths() == old(self).file_paths(),
            !old(self).has_file(path@) ==> final(self).file_paths() == old(self).file_paths().push(
                path@,
            ),
    {
        let state = match self.files.get(path) {
            Some(file) => FileState {
                content,
                created: file.created,
                modified: now,
                executable: file.executable,
            },
            None => FileState { content, created: now, modified: now, executable: false },
        };
        self.files.insert(path.clone(), state);
    }

    /// Puts a file into the picture as it was found, times and mode
    /// included.
    pub fn put_file(&mut self, path: Path, file: FileState)
        requires
            old(self).wf(),
            canonical(path@),
        ensures
            final(self).wf(),
            final(self).file_map() == old(self).file_map().insert(path@, file@),
    {
        self.files.insert(path, file);
    }

    /// Removes the file at `path`, if there is one.
    pub fn remove_file(&mut self, path: &Path)
        requires
            old(self).wf(),
        ensures
            final(self).wf(),
            final(self).file_map() == old(self).file_map().remove(path@),
    {
        let ghost before = self.files.keys();
        self.files.remove(path);
        proof {
            if before.contains(path@) {
                let at = before.index_of(path@);
                assert forall|i: int| 0 <= i < self.files.keys().len() implies canonical(
                    #[trigger] self.files.keys()[i],
                ) by {
                    let j = if i < at { i } else { i + 1 };
                    assert(self.files.keys()[i] == before[j]);
                }
            }
        }
    }

    /// The files that a listing of `dir` reaches: all files below it, but
    /// for those in a repository's own directory.
    pub fn list_files(&self, dir: &Path) -> (files: Vec<Path>)
        ensures
            path_seq(files@) == self.listing(dir@),
    {
        let mut files: Vec<Path> = Vec::new();
        let ghost pred = |file: PathView| listed(file, dir@);
        let mut i: usize = 0;
        assert(self.files.keys().take(0) =~= Seq::empty());
        assert(path_seq(files@) =~= Seq::empty());
        while i < self.files.entries.len()
            invariant
                0 <= i <= self.files.entries.len(),
                pred == |file: PathView| listed(file, dir@),
                path_seq(files@) == self.files.keys().take(i as int).filter(pred),
            decreases self.files.entries.len() - i,
        {
            let ghost before = path_seq(files@);
            proof {
                let prefix = self.files.keys().take(i as int);
                assert(self.files.keys().take(i + 1) =~= prefix.push(self.files.keys()[i as int]));
                prefix.lemma_filter_push(self.files.keys()[i as int], pred);
            }
            if is_listed(&self.files.entries[i].key, dir) {
                files.push(self.files.entries[i].key.clone());
                assert(path_seq(files@) =~= before.push(self.files.keys()[i as int]));
            }
            i += 1;
        }
        assert(self.files.keys().take(i as int) =~= self.files.keys());
        files
    }
}

/// All files of the working tree, but for the repository's own.
pub fn list_workdir_files(tree: &WorkTree, dirs: &Dirs) -> (files: Vec<Path>)
    ensures
        path_seq(files@) == tree.listing(dirs@.work),
{
    tree.list_files(&dirs.work)
}

/// Whether `file` exists and lies at or below `dir`.
pub fn is_inside_dir(file: &Path, dir: &Path, tree: &WorkTree, dirs: &Dirs) -> (yes: bool)
    requires
        resolves(file@, dirs@.current),
    ensures
        yes == ((tree.has_file(absolute_form(file@, dirs@.current)) || tree.is_dir(
            absolute_form(file@, dirs@.current),
        )) && starts_with(absolute_form(file@, dirs@.current), dir@)),
{
    let abs = get_absolute_path(file, dirs);
    if tree.file_exists(&abs) || tree.dir_exists(&abs) {
        abs.starts_with(dir)
    } else {
        false
    }
}

/// The directory that holds a repository's own files.
pub open spec fn repo_dir(work: PathView) -> PathView {
    PathView { absolute: work.absolute, parts: work.parts.push(marker()) }
}

/// Whether `file` exists and lies in the repository's own directory.
pub fn is_inside_repo(file: &Path, tree: &WorkTree, dirs: &Dirs) -> (yes: bool)
    requires
        resolves(file@, dirs@.current),
    ensures
        yes == ((tree.has_file(absolute_form(file@, dirs@.current)) || tree.is_dir(
            absolute_form(file@, dirs@.current),
        )) && starts_with(absolute_form(file@, dirs@.current), repo_dir(dirs@.work))),
{
    let storage = dirs.work.join(&String::from_str(".mit"));
    is_inside_dir(file, &storage, tree, dirs)
}

/// The mode under which a path is recorded: a directory, an executable file
/// or a plain file.
pub open spec fn file_mode(tree: &WorkTree, path: PathView) -> Seq<char> {
    if tree.is_dir(path) {
        "40000"@
    } else if tree.has_file(path) && tree.file_map()[path].executable {
        "100755"@
    } else {
        "100644"@
    }
}

/// The mode under which `path` is recorded.
pub fn get_file_mode(path: &Path, tree: &WorkTree) -> (mode: String)
    requires
        tree.wf(),
    ensures
        mode@ == file_mode(tree, path@),
{
    if tree.dir_exists(path) {
        String::from_str("40000")
    } else {
        match tree.file(path) {
            Some(file) => if file.executable {
                String::from_str("100755")
            } else {
                String::from_str("100644")
            },
            None => String::from_str("100644"),
        }
    }
}

/// Adds `path` to `out` unless it is there.
fn push_unique(out: &mut Vec<Path>, path: Path)
    requires
        path_seq(old(out)@).no_duplicates(),
    ensures
        path_seq(final(out)@).no_duplicates(),
        path_seq(final(out)@).to_set() == path_seq(old(out)@).to_set().insert(path@),
{
    let ghost before = path_seq(out@);
    let mut i: usize = 0;
    while i < out.len()
        invariant
            0 <= i <= out.len(),
            path_seq(out@) == before,
            before.no_duplicates(),
            forall|k: int| 0 <= k < i ==> before[k] != path@,
        decreases out.len() - i,
    {
        if out[i].same_as(&path) {
            assert(before[i as int] == path@);
            assert(before.to_set() =~= before.to_set().insert(path@));
            return ;
        }
        i += 1;
    }
    let ghost p = path@;
    out.push(path);
    assert(path_seq(out@) =~= before.push(p));
    proof {
        before.lemma_push_to_set_commute(p);
    }
}

/// Turns the paths a user gave into absolute paths of files: a directory
/// stands for the files that a listing of it reaches, any other path for
/// itself, whether or not it exists. No path comes twice.
pub fn integrate_paths(paths: &Vec<Path>, tree: &WorkTree, dirs: &Dirs) -> (files: Vec<Path>)
    requires
        tree.wf(),
        all_resolve(path_seq(paths@), dirs@.current),
    ensures
        path_seq(files@).no_duplicates(),
        forall|p: PathView|
            path_seq(files@).contains(p) <==> integrated(
                tree,
                path_seq(paths@),
                dirs@.current,
                p,
            ),
{
    let mut files: Vec<Path> = Vec::new();
    let mut i: usize = 0;
    assert(path_seq(files@) =~= Seq::empty());
    while i < paths.len()
        invariant
            0 <= i <= paths.len(),
            tree.wf(),
            all_resolve(path_seq(paths@), dirs@.current),
            path_seq(files@).no_duplicates(),
            path_seq(files@).to_set() == Set::new(
                |p: PathView| integrated(tree, path_seq(paths@).take(i as int), dirs@.current, p),
            ),
        decreases paths.len() - i,
    {
        let ghost before = path_seq(files@);
        let ghost done = path_seq(paths@).take(i as int);
        let ghost more = path_seq(paths@).take(i + 1);
        let ghost this = path_seq(paths@)[i as int];
        assert(resolves(this, dirs@.current));
        let abs = get_absolute_path(&paths[i], dirs);
        proof {
            assert(more =~= done.push(this));
            assert forall|p: PathView|
                integrated(tree, more, dirs@.current, p) <==> (integrated(
                    tree,
                    done,
                    dirs@.current,
                    p,
                ) || named_by(tree, this, dirs@.current, p)) by {
                if integrated(tree, more, dirs@.current, p) {
                    let k = choose|k: int|
                        0 <= k < more.len() && named_by(tree, #[trigger] more[k], dirs@.current, p);
                    if k < i {
                        assert(named_by(tree, done[k], dirs@.current, p));
                    }
                }
                if integrated(tree, done, dirs@.current, p) {
                    let k = choose|k: int|
                        0 <= k < done.len() && named_by(tree, #[trigger] done[k], dirs@.current, p);
                    assert(named_by(tree, more[k], dirs@.current, p));
                }
                if named_by(tree, this, dirs@.current, p) {
                    assert(named_by(tree, more[i as int], dirs@.current, p));
                }
            }
        }
        if tree.dir_exists(&abs) {
            let found = tree.list_files(&abs);
            let mut j: usize = 0;
            assert(path_seq(found@).take(0) =~= Seq::empty());
            assert(before.to_set() =~= before.to_set().union(Seq::<PathView>::empty().to_set()));
            while j < found.len()
                invariant
                    0 <= j <= found.len(),
                    path_seq(files@).no_duplicates(),
                    path_seq(files@).to_set() == before.to_set().union(
                        path_seq(found@).take(j as int).to_set(),
                    ),
                decreases found.len() - j,
            {
                let ghost so_far = path_seq(found@).take(j as int);
                proof {
                    assert(path_seq(found@).take(j + 1) =~= so_far.push(found@[j as int]@));
                    so_far.lemma_push_to_set_commute(found@[j as int]@);
                }
                push_unique(&mut files, found[j].clone());
                assert(path_seq(files@).to_set() =~= before.to_set().union(
                    path_seq(found@).take(j + 1).to_set(),
                ));
                j += 1;
            }
            proof {
                assert(path_seq(found@).take(j as int) =~= path_seq(found@));
                assert forall|p: PathView|
                    path_seq(found@).contains(p) <==> named_by(tree, this, dirs@.current, p) by {
                    let pred = |file: PathView| listed(file, abs@);
                    if path_seq(found@).contains(p) {
                        tree.files.keys().lemma_filter_contains_rev(pred, p);
                    }
                    if named_by(tree, this, dirs@.current, p) {
                        let k = tree.files.lemma_key_index(p);
                        tree.files.keys().lemma_filter_contains(pred, k);
                    }
                }
                assert(path_seq(files@).to_set() =~= Set::new(
                    |p: PathView| integrated(tree, more, dirs@.current, p),
                ));
            }
        } else {
            push_unique(&mut files, abs);
            assert(path_seq(files@).to_set() =~= Set::new(
                |p: PathView| integrated(tree, more, dirs@.current, p),
            ));
        }
        i += 1;
    }
    assert(path_seq(paths@).take(i as int) =~= path_seq(paths@));
    assert forall|p: PathView|
        path_seq(files@).contains(p) <==> integrated(
            tree,
            path_seq(paths@),
            dirs@.current,
            p,
        ) by {
        assert(path_seq(files@).to_set().contains(p) <==> path_seq(files@).contains(p));
    }
    files
}

/// No file lies below `dir`.
pub open spec fn deserted(tree: &WorkTree, dir: PathView) -> bool {
    forall|i: int| 0 <= i < tree.files.keys().len() ==> !below(#[trigger] tree.files.keys()[i], dir)
}

/// The directory that holds `path`.
pub open spec fn parent_of(path: PathView) -> PathView {
    PathView {
        absolute: path.absolute,
        parts: if path.parts.len() > 0 {
            path.parts.drop_last()
        } else {
            path.parts
        },
    }
}

/// The directories to remove from `dir` upwards after a file was deleted:
/// `dir` and the directories above it as far as no file lies below them.
/// The walk ends at the first directory that still holds a file, at the
/// working tree's root and at the current directory; those stay.
pub open spec fn emptied_from(
    tree: &WorkTree,
    dir: PathView,
    work: PathView,
    current: PathView,
) -> Seq<PathView>
    decreases dir.parts.len(),
{
    if dir.parts.len() == 0 || dir == work || dir == current || !deserted(tree, dir) {
        Seq::empty()
    } else {
        seq![dir] + emptied_from(tree, parent_of(dir), work, current)
    }
}

/// Neither the working tree's root nor the current directory is ever among
/// the directories to remove, and none of them holds a file.
pub proof fn emptied_dirs_are_deserted(
    tree: &WorkTree,
    dir: PathView,
    work: PathView,
    current: PathView,
)
    ensures
        !emptied_from(tree, dir, work, current).contains(work),
        !emptied_from(tree, dir, work, current).contains(current),
        forall|k: int|
            0 <= k < emptied_from(tree, dir, work, current).len() ==> deserted(
                tree,
                #[trigger] emptied_from(tree, dir, work, current)[k],
            ),
    decreases dir.parts.len(),
{
    if dir.parts.len() == 0 || dir == work || dir == current || !deserted(tree, dir) {
    } else {
        let above = emptied_from(tree, parent_of(dir), work, current);
        emptied_dirs_are_deserted(tree, parent_of(dir), work, current);
        let all = seq![dir] + above;
        assert forall|k: int| 0 <= k < all.len() implies deserted(tree, #[trigger] all[k]) && all[k]
            != work && all[k] != current by {
            if k > 0 {
                assert(all[k] == above[k - 1]);
            }
        }
    }
}

impl WorkTree {
    /// Whether no file lies below `dir`.
    pub fn holds_no_file(&self, dir: &Path) -> (yes: bool)
        ensures
            yes == deserted(self, dir@),
    {
        !self.dir_exists(dir)
    }
}

/// Whether `dir` is the current directory.
pub fn is_cur_dir(dir: &Path, dirs: &Dirs) -> (yes: bool)
    requires
        resolves(dir@, dirs@.current),
    ensures
        yes == (absolute_form(dir@, dirs@.current) == dirs@.current),
{
    get_absolute_path(dir, dirs).same_as(&dirs.current)
}

/// The directories to remove now that the file at `path` is deleted: the
/// directory that held it and those above, as far as they are left without
/// a file. The walk ends at the first directory that still holds a file;
/// the working tree's root and the current directory are never removed.
pub fn clear_empty_dir(path: &Path, tree: &WorkTree, dirs: &Dirs) -> (gone: Vec<Path>)
    ensures
        path_seq(gone@) == emptied_from(tree, parent_of(path@), dirs@.work, dirs@.current),
{
    let mut gone: Vec<Path> = Vec::new();
    let mut dir = path.parent();
    let ghost start = dir@;
    assert(path_seq(gone@) =~= Seq::empty());
    while dir.parts.len() > 0 && !dir.same_as(&dirs.work) && !dir.same_as(&dirs.current)
        && tree.holds_no_file(&dir)
        invariant
            emptied_from(tree, start, dirs@.work, dirs@.current) == path_seq(gone@) + emptied_from(
                tree,
                dir@,
                dirs@.work,
                dirs@.current,
            ),
        decreases dir@.parts.len(),
    {
        let ghost depth = dir@.parts.len();
        let ghost before = path_seq(gone@);
        let ghost rest = emptied_from(tree, parent_of(dir@), dirs@.work, dirs@.current);
        assert(depth == dir.parts.len());
        gone.push(dir.clone());
        assert(path_seq(gone@) =~= before.push(dir@));
        assert(before + (seq![dir@] + rest) =~= before.push(dir@) + rest);
        dir = dir.parent();
        assert(dir@.parts.len() == depth - 1);
    }
    assert(path_seq(gone@) + Seq::<PathView>::empty() =~= path_seq(gone@));
    gone
}

/// `dir` is to be removed after the step from `before` to `after`: a file
/// that is gone lay below it, and no file is left below it or, from that
/// file's directory upwards, on the way to it.
pub open spec fn is_emptied(
    before: &WorkTree,
    after: &WorkTree,
    dir: PathView,
    work: PathView,
    current: PathView,
) -> bool {
    exists|i: int|
        0 <= i < before.files.keys().len() && !after.has_file(#[trigger] before.files.keys()[i])
            && emptied_from(after, parent_of(before.files.keys()[i]), work, current).contains(dir)
}

/// The directories to remove on disk after a command: those that deletions
/// have left without a file. A directory that still holds a file, the
/// working tree's root and the current directory are never among them. No
/// directory comes twice.
pub fn emptied_dirs(before: &WorkTree, after: &WorkTree, dirs: &Dirs) -> (gone: Vec<Path>)
    ensures
        path_seq(gone@).no_duplicates(),
        forall|d: PathView|
            path_seq(gone@).contains(d) <==> is_emptied(
                before,
                after,
                d,
                dirs@.work,
                dirs@.current,
            ),
{
    let mut gone: Vec<Path> = Vec::new();
    let ghost keys = before.files.keys();
    let mut i: usize = 0;
    assert(path_seq(gone@) =~= Seq::empty());
    while i < before.files.entries.len()
        invariant
            0 <= i <= before.files.entries.len(),
            keys == before.files.keys(),
            path_seq(gone@).no_duplicates(),
            forall|d: PathView|
                path_seq(gone@).contains(d) <==> exists|k: int|
                    0 <= k < i && !after.has_file(#[trigger] keys[k]) && emptied_from(
                        after,
                        parent_of(keys[k]),
                        dirs@.work,
                        dirs@.current,
                    ).contains(d),
        decreases before.files.entries.len() - i,
    {
        let file = &before.files.entries[i].key;
        let ghost held = path_seq(gone@);
        assert(keys[i as int] == file@);
        if !after.file_exists(file) {
            let chain = clear_empty_dir(file, after, dirs);
            let ghost all = path_seq(chain@);
            let mut j: usize = 0;
            assert(all.take(0) =~= Seq::empty());
            assert(held.to_set() =~= held.to_set().union(Seq::<PathView>::empty().to_set()));
            while j < chain.len()
                invariant
                    0 <= j <= chain.len(),
                    all == path_seq(chain@),
                    path_seq(gone@).no_duplicates(),
                    path_seq(gone@).to_set() == held.to_set().union(all.take(j as int).to_set()),
                decreases chain.len() - j,
            {
                let ghost so_far = all.take(j as int);
                proof {
                    assert(all.take(j + 1) =~= so_far.push(all[j as int]));
                    so_far.lemma_push_to_set_commute(all[j as int]);
                }
                push_unique(&mut gone, chain[j].clone());
                assert(path_seq(gone@).to_set() =~= held.to_set().union(
                    all.take(j + 1).to_set(),
                ));
                j += 1;
            }
            proof {
                assert(all.take(j as int) =~= all);
                assert forall|d: PathView|
                    path_seq(gone@).contains(d) <==> exists|k: int|
                        0 <= k < i + 1 && !after.has_file(#[trigger] keys[k]) && emptied_from(
                            after,
                            parent_of(keys[k]),
                            dirs@.work,
                            dirs@.current,
                        ).contains(d) by {
                    assert(path_seq(gone@).to_set().contains(d) <==> path_seq(gone@).contains(d));
                    assert(held.to_set().contains(d) <==> held.contains(d));
                    assert(all.to_set().contains(d) <==> all.contains(d));
                    if held.contains(d) {
                        let k = choose|k: int|
                            0 <= k < i && !after.has_file(#[trigger] keys[k]) && emptied_from(
                                after,
                                parent_of(keys[k]),
                                dirs@.work,
                                dirs@.current,
                            ).contains(d);
                        assert(0 <= k < i + 1);
                    }
                    if all.contains(d) {
                        assert(!after.has_file(keys[i as int]));
                    }
                }
            }
        } else {
            assert forall|d: PathView|
                path_seq(gone@).contains(d) <==> exists|k: int|
                    0 <= k < i + 1 && !after.has_file(#[trigger] keys[k]) && emptied_from(
                        after,
                        parent_of(keys[k]),
                        dirs@.work,
                        dirs@.current,
                    ).contains(d) by {
                if path_seq(gone@).contains(d) {
                    let k = choose|k: int|
                        0 <= k < i && !after.has_file(#[trigger] keys[k]) && emptied_from(
                            after,
                            parent_of(keys[k]),
                            dirs@.work,
                            dirs@.current,
                        ).contains(d);
                    assert(0 <= k < i + 1);
                }
            }
        }
        i += 1;
    }
    gone
}

/// The files that are left when the directory `dir` is removed with all
/// that is below it.
pub open spec fn without_tree(files: Map<PathView, FileStateView>, dir: PathView) -> Map<
    PathView,
    FileStateView,
> {
    Map::new(|p: PathView| files.contains_key(p) && !below(p, dir), |p: PathView| files[p])
}

impl WorkTree {
    /// Removes the directory `dir` with every file below it.
    pub fn remove_dir_all(&mut self, dir: &Path)
        requires
            old(self).wf(),
        ensures
            final(self).wf(),
            final(self).file_map() == without_tree(old(self).file_map(), dir@),
    {
        let ghost first = self.file_map();
        let mut doomed: Vec<Path> = Vec::new();
        let mut i: usize = 0;
        while i < self.files.entries.len()
            invariant
                0 <= i <= self.files.entries.len(),
                *self == *old(self),
                forall|k: int| 0 <= k < doomed.len() ==> below(#[trigger] path_seq(doomed@)[k], dir@),
                forall|k: int|
                    0 <= k < i && below(#[trigger] self.files.keys()[k], dir@) ==> path_seq(
                        doomed@,
                    ).contains(self.files.keys()[k]),
            decreases self.files.entries.len() - i,
        {
            let file = &self.files.entries[i].key;
            let ghost before = path_seq(doomed@);
            if file.starts_with(dir) && file.parts.len() > dir.parts.len() {
                doomed.push(file.clone());
                assert(path_seq(doomed@) =~= before.push(file@));
                assert(path_seq(doomed@)[before.len() as int] == file@);
            }
            assert forall|k: int|
                0 <= k < i + 1 && below(#[trigger] self.files.keys()[k], dir@) implies path_seq(
                doomed@,
            ).contains(self.files.keys()[k]) by {
                if k < i {
                    let at = choose|at: int|
                        0 <= at < before.len() && before[at] == self.files.keys()[k];
                    assert(path_seq(doomed@)[at] == self.files.keys()[k]);
                }
            }
            i += 1;
        }
        let ghost gone = path_seq(doomed@);
        let mut j: usize = 0;
        assert(self.file_map() =~= Map::new(
            |p: PathView| first.contains_key(p) && !gone.take(0).contains(p),
            |p: PathView| first[p],
        ));
        while j < doomed.len()
            invariant
                0 <= j <= doomed.len(),
                self.wf(),
                gone == path_seq(doomed@),
                first == old(self).file_map(),
                self.file_map() == Map::new(
                    |p: PathView| first.contains_key(p) && !gone.take(j as int).contains(p),
                    |p: PathView| first[p],
                ),
            decreases doomed.len() - j,
        {
            let ghost done = gone.take(j as int);
            let ghost more = gone.take(j + 1);
            proof {
                assert(more =~= done.push(gone[j as int]));
                assert forall|p: PathView| more.contains(p) <==> (done.contains(p) || p
                    == gone[j as int]) by {
                    if done.contains(p) {
                        let k = choose|k: int| 0 <= k < done.len() && done[k] == p;
                        assert(more[k] == p);
                    }
                    if p == gone[j as int] {
                        assert(more[j as int] == p);
                    }
                }
            }
            self.remove_file(&doomed[j]);
            assert(self.file_map() =~= Map::new(
                |p: PathView| first.contains_key(p) && !more.contains(p),
                |p: PathView| first[p],
            ));
            j += 1;
        }
        proof {
            assert(gone.take(j as int) =~= gone);
            assert forall|p: PathView| first.contains_key(p) implies (gone.contains(p) <==> below(
                p,
                dir@,
            )) by {
                if below(p, dir@) {
                    let k = old(self).files.lemma_key_index(p);
                    assert(below(old(self).files.keys()[k], dir@));
                }
                if gone.contains(p) {
                    let k = choose|k: int| 0 <= k < gone.len() && gone[k] == p;
                    assert(below(gone[k], dir@));
                }
            }
            assert(self.file_map() =~= without_tree(first, dir@));
        }
    }
}

/// The files that a listing of `path` reaches.
pub fn list_files(path: &Path, tree: &WorkTree) -> (files: Vec<Path>)
    ensures
        path_seq(files@) == tree.listing(path@),
{
    tree.list_files(path)
}

/// Whether nothing lies below `dir`.
pub fn is_empty_dir(dir: &Path, tree: &WorkTree) -> (yes: bool)
    ensures
        yes == deserted(tree, dir@),
{
    tree.holds_no_file(dir)
}

/// Writes `contents` to the file at `path`; the directories above the file
/// come with it.
pub fn write(path: &Path, contents: String, tree: &mut WorkTree, now: Timestamp)
    requires
        old(tree).wf(),
        canonical(path@),
    ensures
        final(tree).wf(),
        final(tree).file_map() == old(tree).file_map().insert(
            path@,
            written(
                if old(tree).has_file(path@) {
                    Some(old(tree).file_map()[path@])
                } else {
                    None
                },
                contents@,
                now,
            ),
        ),
{
    tree.write_file(path, contents, now);
}

/// The working tree's root.
pub fn get_working_dir(dirs: &Dirs) -> (dir: Path)
    ensures
        dir@ == dirs@.work,
{
    dirs.work.clone()
}

/// The current directory.
pub fn cur_dir(dirs: &Dirs) -> (dir: Path)
    ensures
        dir@ == dirs@.current,
{
    dirs.current.clone()
}

/// `dir` holds a repository: something named like a repository's own
/// directory lies directly in it.
pub open spec fn holds_repo(tree: &WorkTree, dir: PathView) -> bool {
    tree.has_file(repo_dir(dir)) || tree.is_dir(repo_dir(dir))
}

/// Whether `dir` holds a repository.
pub fn include_root_dir(dir: &Path, tree: &WorkTree) -> (yes: bool)
    ensures
        yes == holds_repo(tree, dir@),
{
    let marked = dir.join(&String::from_str(".mit"));
    tree.file_exists(&marked) || tree.dir_exists(&marked)
}

/// The first `n` segments of a path.
pub open spec fn ancestor(path: PathView, n: int) -> PathView {
    PathView { absolute: path.absolute, parts: path.parts.take(n) }
}

/// How many segments the nearest directory at or above `dir` has that holds
/// a repository, looking no higher than `n` segments; nothing where there is
/// none.
pub open spec fn nearest_repo(tree: &WorkTree, dir: PathView, n: nat) -> Option<nat>
    decreases dir.parts.len() + 1 - n,
{
    if n > dir.parts.len() {
        None
    } else {
        match nearest_repo(tree, dir, n + 1) {
            Some(deeper) => Some(deeper),
            None => if holds_repo(tree, ancestor(dir, n as int)) {
                Some(n)
            } else {
                None
            },
        }
    }
}

/// Finds the repository that `current` belongs to: the repository's own
/// directory in the nearest directory, at or above `current`, that holds
/// one.
pub fn get_storage_path(current: &Path, tree: &WorkTree) -> (found: Option<Path>)
    ensures
        match found {
            Some(storage) => nearest_repo(tree, current@, 0) is Some && storage@ == repo_dir(
                ancestor(current@, nearest_repo(tree, current@, 0).unwrap() as int),
            ),
            None => nearest_repo(tree, current@, 0).is_none(),
        },
{
    let mut dir = current.clone();
    let ghost all = current@;
    assert(all.parts.take(all.parts.len() as int) =~= all.parts);
    loop
        invariant
            all == current@,
            dir@.parts.len() <= all.parts.len(),
            dir@ == ancestor(all, dir@.parts.len() as int),
            nearest_repo(tree, all, dir@.parts.len() + 1).is_none(),
        decreases dir.parts.len(),
    {
        let ghost n = dir@.parts.len();
        if include_root_dir(&dir, tree) {
            proof {
                lemma_nearest_found(tree, all, n, 0);
            }
            return Some(dir.join(&String::from_str(".mit")));
        }
        if dir.parts.len() == 0 {
            proof {
                lemma_nearest_none(tree, all, 0);
            }
            return None;
        }
        assert(all.parts.take(n as int).drop_last() =~= all.parts.take(n - 1));
        dir = dir.parent();
    }
}

/// Where the search from `n` segments finds a repository, the search from
/// fewer segments finds the same.
proof fn lemma_nearest_found(tree: &WorkTree, dir: PathView, n: nat, from: nat)
    requires
        from <= n <= dir.parts.len(),
        nearest_repo(tree, dir, n + 1).is_none(),
        holds_repo(tree, ancestor(dir, n as int)),
    ensures
        nearest_repo(tree, dir, from) == Some(n),
    decreases n - from,
{
    if from < n {
        lemma_nearest_found(tree, dir, n, from + 1);
    }
}

proof fn lemma_nearest_none(tree: &WorkTree, dir: PathView, n: nat)
    requires
        n <= dir.parts.len(),
        nearest_repo(tree, dir, n + 1).is_none(),
        !holds_repo(tree, ancestor(dir, n as int)),
    ensures
        nearest_repo(tree, dir, n).is_none(),
{
}

/// Whether `current` belongs to a repository.
pub fn storage_exist(current: &Path, tree: &WorkTree) -> (yes: bool)
    ensures
        yes == nearest_repo(tree, current@, 0).is_some(),
{
    get_storage_path(current, tree).is_some()
}

/// The hash of the content of the file at `path`.
pub fn calc_file_hash(path: &Path, tree: &WorkTree) -> (hash: String)
    requires
        tree.wf(),
        tree.has_file(path@),
    ensures
        hash@ == crate::hash::content_hash(tree.file_map()[path@].content),
{
    match tree.file(path) {
        Some(file) => crate::hash::calc_hash(&file.content),
        None => String::new(),
    }
}

} // verus!
