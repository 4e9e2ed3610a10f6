//! The staging area: what is slated for the next commit, by absolute path.

use crate::blob::Blob;
use crate::path::{
    absolute_form, all_canonical, canonical, canonical_form, canonical_is_fixed, canonical_path,
    canonicalizable, checked_canonical_path, get_absolute_path, lemma_resolve_plain, path_seq,
    relative_form, relative_path_reads_back, resolves, starts_with, to_workdir_relative_path, Dirs,
    DirsView, Path, PathView,
};
use crate::table::{Entry, Table};
use crate::worktree::{file_mode, get_file_mode, Timestamp, WorkTree};
use vstd::prelude::*;
use vstd::utf8::encode_utf8;

verus! {

/// What the staging area records of a file: the hash of its content, and a
/// fingerprint of its size and times that tells cheaply whether the file may
/// have changed.
#[derive(Debug)]
pub struct FileMetaData {
    pub hash: String,
    pub size: u64,
    pub created_time: Timestamp,
    pub modified_time: Timestamp,
    pub mode: String,
}

/// What a `FileMetaData` stands for in specifications.
pub struct FileMetaDataView {
    pub hash: Seq<char>,
    pub size: u64,
    pub created_time: Timestamp,
    pub modified_time: Timestamp,
    pub mode: Seq<char>,
}

impl View for FileMetaData {
    type V = FileMetaDataView;

    open spec fn view(&self) -> FileMetaDataView {
        FileMetaDataView {
            hash: self.hash@,
            size: self.size,
            created_time: self.created_time,
            modified_time: self.modified_time,
            mode: self.mode@,
        }
    }
}

impl Clone for FileMetaData {
    fn clone(&self) -> (copy: FileMetaData)
        ensures
            copy@ == self@,
    {
        FileMetaData {
            hash: self.hash.clone(),
            size: self.size,
            created_time: self.created_time,
            modified_time: self.modified_time,
            mode: self.mode.clone(),
        }
    }
}

/// The size of a text on disk, in bytes.
pub open spec fn byte_size(content: Seq<char>) -> u64 {
    encode_utf8(content).len() as u64
}

/// The record of the file at `path` with content hash `hash`.
pub open spec fn record_of(hash: Seq<char>, tree: &WorkTree, path: PathView) -> FileMetaDataView {
    FileMetaDataView {
        hash,
        size: byte_size(tree.file_map()[path].content),
        created_time: tree.file_map()[path].created,
        modified_time: tree.file_map()[path].modified,
        mode: file_mode(tree, path),
    }
}

/// The record that stands in for a file which was staged without being
/// looked at: only the hash is known, the times are the time of staging.
pub open spec fn bare_record(hash: Seq<char>, now: Timestamp) -> FileMetaDataView {
    FileMetaDataView {
        hash,
        size: 0,
        created_time: now,
        modified_time: now,
        mode: Seq::empty(),
    }
}

impl FileMetaData {
    /// The record of the file at `file`, whose content is `blob`.
    pub fn new(blob: &Blob, file: &Path, tree: &WorkTree) -> (meta: FileMetaData)
        requires
            tree.wf(),
            tree.has_file(file@),
        ensures
            meta@ == record_of(blob@.hash, tree, file@),
    {
        let mode = get_file_mode(file, tree);
        match tree.file(file) {
            Some(state) => FileMetaData {
                hash: blob.get_hash(),
                size: state.content.as_str().as_bytes().len() as u64,
                created_time: state.created,
                modified_time: state.modified,
                mode,
            },
            None => FileMetaData::bare(blob.get_hash(), Timestamp { secs: 0, nanos: 0 }),
        }
    }

    /// A record of which only the hash is known, made at time `now`.
    pub fn bare(hash: String, now: Timestamp) -> (meta: FileMetaData)
        ensures
            meta@ == bare_record(hash@, now),
    {
        FileMetaData {
            hash,
            size: 0,
            created_time: now,
            modified_time: now,
            mode: String::new(),
        }
    }
}

/// The staging area.
pub struct Index {
    /// The records, by absolute path.
    pub entries: Table<Path, FileMetaData>,
    /// The working tree's root, to which stored paths are relative, and the
    /// directory from which relative paths are read.
    pub dirs: Dirs,
}

impl View for Index {
    type V = Map<PathView, FileMetaDataView>;

    open spec fn view(&self) -> Map<PathView, FileMetaDataView> {
        self.entries.map()
    }
}

/// The fingerprint of a record differs from the file's.
pub open spec fn fingerprint_differs(meta: FileMetaDataView, tree: &WorkTree, path: PathView)
    -> bool {
    let file = tree.file_map()[path];
    meta.created_time != file.created || meta.modified_time != file.modified || meta.size
        != byte_size(file.content)
}

/// The file at `path` may have been edited since it was staged: it is not
/// tracked, it is gone, or its fingerprint differs from the record.
pub open spec fn possibly_modified(
    index: Map<PathView, FileMetaDataView>,
    tree: &WorkTree,
    path: PathView,
) -> bool {
    !index.contains_key(path) || !tree.has_file(path) || fingerprint_differs(
        index[path],
        tree,
        path,
    )
}

/// The hash on record for `path` is `hash`; a path without a record has the
/// empty hash.
pub open spec fn hash_matches(
    index: Map<PathView, FileMetaDataView>,
    path: PathView,
    hash: Seq<char>,
) -> bool {
    if index.contains_key(path) {
        index[path].hash == hash
    } else {
        hash.len() == 0
    }
}

impl Index {
    /// No path is recorded twice, every recorded path is canonical, and the
    /// directories are in order.
    pub open spec fn wf(&self) -> bool {
        &&& self.entries.wf()
        &&& self.dirs@.wf()
        &&& all_canonical(self.entries.keys())
    }

    /// The tracked paths, in the order in which they were first staged.
    pub open spec fn tracked_paths(&self) -> Seq<PathView> {
        self.entries.keys()
    }

    /// The path under which `path` is recorded.
    pub open spec fn key_of(&self, path: PathView) -> PathView {
        canonical_form(path, self.dirs@.current)
    }

    /// `path` can be looked up: it has a canonical form.
    pub open spec fn accepts(&self, path: PathView) -> bool {
        canonicalizable(path, self.dirs@.current)
    }

    /// An empty staging area.
    pub fn new(dirs: Dirs) -> (index: Index)
        requires
            dirs@.wf(),
        ensures
            index.wf(),
            index.dirs@ == dirs@,
            index@ == Map::<PathView, FileMetaDataView>::empty(),
            index.tracked_paths() == Seq::<PathView>::empty(),
    {
        Index { entries: Table::new(), dirs }
    }

    /// Brings a path into the form under which it is recorded: absolute,
    /// without `..` and `.`.
    pub fn preprocess(&self, path: &Path) -> (key: Path)
        requires
            self.dirs@.wf(),
            self.accepts(path@),
        ensures
            key@ == self.key_of(path@),
            canonical(key@),
    {
        proof {
            lemma_resolve_plain(crate::path::anchor(path@, self.dirs@.current), path@.parts);
        }
        canonical_path(path, &self.dirs.current)
    }

    /// Records `data` for `path`, over any record that is there.
    pub fn add(&mut self, path: Path, data: FileMetaData)
        requires
            old(self).wf(),
            old(self).accepts(path@),
        ensures
            final(self).wf(),
            final(self).dirs@ == old(self).dirs@,
            final(self)@ == old(self)@.insert(old(self).key_of(path@), data@),
            old(self)@.contains_key(old(self).key_of(path@)) ==> final(self).tracked_paths()
                == old(self).tracked_paths(),
            !old(self)@.contains_key(old(self).key_of(path@)) ==> final(self).tracked_paths()
                == old(self).tracked_paths().push(old(self).key_of(path@)),
    {
        let key = self.preprocess(&path);
        self.entries.insert(key, data);
    }

    /// Records `data` for `path`; the same as `add`.
    pub fn update(&mut self, path: Path, data: FileMetaData)
        requires
            old(self).wf(),
            old(self).accepts(path@),
        ensures
            final(self).wf(),
            final(self).dirs@ == old(self).dirs@,
            final(self)@ == old(self)@.insert(old(self).key_of(path@), data@),
            old(self)@.contains_key(old(self).key_of(path@)) ==> final(self).tracked_paths()
                == old(self).tracked_paths(),
            !old(self)@.contains_key(old(self).key_of(path@)) ==> final(self).tracked_paths()
                == old(self).tracked_paths().push(old(self).key_of(path@)),
    {
        self.add(path, data);
    }

    /// Takes the record of `path` out; a path without one changes nothing.
    pub fn remove(&mut self, path: &Path)
        requires
            old(self).wf(),
            old(self).accepts(path@),
        ensures
            final(self).wf(),
            final(self).dirs@ == old(self).dirs@,
            final(self)@ == old(self)@.remove(old(self).key_of(path@)),
            final(self).tracked_paths() == if old(self)@.contains_key(old(self).key_of(path@)) {
                old(self).tracked_paths().remove(
                    old(self).tracked_paths().index_of(old(self).key_of(path@)),
                )
            } else {
                old(self).tracked_paths()
            },
    {
        let key = self.preprocess(path);
        let ghost before = self.entries.keys();
        self.entries.remove(&key);
        proof {
            if before.contains(key@) {
                let at = before.index_of(key@);
                assert forall|i: int| 0 <= i < self.entries.keys().len() implies canonical(
                    #[trigger] self.entries.keys()[i],
                ) by {
                    let j = if i < at { i } else { i + 1 };
                    assert(self.entries.keys()[i] == before[j]);
                }
            }
        }
    }

    /// The record of `path`.
    pub fn get(&self, path: &Path) -> (found: Option<FileMetaData>)
        requires
            self.wf(),
            self.accepts(path@),
        ensures
            match found {
                Some(meta) => self@.contains_key(self.key_of(path@)) && self@[self.key_of(path@)]
                    == meta@,
                None => !self@.contains_key(self.key_of(path@)),
            },
    {
        let key = self.preprocess(path);
        match self.entries.get(&key) {
            Some(meta) => Some(meta.clone()),
            None => None,
        }
    }

    /// The hash on record for `file`.
    pub fn get_hash(&self, file: &Path) -> (found: Option<String>)
        requires
            self.wf(),
            self.accepts(file@),
        ensures
            match found {
                Some(hash) => self@.contains_key(self.key_of(file@)) && self@[self.key_of(
                    file@,
                )].hash == hash@,
                None => !self@.contains_key(self.key_of(file@)),
            },
    {
        match self.get(file) {
            Some(meta) => Some(meta.hash),
            None => None,
        }
    }

    /// Whether the hash on record for `file` is `hash`. This is what tells a
    /// changed fingerprint with the same content from a real change.
    pub fn verify_hash(&self, file: &Path, hash: &String) -> (same: bool)
        requires
            self.wf(),
            self.accepts(file@),
        ensures
            same == hash_matches(self@, self.key_of(file@), hash@),
    {
        match self.get_hash(file) {
            Some(recorded) => recorded == *hash,
            None => hash.as_str().unicode_len() == 0,
        }
    }

    /// Whether `path` is tracked.
    pub fn contains(&self, path: &Path) -> (yes: bool)
        requires
            self.dirs@.wf(),
            self.accepts(path@),
        ensures
            yes == self@.contains_key(self.key_of(path@)),
    {
        let key = self.preprocess(path);
        self.entries.contains(&key)
    }

    /// Whether `path` is tracked; the same test as `contains`.
    pub fn is_tracked(&self, path: &Path) -> (yes: bool)
        requires
            self.dirs@.wf(),
            self.accepts(path@),
        ensures
            yes == self@.contains_key(self.key_of(path@)),
    {
        self.contains(path)
    }

    /// The tracked paths at or below `dir` at which no file is left.
    pub fn get_deleted_files(&self, dir: &Path, tree: &WorkTree) -> (files: Vec<Path>)
        requires
            self.wf(),
            resolves(dir@, self.dirs@.current),
        ensures
            path_seq(files@) == self.tracked_paths().filter(
                |p: PathView|
                    !tree.has_file(p) && starts_with(p, absolute_form(dir@, self.dirs@.current)),
            ),
    {
        let mut files: Vec<Path> = Vec::new();
        let ghost pred = |p: PathView|
            !tree.has_file(p) && starts_with(p, absolute_form(dir@, self.dirs@.current));
        let abs_dir = get_absolute_path(dir, &self.dirs);
        let mut i: usize = 0;
        assert(self.tracked_paths().take(0) =~= Seq::empty());
        assert(path_seq(files@) =~= Seq::empty());
        while i < self.entries.entries.len()
            invariant
                0 <= i <= self.entries.entries.len(),
                abs_dir@ == absolute_form(dir@, self.dirs@.current),
                pred == |p: PathView|
                    !tree.has_file(p) && starts_with(p, absolute_form(dir@, self.dirs@.current)),
                path_seq(files@) == self.tracked_paths().take(i as int).filter(pred),
            decreases self.entries.entries.len() - i,
        {
            let ghost before = path_seq(files@);
            let file = &self.entries.entries[i].key;
            proof {
                let prefix = self.tracked_paths().take(i as int);
                assert(self.tracked_paths().take(i + 1) =~= prefix.push(file@));
                prefix.lemma_filter_push(file@, pred);
            }
            if !tree.file_exists(file) && file.starts_with(&abs_dir) {
                files.push(file.clone());
                assert(path_seq(files@) =~= before.push(file@));
            }
            i += 1;
        }
        assert(self.tracked_paths().take(i as int) =~= self.tracked_paths());
        files
    }

    /// Whether `file` may have been edited since it was staged: whether it
    /// is untracked or gone, or its size or times differ from the record.
    /// Only a comparison of hashes tells whether the content changed.
    pub fn is_modified(&self, file: &Path, tree: &WorkTree) -> (yes: bool)
        requires
            self.wf(),
            tree.wf(),
            self.accepts(file@),
        ensures
            yes == possibly_modified(self@, tree, self.key_of(file@)),
    {
        let key = self.preprocess(file);
        match self.entries.get(&key) {
            Some(meta) => match tree.file(&key) {
                Some(state) => {
                    let size = state.content.as_str().as_bytes().len() as u64;
                    let same = meta.created_time == state.created && meta.modified_time
                        == state.modified && meta.size == size;
                    !same
                },
                None => true,
            },
            None => true,
        }
    }

    /// The tracked paths, whether or not a file is left at them.
    pub fn get_tracked_files(&self) -> (files: Vec<Path>)
        ensures
            path_seq(files@) == self.tracked_paths(),
    {
        let mut files: Vec<Path> = Vec::new();
        let mut i: usize = 0;
        assert(path_seq(files@) =~= self.tracked_paths().take(0));
        while i < self.entries.entries.len()
            invariant
                0 <= i <= self.entries.entries.len(),
                path_seq(files@) == self.tracked_paths().take(i as int),
            decreases self.entries.entries.len() - i,
        {
            let ghost before = path_seq(files@);
            files.push(self.entries.entries[i].key.clone());
            assert(path_seq(files@) =~= before.push(self.tracked_paths()[i as int]));
            assert(self.tracked_paths().take(i + 1) =~= before.push(self.tracked_paths()[i as int]));
            i += 1;
        }
        assert(self.tracked_paths().take(i as int) =~= self.tracked_paths());
        files
    }

    /// A copy of the records, in the staging area's order.
    pub fn get_tracked_entries(&self) -> (copy: Table<Path, FileMetaData>)
        ensures
            copy.keys() == self.entries.keys(),
            copy.values() == self.entries.values(),
    {
        let mut entries: Vec<Entry<Path, FileMetaData>> = Vec::new();
        let mut i: usize = 0;
        while i < self.entries.entries.len()
            invariant
                0 <= i <= self.entries.entries.len(),
                entries.len() == i,
                forall|k: int|
                    0 <= k < i ==> entries@[k].key@ == self.entries.entries@[k].key@
                        && entries@[k].value@ == self.entries.entries@[k].value@,
            decreases self.entries.entries.len() - i,
        {
            let entry = &self.entries.entries[i];
            entries.push(Entry { key: entry.key.clone(), value: entry.value.clone() });
            i += 1;
        }
        let copy = Table { entries };
        assert(copy.keys() =~= self.entries.keys());
        assert(copy.values() =~= self.entries.values());
        copy
    }

    /// Whether nothing is tracked.
    pub fn is_empty(&self) -> (yes: bool)
        ensures
            yes == (self.tracked_paths().len() == 0),
    {
        self.entries.len() == 0
    }

    /// Where the staging area is kept: the file `index` in the repository's
    /// own directory.
    pub fn get_path(&self) -> (path: Path)
        ensures
            path@ == (PathView {
                absolute: self.dirs@.work.absolute,
                parts: self.dirs@.work.parts.push(".mit"@).push("index"@),
            }),
    {
        let dir = self.dirs.work.join(&String::from_str(".mit"));
        dir.join(&String::from_str("index"))
    }
}

/// The staging area as it is kept on disk: the records in order, each with
/// its path relative to the working tree's root, so that the file stays
/// valid where the working tree is moved.
pub struct SavedIndex {
    pub entries: Vec<Entry<Path, FileMetaData>>,
}

impl SavedIndex {
    /// The paths in order.
    pub open spec fn paths(&self) -> Seq<PathView> {
        Seq::new(self.entries@.len(), |i: int| self.entries@[i].key@)
    }

    /// The records in order.
    pub open spec fn records(&self) -> Seq<FileMetaDataView> {
        Seq::new(self.entries@.len(), |i: int| self.entries@[i].value@)
    }
}

/// The staging area that the first `n` saved records give when they are
/// read in a working tree at `work`: each path is read from `work`, and a
/// path that comes again replaces the earlier record.
pub open spec fn loaded(
    paths: Seq<PathView>,
    records: Seq<FileMetaDataView>,
    n: nat,
    work: PathView,
) -> Map<PathView, FileMetaDataView>
    decreases n,
{
    if n == 0 {
        Map::empty()
    } else {
        loaded(paths, records, (n - 1) as nat, work).insert(
            canonical_form(paths[n - 1], work),
            records[n - 1],
        )
    }
}

/// The staged paths that the first `n` saved records give, in the order in
/// which the records first name them.
pub open spec fn loaded_paths(
    paths: Seq<PathView>,
    records: Seq<FileMetaDataView>,
    n: nat,
    work: PathView,
) -> Seq<PathView>
    decreases n,
{
    if n == 0 {
        Seq::empty()
    } else if loaded(paths, records, (n - 1) as nat, work).contains_key(
        canonical_form(paths[n - 1], work),
    ) {
        loaded_paths(paths, records, (n - 1) as nat, work)
    } else {
        loaded_paths(paths, records, (n - 1) as nat, work).push(canonical_form(paths[n - 1], work))
    }
}

/// Every saved path can be read from `work`.
pub open spec fn loadable(paths: Seq<PathView>, work: PathView) -> bool {
    forall|i: int| 0 <= i < paths.len() ==> canonicalizable(#[trigger] paths[i], work)
}

impl Index {
    /// The staging area in the form in which it is kept: every path written
    /// relative to the working tree's root.
    pub fn save(&self) -> (saved: SavedIndex)
        requires
            self.wf(),
        ensures
            saved.paths() == crate::path::relative_seq(self.tracked_paths(), self.dirs@.work),
            saved.records() == self.entries.values(),
    {
        let mut entries: Vec<Entry<Path, FileMetaData>> = Vec::new();
        let mut i: usize = 0;
        while i < self.entries.entries.len()
            invariant
                0 <= i <= self.entries.entries.len(),
                self.wf(),
                entries.len() == i,
                forall|k: int|
                    0 <= k < i ==> entries@[k].key@ == relative_form(
                        self.entries.entries@[k].key@,
                        self.dirs@.work,
                    ) && entries@[k].value@ == self.entries.entries@[k].value@,
            decreases self.entries.entries.len() - i,
        {
            let entry = &self.entries.entries[i];
            proof {
                assert(canonical(self.entries.keys()[i as int]));
                canonical_is_fixed(entry.key@, self.dirs@.current);
            }
            let rel = to_workdir_relative_path(&entry.key, &self.dirs);
            entries.push(Entry { key: rel, value: entry.value.clone() });
            i += 1;
        }
        let saved = SavedIndex { entries };
        assert(saved.paths() =~= crate::path::relative_seq(
            self.tracked_paths(),
            self.dirs@.work,
        ));
        assert(saved.records() =~= self.entries.values());
        saved
    }

    /// Reads a staging area that was kept, in a working tree at `dirs`.
    /// A path that cannot be read from the working tree's root spoils the
    /// whole.
    pub fn load(dirs: Dirs, saved: &SavedIndex) -> (index: Option<Index>)
        requires
            dirs@.wf(),
        ensures
            index.is_some() == loadable(saved.paths(), dirs@.work),
            index matches Some(found) ==> {
                &&& found.wf()
                &&& found.dirs@ == dirs@
                &&& found@ == loaded(
                    saved.paths(),
                    saved.records(),
                    saved.paths().len(),
                    dirs@.work,
                )
                &&& found.tracked_paths() == loaded_paths(
                    saved.paths(),
                    saved.records(),
                    saved.paths().len(),
                    dirs@.work,
                )
            },
    {
        let mut index = Index::new(dirs);
        let mut i: usize = 0;
        while i < saved.entries.len()
            invariant
                0 <= i <= saved.entries.len(),
                index.wf(),
                index.dirs@ == dirs@,
                forall|k: int|
                    0 <= k < i ==> canonicalizable(#[trigger] saved.paths()[k], dirs@.work),
                index@ == loaded(saved.paths(), saved.records(), i as nat, dirs@.work),
                index.tracked_paths() == loaded_paths(
                    saved.paths(),
                    saved.records(),
                    i as nat,
                    dirs@.work,
                ),
            decreases saved.entries.len() - i,
        {
            let entry = &saved.entries[i];
            assert(saved.paths()[i as int] == entry.key@);
            assert(saved.records()[i as int] == entry.value@);
            let key = match checked_canonical_path(&entry.key, &index.dirs.work) {
                Some(key) => key,
                None => {
                    return None;
                },
            };
            proof {
                lemma_resolve_plain(
                    crate::path::anchor(entry.key@, dirs@.work),
                    entry.key@.parts,
                );
                canonical_is_fixed(key@, dirs@.current);
            }
            index.add(key, entry.value.clone());
            i += 1;
        }
        Some(index)
    }
}

impl Index {
    /// Replaces what is staged by a staging area that was kept. Where that
    /// cannot be read, nothing changes.
    pub fn reload(&mut self, saved: &SavedIndex) -> (done: bool)
        requires
            old(self).wf(),
        ensures
            final(self).wf(),
            final(self).dirs@ == old(self).dirs@,
            done == loadable(saved.paths(), old(self).dirs@.work),
            final(self)@ == if done {
                loaded(saved.paths(), saved.records(), saved.paths().len(), old(self).dirs@.work)
            } else {
                old(self)@
            },
            final(self).tracked_paths() == if done {
                loaded_paths(
                    saved.paths(),
                    saved.records(),
                    saved.paths().len(),
                    old(self).dirs@.work,
                )
            } else {
                old(self).tracked_paths()
            },
    {
        match Index::load(self.dirs.clone(), saved) {
            Some(fresh) => {
                self.entries = fresh.entries;
                true
            },
            None => false,
        }
    }
}

/// A staging area that was saved and is loaded again, in the same working
/// tree, holds what it held, in the same order.
pub proof fn saved_index_loads_back(index: &Index, saved: &SavedIndex)
    requires
        index.wf(),
        saved.paths() == crate::path::relative_seq(index.tracked_paths(), index.dirs@.work),
        saved.records() == index.entries.values(),
    ensures
        loadable(saved.paths(), index.dirs@.work),
        loaded(saved.paths(), saved.records(), saved.paths().len(), index.dirs@.work) == index@,
        loaded_paths(saved.paths(), saved.records(), saved.paths().len(), index.dirs@.work)
            == index.tracked_paths(),
{
    let work = index.dirs@.work;
    let keys = index.tracked_paths();
    assert forall|i: int| 0 <= i < keys.len() implies canonicalizable(
        #[trigger] saved.paths()[i],
        work,
    ) && canonical_form(saved.paths()[i], work) == keys[i] by {
        assert(canonical(keys[i]));
        relative_path_reads_back(keys[i], work);
    }
    lemma_loaded_prefix(index, saved, keys.len());
    assert(keys.take(keys.len() as int) =~= keys);
    assert(loaded(saved.paths(), saved.records(), keys.len(), work) =~= index@) by {
        assert forall|p: PathView| index@.contains_key(p) implies keys.take(
            keys.len() as int,
        ).contains(p) by {
            let k = index.entries.lemma_key_index(p);
            assert(keys.take(keys.len() as int)[k] == p);
        }
        assert forall|p: PathView| keys.take(keys.len() as int).contains(p) implies index@.contains_key(
            p,
        ) && index@[p] == index.entries.values()[keys.index_of(p)] by {
            let k = choose|k: int| 0 <= k < keys.len() && keys.take(keys.len() as int)[k] == p;
            index.entries.lemma_entry(k);
        }
    }
}

/// What the first `n` saved records give: the first `n` records of the
/// staging area they were saved from.
proof fn lemma_loaded_prefix(index: &Index, saved: &SavedIndex, n: nat)
    requires
        index.wf(),
        n <= index.tracked_paths().len(),
        saved.paths().len() == index.tracked_paths().len(),
        saved.records() == index.entries.values(),
        forall|i: int|
            0 <= i < index.tracked_paths().len() ==> canonical_form(
                #[trigger] saved.paths()[i],
                index.dirs@.work,
            ) == index.tracked_paths()[i],
    ensures
        loaded(saved.paths(), saved.records(), n, index.dirs@.work) == Map::new(
            |p: PathView| index.tracked_paths().take(n as int).contains(p),
            |p: PathView| index.entries.values()[index.tracked_paths().index_of(p)],
        ),
        loaded_paths(saved.paths(), saved.records(), n, index.dirs@.work)
            == index.tracked_paths().take(n as int),
    decreases n,
{
    let keys = index.tracked_paths();
    let work = index.dirs@.work;
    let goal = Map::new(
        |p: PathView| keys.take(n as int).contains(p),
        |p: PathView| index.entries.values()[keys.index_of(p)],
    );
    if n == 0 {
        assert(loaded(saved.paths(), saved.records(), n, work) =~= goal);
        assert(keys.take(0) =~= Seq::empty());
    } else {
        lemma_loaded_prefix(index, saved, (n - 1) as nat);
        let fewer = keys.take(n - 1);
        let more = keys.take(n as int);
        assert(more =~= fewer.push(keys[n - 1]));
        assert forall|p: PathView| more.contains(p) <==> (fewer.contains(p) || p == keys[n - 1]) by {
            if fewer.contains(p) {
                let k = choose|k: int| 0 <= k < fewer.len() && fewer[k] == p;
                assert(more[k] == p);
            }
            if p == keys[n - 1] {
                assert(more[n - 1] == p);
            }
        }
        index.entries.lemma_entry(n - 1);
        assert(loaded(saved.paths(), saved.records(), n, work) =~= goal);
        assert(!fewer.contains(keys[n - 1])) by {
            if fewer.contains(keys[n - 1]) {
                let k = choose|k: int| 0 <= k < fewer.len() && fewer[k] == keys[n - 1];
                assert(keys[k] == keys[n - 1]);
            }
        }
    }
}

} // verus!
