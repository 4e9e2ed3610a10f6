//! Trees: one directory of a snapshot, stored as a list of entries. A
//! sub-directory is an entry that names another tree by its hash.

use crate::hash::content_hash;
use crate::json::{json_parse, json_text, Json, JsonValue, Member, MemberValue};
use crate::index::Index;
use crate::path::{relative_form, text_seq, to_workdir_relative_path, Path, PathView};
use crate::store::{document_saved, saved, Fatal, Store};
use vstd::prelude::*;

verus! {

/// What a tree entry names: a file's content or another tree.
#[derive(Debug, Clone, Copy, PartialEq, Eq, Structural)]
pub enum EntryKind {
    Blob,
    Tree,
}

/// One entry of a tree: a single path segment with the object it names.
#[derive(Debug)]
pub struct TreeEntry {
    pub kind: EntryKind,
    pub mode: String,
    pub object_hash: String,
    pub name: String,
}

/// What a `TreeEntry` stands for in specifications.
pub struct TreeEntryView {
    pub kind: EntryKind,
    pub mode: Seq<char>,
    pub object_hash: Seq<char>,
    pub name: Seq<char>,
}

impl View for TreeEntry {
    type V = TreeEntryView;

    open spec fn view(&self) -> TreeEntryView {
        TreeEntryView {
            kind: self.kind,
            mode: self.mode@,
            object_hash: self.object_hash@,
            name: self.name@,
        }
    }
}

impl Clone for TreeEntry {
    fn clone(&self) -> (copy: TreeEntry)
        ensures
            copy@ == self@,
    {
        TreeEntry {
            kind: self.kind,
            mode: self.mode.clone(),
            object_hash: self.object_hash.clone(),
            name: self.name.clone(),
        }
    }
}

/// The views of a sequence of entries.
pub open spec fn entry_seq(v: Seq<TreeEntry>) -> Seq<TreeEntryView> {
    Seq::new(v.len(), |i: int| v[i]@)
}

/// One directory of a snapshot. The hash is the name under which the tree is
/// stored; it is empty until the tree is saved.
#[derive(Debug)]
pub struct Tree {
    pub hash: String,
    pub entries: Vec<TreeEntry>,
}

/// What a `Tree` stands for in specifications.
pub struct TreeView {
    pub hash: Seq<char>,
    pub entries: Seq<TreeEntryView>,
}

impl View for Tree {
    type V = TreeView;

    open spec fn view(&self) -> TreeView {
        TreeView { hash: self.hash@, entries: entry_seq(self.entries@) }
    }
}

/// A file of a snapshot: its path from the snapshot's root and the hash of
/// its content.
#[derive(Debug)]
pub struct TreeBlob {
    pub path: Path,
    pub hash: String,
}

/// What a `TreeBlob` stands for in specifications.
pub struct TreeBlobView {
    pub path: PathView,
    pub hash: Seq<char>,
}

impl View for TreeBlob {
    type V = TreeBlobView;

    open spec fn view(&self) -> TreeBlobView {
        TreeBlobView { path: self.path@, hash: self.hash@ }
    }
}

impl Clone for TreeBlob {
    fn clone(&self) -> (copy: TreeBlob)
        ensures
            copy@ == self@,
    {
        TreeBlob { path: self.path.clone(), hash: self.hash.clone() }
    }
}

/// The views of a sequence of files.
pub open spec fn blob_seq(v: Seq<TreeBlob>) -> Seq<TreeBlobView> {
    Seq::new(v.len(), |i: int| v[i]@)
}

/// The word that stands for a kind in a stored tree.
pub open spec fn kind_text(kind: EntryKind) -> Seq<char> {
    match kind {
        EntryKind::Blob => "blob"@,
        EntryKind::Tree => "tree"@,
    }
}

/// The document of one entry.
pub open spec fn entry_json(entry: TreeEntryView) -> JsonValue {
    JsonValue::Object(
        seq![
            MemberValue {
                name: "filemode"@,
                value: JsonValue::Array(
                    seq![JsonValue::Text(kind_text(entry.kind)), JsonValue::Text(entry.mode)],
                ),
            },
            MemberValue { name: "name"@, value: JsonValue::Text(entry.name) },
            MemberValue { name: "object_hash"@, value: JsonValue::Text(entry.object_hash) },
        ],
    )
}

/// The documents of a list of entries.
pub open spec fn entries_json(entries: Seq<TreeEntryView>) -> Seq<JsonValue> {
    Seq::new(entries.len(), |i: int| entry_json(entries[i]))
}

/// The document of a tree. The hash is no part of it: an object never holds
/// its own name.
pub open spec fn tree_json(entries: Seq<TreeEntryView>) -> JsonValue {
    JsonValue::Object(
        seq![MemberValue { name: "entries"@, value: JsonValue::Array(entries_json(entries)) }],
    )
}

/// The entry that a document describes, if it describes one.
pub open spec fn json_entry(doc: JsonValue) -> Option<TreeEntryView> {
    if doc is Object && doc->Object_0.len() == 3 && doc->Object_0[0].name == "filemode"@
        && doc->Object_0[1].name == "name"@ && doc->Object_0[2].name == "object_hash"@
        && doc->Object_0[0].value is Array && doc->Object_0[0].value->Array_0.len() == 2
        && doc->Object_0[0].value->Array_0[0] is Text && doc->Object_0[0].value->Array_0[1] is Text
        && doc->Object_0[1].value is Text && doc->Object_0[2].value is Text && (
    doc->Object_0[0].value->Array_0[0]->Text_0 == "blob"@
        || doc->Object_0[0].value->Array_0[0]->Text_0 == "tree"@) {
        Some(
            TreeEntryView {
                kind: if doc->Object_0[0].value->Array_0[0]->Text_0 == "blob"@ {
                    EntryKind::Blob
                } else {
                    EntryKind::Tree
                },
                mode: doc->Object_0[0].value->Array_0[1]->Text_0,
                object_hash: doc->Object_0[2].value->Text_0,
                name: doc->Object_0[1].value->Text_0,
            },
        )
    } else {
        None
    }
}

/// The entries that a document describes, if it describes a tree.
pub open spec fn json_tree(doc: JsonValue) -> Option<Seq<TreeEntryView>> {
    if doc is Object && doc->Object_0.len() == 1 && doc->Object_0[0].name == "entries"@
        && doc->Object_0[0].value is Array && (forall|i: int|
        0 <= i < doc->Object_0[0].value->Array_0.len() ==> json_entry(
            #[trigger] doc->Object_0[0].value->Array_0[i],
        ).is_some()) {
        Some(
            Seq::new(
                doc->Object_0[0].value->Array_0.len(),
                |i: int| json_entry(doc->Object_0[0].value->Array_0[i]).unwrap(),
            ),
        )
    } else {
        None
    }
}

/// The text under which a tree with these entries is stored.
pub open spec fn tree_text(entries: Seq<TreeEntryView>) -> Seq<char> {
    json_text(tree_json(entries))
}

/// The name under which a tree with these entries is stored.
pub open spec fn tree_hash(entries: Seq<TreeEntryView>) -> Seq<char> {
    content_hash(tree_text(entries))
}

/// The entries of the tree that the store holds under `hash`, if it holds a
/// tree there.
pub open spec fn tree_at(store: Map<Seq<char>, Seq<char>>, hash: Seq<char>) -> Option<
    Seq<TreeEntryView>,
> {
    if store.contains_key(hash) {
        match json_parse(store[hash]) {
            Some(doc) => json_tree(doc),
            None => None,
        }
    } else {
        None
    }
}

/// A tree's document describes the tree.
pub proof fn tree_json_reads_back(entries: Seq<TreeEntryView>)
    ensures
        json_tree(tree_json(entries)) == Some(entries),
{
    reveal_strlit("blob");
    reveal_strlit("tree");
    let doc = tree_json(entries);
    let docs = doc->Object_0[0].value->Array_0;
    assert(docs == entries_json(entries));
    assert forall|i: int| 0 <= i < docs.len() implies json_entry(#[trigger] docs[i]) == Some(
        entries[i],
    ) by {
        let e = entries[i];
        assert(docs[i] == entry_json(e));
        assert("blob"@ != "tree"@) by {
            assert("blob"@[0] == 'b');
            assert("tree"@[0] == 't');
        }
    }
    assert(json_tree(doc).unwrap() =~= entries);
}

fn text(value: &str) -> (doc: Json)
    ensures
        doc@ == JsonValue::Text(value@),
{
    Json::Text(String::from_str(value))
}

fn member(name: &str, value: Json) -> (m: Member)
    ensures
        m.name@ == name@,
        m.value@ == value@,
{
    Member { name: String::from_str(name), value }
}

fn is_text(value: &String, word: &str) -> (yes: bool)
    ensures
        yes == (value@ == word@),
{
    *value == String::from_str(word)
}

impl TreeEntry {
    /// The document of the entry.
    pub fn to_json(&self) -> (doc: Json)
        ensures
            doc@ == entry_json(self@),
    {
        let kind = match self.kind {
            EntryKind::Blob => text("blob"),
            EntryKind::Tree => text("tree"),
        };
        let mut filemode: Vec<Json> = Vec::new();
        filemode.push(kind);
        filemode.push(text(self.mode.as_str()));
        let filemode = Json::Array(filemode);
        assert(filemode@->Array_0 =~= seq![
            JsonValue::Text(kind_text(self@.kind)),
            JsonValue::Text(self@.mode),
        ]);
        let mut members: Vec<Member> = Vec::new();
        members.push(member("filemode", filemode));
        members.push(member("name", text(self.name.as_str())));
        members.push(member("object_hash", text(self.object_hash.as_str())));
        let doc = Json::Object(members);
        assert(doc@->Object_0 =~= entry_json(self@)->Object_0);
        doc
    }

    /// The entry that a document describes.
    pub fn from_json(doc: &Json) -> (entry: Option<TreeEntry>)
        ensures
            match entry {
                Some(e) => json_entry(doc@) == Some(e@),
                None => json_entry(doc@).is_none(),
            },
    {
        let members = match doc {
            Json::Object(members) => members,
            _ => { return None; },
        };
        if members.len() != 3 {
            return None;
        }
        assert(doc@->Object_0[0] == (MemberValue {
            name: members@[0].name@,
            value: members@[0].value@,
        }));
        assert(doc@->Object_0[1] == (MemberValue {
            name: members@[1].name@,
            value: members@[1].value@,
        }));
        assert(doc@->Object_0[2] == (MemberValue {
            name: members@[2].name@,
            value: members@[2].value@,
        }));
        if !is_text(&members[0].name, "filemode") || !is_text(&members[1].name, "name") || !is_text(
            &members[2].name,
            "object_hash",
        ) {
            return None;
        }
        let pair = match &members[0].value {
            Json::Array(pair) => pair,
            _ => { return None; },
        };
        if pair.len() != 2 {
            return None;
        }
        assert(members@[0].value@->Array_0[0] == pair@[0]@);
        assert(members@[0].value@->Array_0[1] == pair@[1]@);
        let kind_word = match &pair[0] {
            Json::Text(word) => word,
            _ => { return None; },
        };
        let mode = match &pair[1] {
            Json::Text(mode) => mode,
            _ => { return None; },
        };
        let name = match &members[1].value {
            Json::Text(name) => name,
            _ => { return None; },
        };
        let object_hash = match &members[2].value {
            Json::Text(hash) => hash,
            _ => { return None; },
        };
        let kind = if is_text(kind_word, "blob") {
            EntryKind::Blob
        } else if is_text(kind_word, "tree") {
            EntryKind::Tree
        } else {
            return None;
        };
        Some(
            TreeEntry {
                kind,
                mode: mode.clone(),
                object_hash: object_hash.clone(),
                name: name.clone(),
            },
        )
    }
}

/// How deep trees may nest before the nesting is taken for a circle.
pub const MAX_DEPTH: usize = 4096;

/// The paths of `files`, each with `name` put in front.
pub open spec fn prefixed(name: Seq<char>, files: Seq<TreeBlobView>) -> Seq<TreeBlobView> {
    Seq::new(
        files.len(),
        |i: int|
            TreeBlobView {
                path: PathView { absolute: false, parts: seq![name] + files[i].path.parts },
                hash: files[i].hash,
            },
    )
}

/// What reading the tree under `hash` gives: its entries, or why there are
/// none.
pub open spec fn read_tree(store: Map<Seq<char>, Seq<char>>, hash: Seq<char>) -> Result<
    Seq<TreeEntryView>,
    Fatal,
> {
    if !store.contains_key(hash) {
        Err(Fatal::Missing)
    } else {
        match tree_at(store, hash) {
            Some(entries) => Ok(entries),
            None => Err(Fatal::Malformed),
        }
    }
}

/// All files under a list of entries, depth first and in the entries' order,
/// each with its path from the list's root. An entry named `..` or `.` is
/// malformed, and trees nested deeper than `depth` are taken for a circle.
pub open spec fn flatten(store: Map<Seq<char>, Seq<char>>, entries: Seq<TreeEntryView>, depth: nat)
    -> Result<Seq<TreeBlobView>, Fatal>
    decreases depth, entries.len(),
{
    if entries.len() == 0 {
        Ok(Seq::empty())
    } else {
        let entry = entries.last();
        match flatten(store, entries.drop_last(), depth) {
            Err(e) => Err(e),
            Ok(files) => if entry.name == ".."@ || entry.name == "."@ {
                Err(Fatal::Malformed)
            } else if entry.kind == EntryKind::Blob {
                Ok(
                    files.push(
                        TreeBlobView {
                            path: PathView { absolute: false, parts: seq![entry.name] },
                            hash: entry.object_hash,
                        },
                    ),
                )
            } else if depth == 0 {
                Err(Fatal::Cyclic)
            } else {
                match read_tree(store, entry.object_hash) {
                    Err(e) => Err(e),
                    Ok(sub_entries) => match flatten(store, sub_entries, (depth - 1) as nat) {
                        Err(e) => Err(e),
                        Ok(sub_files) => Ok(files + prefixed(entry.name, sub_files)),
                    },
                }
            }
        }
    }
}

/// The paths of a list of files.
pub open spec fn blob_paths(files: Seq<TreeBlobView>) -> Seq<PathView> {
    Seq::new(files.len(), |i: int| files[i].path)
}

/// The views of a result that holds files.
pub open spec fn blobs_result(found: Result<Vec<TreeBlob>, Fatal>) -> Result<
    Seq<TreeBlobView>,
    Fatal,
> {
    match found {
        Ok(files) => Ok(blob_seq(files@)),
        Err(e) => Err(e),
    }
}

fn flatten_entries(store: &Store, entries: &Vec<TreeEntry>, depth: usize) -> (found: Result<
    Vec<TreeBlob>,
    Fatal,
>)
    requires
        store.wf(),
    ensures
        blobs_result(found) == flatten(store@, entry_seq(entries@), depth as nat),
    decreases depth, entries.len(),
{
    let mut files: Vec<TreeBlob> = Vec::new();
    let mut i: usize = 0;
    assert(entry_seq(entries@).take(0) =~= Seq::empty());
    assert(blob_seq(files@) =~= Seq::empty());
    while i < entries.len()
        invariant
            0 <= i <= entries.len(),
            store.wf(),
            flatten(store@, entry_seq(entries@).take(i as int), depth as nat) == Ok::<
                Seq<TreeBlobView>,
                Fatal,
            >(blob_seq(files@)),
        decreases entries.len() - i,
    {
        let entry = &entries[i];
        let ghost before = blob_seq(files@);
        let ghost done = entry_seq(entries@).take(i as int);
        let ghost next = entry_seq(entries@).take(i + 1);
        assert(next.drop_last() =~= done);
        assert(next.last() == entry@);
        if is_text(&entry.name, "..") || is_text(&entry.name, ".") {
            proof {
                lemma_flatten_fails_on(store@, entry_seq(entries@), depth as nat, i + 1);
            }
            return Err(Fatal::Malformed);
        }
        match entry.kind {
            EntryKind::Blob => {
                let mut parts: Vec<String> = Vec::new();
                parts.push(entry.name.clone());
                assert(text_seq(parts@) =~= seq![entry@.name]);
                files.push(
                    TreeBlob { path: Path::new(false, parts), hash: entry.object_hash.clone() },
                );
                assert(blob_seq(files@) =~= before.push(
                    TreeBlobView {
                        path: PathView { absolute: false, parts: seq![entry@.name] },
                        hash: entry@.object_hash,
                    },
                ));
            },
            EntryKind::Tree => {
                if depth == 0 {
                    proof {
                        lemma_flatten_fails_on(store@, entry_seq(entries@), depth as nat, i + 1);
                    }
                    return Err(Fatal::Cyclic);
                }
                let sub = match Tree::load(&entry.object_hash, store) {
                    Ok(sub) => sub,
                    Err(e) => {
                        proof {
                            lemma_flatten_fails_on(
                                store@,
                                entry_seq(entries@),
                                depth as nat,
                                i + 1,
                            );
                        }
                        return Err(e);
                    },
                };
                let sub_files = match flatten_entries(store, &sub.entries, depth - 1) {
                    Ok(sub_files) => sub_files,
                    Err(e) => {
                        proof {
                            lemma_flatten_fails_on(
                                store@,
                                entry_seq(entries@),
                                depth as nat,
                                i + 1,
                            );
                        }
                        return Err(e);
                    },
                };
                let mut j: usize = 0;
                while j < sub_files.len()
                    invariant
                        0 <= j <= sub_files.len(),
                        blob_seq(files@) =~= before + prefixed(
                            entry@.name,
                            blob_seq(sub_files@),
                        ).take(j as int),
                    decreases sub_files.len() - j,
                {
                    let ghost so_far = blob_seq(files@);
                    let mut parts: Vec<String> = Vec::new();
                    parts.push(entry.name.clone());
                    let mut k: usize = 0;
                    while k < sub_files[j].path.parts.len()
                        invariant
                            0 <= k <= sub_files@[j as int].path.parts.len(),
                            0 <= j < sub_files.len(),
                            text_seq(parts@) =~= seq![entry@.name] + sub_files@[j as int]@.path.parts.take(
                                k as int,
                            ),
                        decreases sub_files@[j as int].path.parts.len() - k,
                    {
                        let ghost head = text_seq(parts@);
                        parts.push(sub_files[j].path.parts[k].clone());
                        assert(text_seq(parts@) =~= head.push(
                            sub_files@[j as int]@.path.parts[k as int],
                        ));
                        assert(sub_files@[j as int]@.path.parts.take(k + 1)
                            =~= sub_files@[j as int]@.path.parts.take(k as int).push(
                            sub_files@[j as int]@.path.parts[k as int],
                        ));
                        k += 1;
                    }
                    assert(sub_files@[j as int]@.path.parts.take(k as int)
                        =~= sub_files@[j as int]@.path.parts);
                    files.push(
                        TreeBlob { path: Path::new(false, parts), hash: sub_files[j].hash.clone() },
                    );
                    assert(blob_seq(files@) =~= so_far.push(
                        prefixed(entry@.name, blob_seq(sub_files@))[j as int],
                    ));
                    j += 1;
                }
                assert(prefixed(entry@.name, blob_seq(sub_files@)).take(j as int) =~= prefixed(
                    entry@.name,
                    blob_seq(sub_files@),
                ));
            },
        }
        i += 1;
    }
    assert(entry_seq(entries@).take(i as int) =~= entry_seq(entries@));
    Ok(files)
}

/// The files that flattening finds have relative paths without `..` and
/// `.`, and at least one segment each.
pub proof fn flatten_paths_are_plain(
    store: Map<Seq<char>, Seq<char>>,
    entries: Seq<TreeEntryView>,
    depth: nat,
)
    requires
        flatten(store, entries, depth) is Ok,
    ensures
        forall|i: int|
            0 <= i < flatten(store, entries, depth)->Ok_0.len() ==> {
                let file = #[trigger] flatten(store, entries, depth)->Ok_0[i];
                !file.path.absolute && crate::path::plain(file.path.parts) && file.path.parts.len()
                    > 0
            },
    decreases depth, entries.len(),
{
    if entries.len() > 0 {
        let entry = entries.last();
        flatten_paths_are_plain(store, entries.drop_last(), depth);
        let files = flatten(store, entries.drop_last(), depth)->Ok_0;
        if entry.kind == EntryKind::Blob {
        } else {
            let sub_entries = read_tree(store, entry.object_hash)->Ok_0;
            flatten_paths_are_plain(store, sub_entries, (depth - 1) as nat);
            let sub_files = flatten(store, sub_entries, (depth - 1) as nat)->Ok_0;
            let all = files + prefixed(entry.name, sub_files);
            assert forall|i: int| 0 <= i < all.len() implies {
                let file = #[trigger] all[i];
                !file.path.absolute && crate::path::plain(file.path.parts) && file.path.parts.len()
                    > 0
            } by {
                if i >= files.len() {
                    let sub = sub_files[i - files.len()];
                    assert(all[i] == prefixed(entry.name, sub_files)[i - files.len()]);
                    assert forall|k: int| 0 <= k < all[i].path.parts.len() implies (
                    #[trigger] all[i].path.parts[k]) != ".."@ && all[i].path.parts[k] != "."@ by {
                        if k > 0 {
                            assert(all[i].path.parts[k] == sub.path.parts[k - 1]);
                        }
                    }
                } else {
                    assert(all[i] == files[i]);
                }
            }
        }
    }
}

/// Where flattening fails on the first `n` entries, it fails in the same way
/// on all of them.
proof fn lemma_flatten_fails_on(
    store: Map<Seq<char>, Seq<char>>,
    entries: Seq<TreeEntryView>,
    depth: nat,
    n: int,
)
    requires
        0 <= n <= entries.len(),
        flatten(store, entries.take(n), depth) is Err,
    ensures
        flatten(store, entries, depth) == flatten(store, entries.take(n), depth),
    decreases entries.len() - n,
{
    if n == entries.len() {
        assert(entries.take(n) =~= entries);
    } else {
        assert(entries.take(n + 1).drop_last() =~= entries.take(n));
        lemma_flatten_fails_on(store, entries, depth, n + 1);
    }
}

impl Tree {
    /// The document of the tree.
    pub fn to_json(&self) -> (doc: Json)
        ensures
            doc@ == tree_json(self@.entries),
    {
        let mut docs: Vec<Json> = Vec::new();
        let mut i: usize = 0;
        while i < self.entries.len()
            invariant
                0 <= i <= self.entries.len(),
                docs.len() == i,
                forall|k: int| 0 <= k < i ==> docs@[k]@ == entry_json(self.entries@[k]@),
            decreases self.entries.len() - i,
        {
            docs.push(self.entries[i].to_json());
            i += 1;
        }
        let list = Json::Array(docs);
        assert(list@->Array_0 =~= entries_json(self@.entries));
        let mut members: Vec<Member> = Vec::new();
        members.push(member("entries", list));
        let doc = Json::Object(members);
        assert(doc@->Object_0 =~= tree_json(self@.entries)->Object_0);
        doc
    }

    /// The entries that a document describes.
    pub fn from_json(doc: &Json) -> (entries: Option<Vec<TreeEntry>>)
        ensures
            match entries {
                Some(found) => json_tree(doc@) == Some(entry_seq(found@)),
                None => json_tree(doc@).is_none(),
            },
    {
        let members = match doc {
            Json::Object(members) => members,
            _ => { return None; },
        };
        if members.len() != 1 {
            return None;
        }
        assert(doc@->Object_0[0] == (MemberValue {
            name: members@[0].name@,
            value: members@[0].value@,
        }));
        if !is_text(&members[0].name, "entries") {
            return None;
        }
        let docs = match &members[0].value {
            Json::Array(docs) => docs,
            _ => { return None; },
        };
        let ghost list = doc@->Object_0[0].value->Array_0;
        assert(list.len() == docs.len());
        let mut entries: Vec<TreeEntry> = Vec::new();
        let mut i: usize = 0;
        while i < docs.len()
            invariant
                0 <= i <= docs.len(),
                entries.len() == i,
                list.len() == docs.len(),
                doc@ is Object,
                doc@->Object_0.len() == 1,
                doc@->Object_0[0].name == "entries"@,
                doc@->Object_0[0].value is Array,
                list == doc@->Object_0[0].value->Array_0,
                forall|k: int| 0 <= k < docs.len() ==> list[k] == docs@[k]@,
                forall|k: int| 0 <= k < i ==> json_entry(#[trigger] list[k]) == Some(entries@[k]@),
            decreases docs.len() - i,
        {
            match TreeEntry::from_json(&docs[i]) {
                Some(entry) => {
                    entries.push(entry);
                },
                None => {
                    assert(json_entry(list[i as int]).is_none());
                    return None;
                },
            }
            i += 1;
        }
        assert(json_tree(doc@).unwrap() =~= entry_seq(entries@));
        Some(entries)
    }

    pub fn get_hash(&self) -> (hash: String)
        ensures
            hash@ == self@.hash,
    {
        self.hash.clone()
    }

    /// The tree that the store holds under `hash`.
    pub fn load(hash: &String, store: &Store) -> (tree: Result<Tree, Fatal>)
        requires
            store.wf(),
        ensures
            match tree {
                Ok(t) => read_tree(store@, hash@) == Ok::<Seq<TreeEntryView>, Fatal>(t@.entries)
                    && t@.hash == hash@,
                Err(e) => read_tree(store@, hash@) == Err::<Seq<TreeEntryView>, Fatal>(e),
            },
    {
        let content = match store.load(hash) {
            Ok(content) => content,
            Err(e) => { return Err(e); },
        };
        let doc = match Json::parse(&content) {
            Some(doc) => doc,
            None => { return Err(Fatal::Malformed); },
        };
        match Tree::from_json(&doc) {
            Some(entries) => Ok(Tree { hash: hash.clone(), entries }),
            None => Err(Fatal::Malformed),
        }
    }

    /// Stores the tree and gives it its hash. This fails where the tree's
    /// text does not read back as the tree, and where the store holds
    /// another text under the tree's hash already; then nothing is stored.
    pub fn save(&mut self, store: &mut Store) -> (hash: Result<String, Fatal>)
        requires
            old(store).wf(),
        ensures
            final(store).wf(),
            final(self)@.entries == old(self)@.entries,
            match document_saved(old(store)@, tree_json(old(self)@.entries)) {
                Ok(_) => hash is Ok,
                Err(e) => hash == Err::<String, Fatal>(e),
            },
            match hash {
                Ok(h) => {
                    &&& h@ == tree_hash(old(self)@.entries)
                    &&& h@.len() == 40
                    &&& final(self)@.hash == h@
                    &&& final(store)@ == saved(old(store)@, tree_text(old(self)@.entries))
                    &&& final(store)@.contains_key(h@)
                    &&& final(store)@[h@] == tree_text(old(self)@.entries)
                    &&& read_tree(final(store)@, h@) == Ok::<Seq<TreeEntryView>, Fatal>(
                        old(self)@.entries,
                    )
                },
                Err(e) => {
                    &&& (e == Fatal::Unprintable || e == Fatal::Malformed)
                    &&& final(self)@.hash == old(self)@.hash
                    &&& final(store)@ == old(store)@
                    &&& final(store).names() == old(store).names()
                },
            },
    {
        let doc = self.to_json();
        let content = match doc.render() {
            Some(content) => content,
            None => { return Err(Fatal::Unprintable); },
        };
        let hash = crate::hash::calc_hash(&content);
        match store.load(&hash) {
            Ok(present) => {
                if present != content {
                    return Err(Fatal::Malformed);
                }
            },
            Err(_) => {},
        }
        let hash = store.save(&content);
        proof {
            tree_json_reads_back(self@.entries);
        }
        self.hash = hash.clone();
        Ok(hash)
    }

    /// All files of the snapshot under this tree, depth first, each with its
    /// path from the tree's root.
    pub fn get_recursive_blobs(&self, store: &Store) -> (found: Result<Vec<TreeBlob>, Fatal>)
        requires
            store.wf(),
        ensures
            blobs_result(found) == flatten(store@, self@.entries, MAX_DEPTH as nat),
    {
        flatten_entries(store, &self.entries, MAX_DEPTH)
    }

    /// The paths of all files of the snapshot under this tree.
    pub fn get_recursive_file_entries(&self, store: &Store) -> (found: Result<Vec<Path>, Fatal>)
        requires
            store.wf(),
        ensures
            match found {
                Ok(paths) => flatten(store@, self@.entries, MAX_DEPTH as nat) is Ok
                    && crate::path::path_seq(paths@) == blob_paths(
                    flatten(store@, self@.entries, MAX_DEPTH as nat)->Ok_0,
                ),
                Err(e) => flatten(store@, self@.entries, MAX_DEPTH as nat) == Err::<
                    Seq<TreeBlobView>,
                    Fatal,
                >(e),
            },
    {
        let files = match self.get_recursive_blobs(store) {
            Ok(files) => files,
            Err(e) => { return Err(e); },
        };
        let mut paths: Vec<Path> = Vec::new();
        let mut i: usize = 0;
        while i < files.len()
            invariant
                0 <= i <= files.len(),
                paths.len() == i,
                forall|k: int| 0 <= k < i ==> paths@[k]@ == files@[k]@.path,
            decreases files.len() - i,
        {
            paths.push(files[i].path.clone());
            i += 1;
        }
        assert(crate::path::path_seq(paths@) =~= blob_paths(blob_seq(files@)));
        Ok(paths)
    }
}

/// A staged file as the tree builder sees it: its path from the working
/// tree's root, its mode and the hash of its content.
#[derive(Debug)]
pub struct TrackedItem {
    pub parts: Vec<String>,
    pub mode: String,
    pub hash: String,
}

/// What a `TrackedItem` stands for in specifications.
pub struct TrackedView {
    pub parts: Seq<Seq<char>>,
    pub mode: Seq<char>,
    pub hash: Seq<char>,
}

impl View for TrackedItem {
    type V = TrackedView;

    open spec fn view(&self) -> TrackedView {
        TrackedView { parts: text_seq(self.parts@), mode: self.mode@, hash: self.hash@ }
    }
}

/// The views of a sequence of staged files.
pub open spec fn item_seq(v: Seq<TrackedItem>) -> Seq<TrackedView> {
    Seq::new(v.len(), |i: int| v[i]@)
}

/// The staged files of a staging area, in its order.
pub open spec fn index_items(index: &Index) -> Seq<TrackedView> {
    Seq::new(
        index.entries.keys().len(),
        |i: int|
            TrackedView {
                parts: relative_form(index.entries.keys()[i], index.dirs@.work).parts,
                mode: index.entries.values()[i].mode,
                hash: index.entries.values()[i].hash,
            },
    )
}

/// The length of the longest path among the items.
pub open spec fn longest(items: Seq<TrackedView>) -> nat
    decreases items.len(),
{
    if items.len() == 0 {
        0
    } else if items.last().parts.len() > longest(items.drop_last()) {
        items.last().parts.len()
    } else {
        longest(items.drop_last())
    }
}

pub proof fn lemma_longest(items: Seq<TrackedView>, i: int)
    requires
        0 <= i < items.len(),
    ensures
        items[i].parts.len() <= longest(items),
    decreases items.len(),
{
    if i < items.len() - 1 {
        lemma_longest(items.drop_last(), i);
    }
}

/// The item lies below the directory `root`.
pub open spec fn under(item: TrackedView, root: Seq<Seq<char>>) -> bool {
    root.is_prefix_of(item.parts) && item.parts.len() > root.len()
}

/// Item `j` lies in the sub-directory `seg` of `root`.
pub open spec fn opens_dir(items: Seq<TrackedView>, j: int, root: Seq<Seq<char>>, seg: Seq<char>)
    -> bool {
    under(items[j], root) && items[j].parts.len() > root.len() + 1 && items[j].parts[root.len() as int]
        == seg
}

/// One of the first `n` items lies in the sub-directory `seg` of `root`.
pub open spec fn seen_dir(items: Seq<TrackedView>, n: int, root: Seq<Seq<char>>, seg: Seq<char>)
    -> bool {
    exists|j: int| 0 <= j < n && #[trigger] opens_dir(items, j, root, seg)
}

/// The mode under which a sub-directory is entered in a tree.
pub open spec fn dir_mode() -> Seq<char> {
    "40000"@
}

/// The entries of the tree for the directory `root`, as the first `n` items
/// give them: a blob for each file directly in `root`, and a tree for each
/// sub-directory, where the first file in it stands. `depth` bounds how deep
/// the directories below `root` are followed.
pub open spec fn level_entries(
    items: Seq<TrackedView>,
    n: nat,
    root: Seq<Seq<char>>,
    depth: nat,
) -> Seq<TreeEntryView>
    decreases depth, n,
{
    if n == 0 {
        Seq::empty()
    } else {
        let before = level_entries(items, (n - 1) as nat, root, depth);
        let item = items[n - 1];
        if !under(item, root) {
            before
        } else if item.parts.len() == root.len() + 1 {
            before.push(
                TreeEntryView {
                    kind: EntryKind::Blob,
                    mode: item.mode,
                    object_hash: item.hash,
                    name: item.parts[root.len() as int],
                },
            )
        } else if seen_dir(items, n - 1, root, item.parts[root.len() as int]) || depth == 0 {
            before
        } else {
            before.push(
                TreeEntryView {
                    kind: EntryKind::Tree,
                    mode: dir_mode(),
                    object_hash: tree_hash(
                        level_entries(
                            items,
                            items.len(),
                            root.push(item.parts[root.len() as int]),
                            (depth - 1) as nat,
                        ),
                    ),
                    name: item.parts[root.len() as int],
                },
            )
        }
    }
}

/// The names of the trees that are stored for the sub-directories of `root`
/// which the first `n` items open, and for all directories below those.
pub open spec fn level_names(items: Seq<TrackedView>, n: nat, root: Seq<Seq<char>>, depth: nat)
    -> Set<Seq<char>>
    decreases depth, n,
{
    if n == 0 {
        Set::empty()
    } else {
        let before = level_names(items, (n - 1) as nat, root, depth);
        let item = items[n - 1];
        if under(item, root) && item.parts.len() > root.len() + 1 && !seen_dir(
            items,
            n - 1,
            root,
            item.parts[root.len() as int],
        ) && depth > 0 {
            let sub = root.push(item.parts[root.len() as int]);
            before.union(
                level_names(items, items.len(), sub, (depth - 1) as nat).insert(
                    tree_hash(level_entries(items, items.len(), sub, (depth - 1) as nat)),
                ),
            )
        } else {
            before
        }
    }
}

/// The names of all trees that are stored for the directory `root`: its own
/// and those of the directories below it.
pub open spec fn tree_names(items: Seq<TrackedView>, root: Seq<Seq<char>>, depth: nat) -> Set<
    Seq<char>,
> {
    level_names(items, items.len(), root, depth).insert(
        tree_hash(level_entries(items, items.len(), root, depth)),
    )
}

/// How far the storing of trees has come: the store as it stands, and the
/// failure that ended the storing, if one did.
pub struct Built {
    pub store: Map<Seq<char>, Seq<char>>,
    pub failed: Option<Fatal>,
}

/// One more tree is stored, unless the storing has failed already. The tree
/// is stored where its text reads back as the tree and its name is free or
/// holds that text; else the storing fails there, and the store stays.
pub open spec fn tree_saved(at: Built, entries: Seq<TreeEntryView>) -> Built {
    if at.failed is Some {
        at
    } else {
        match document_saved(at.store, tree_json(entries)) {
            Ok(_) => Built { store: saved(at.store, tree_text(entries)), failed: None },
            Err(e) => Built { store: at.store, failed: Some(e) },
        }
    }
}

/// The storing of the trees below `root` that the first `n` items call for:
/// for each sub-directory, where its first file stands, the trees below it
/// and then its own. The first failure ends the storing.
pub open spec fn level_built(
    store: Map<Seq<char>, Seq<char>>,
    items: Seq<TrackedView>,
    n: nat,
    root: Seq<Seq<char>>,
    depth: nat,
) -> Built
    decreases depth, n,
{
    if n == 0 {
        Built { store, failed: None }
    } else {
        let before = level_built(store, items, (n - 1) as nat, root, depth);
        let item = items[n - 1];
        if before.failed is None && under(item, root) && item.parts.len() > root.len() + 1
            && !seen_dir(items, n - 1, root, item.parts[root.len() as int]) && depth > 0 {
            let sub = root.push(item.parts[root.len() as int]);
            tree_saved(
                level_built(before.store, items, items.len(), sub, (depth - 1) as nat),
                level_entries(items, items.len(), sub, (depth - 1) as nat),
            )
        } else {
            before
        }
    }
}

/// The storing of the tree of `root` and of all trees below it: first the
/// trees below, then the tree of `root` itself. It succeeds exactly where
/// every one of these trees, in its turn, has a text that reads back as the
/// tree and a name that is free or holds that text.
pub open spec fn tree_built(
    store: Map<Seq<char>, Seq<char>>,
    items: Seq<TrackedView>,
    root: Seq<Seq<char>>,
    depth: nat,
) -> Built {
    tree_saved(
        level_built(store, items, items.len(), root, depth),
        level_entries(items, items.len(), root, depth),
    )
}

/// The storing of the snapshot of a staging area: the tree of the working
/// tree's root and all trees below it.
pub open spec fn snapshot_built(store: Map<Seq<char>, Seq<char>>, index: &Index) -> Built {
    tree_built(store, index_items(index), Seq::empty(), longest(index_items(index)))
}

/// Once the storing has failed, looking at more items changes nothing.
pub proof fn lemma_failure_stays(
    store: Map<Seq<char>, Seq<char>>,
    items: Seq<TrackedView>,
    m: nat,
    n: nat,
    root: Seq<Seq<char>>,
    depth: nat,
)
    requires
        m <= n,
        level_built(store, items, m, root, depth).failed is Some,
    ensures
        level_built(store, items, n, root, depth) == level_built(store, items, m, root, depth),
    decreases n - m,
{
    if m < n {
        lemma_failure_stays(store, items, m, (n - 1) as nat, root, depth);
    }
}

/// Storing trees only adds to the store.
pub proof fn lemma_built_keeps_objects(
    store: Map<Seq<char>, Seq<char>>,
    items: Seq<TrackedView>,
    n: nat,
    root: Seq<Seq<char>>,
    depth: nat,
)
    ensures
        store.submap_of(level_built(store, items, n, root, depth).store),
    decreases depth, n,
{
    if n > 0 {
        let before = level_built(store, items, (n - 1) as nat, root, depth);
        lemma_built_keeps_objects(store, items, (n - 1) as nat, root, depth);
        let item = items[n - 1];
        if before.failed is None && under(item, root) && item.parts.len() > root.len() + 1
            && !seen_dir(items, n - 1, root, item.parts[root.len() as int]) && depth > 0 {
            let sub = root.push(item.parts[root.len() as int]);
            let below = level_built(before.store, items, items.len(), sub, (depth - 1) as nat);
            let entries = level_entries(items, items.len(), sub, (depth - 1) as nat);
            lemma_built_keeps_objects(before.store, items, items.len(), sub, (depth - 1) as nat);
            crate::store::saved_keeps_objects(below.store, tree_text(entries));
            lemma_submap_trans(store, before.store, below.store);
            lemma_submap_trans(store, below.store, tree_saved(below, entries).store);
        }
    }
}

/// Trees that were stored are stored again without a failure and without a
/// change, in any store that holds what the first storing left.
pub proof fn lemma_level_stored_again(
    store: Map<Seq<char>, Seq<char>>,
    items: Seq<TrackedView>,
    n: nat,
    root: Seq<Seq<char>>,
    depth: nat,
    larger: Map<Seq<char>, Seq<char>>,
)
    requires
        level_built(store, items, n, root, depth).failed is None,
        level_built(store, items, n, root, depth).store.submap_of(larger),
    ensures
        level_built(larger, items, n, root, depth) == (Built { store: larger, failed: None }),
    decreases depth, n,
{
    if n > 0 {
        let before = level_built(store, items, (n - 1) as nat, root, depth);
        let item = items[n - 1];
        if before.failed is None && under(item, root) && item.parts.len() > root.len() + 1
            && !seen_dir(items, n - 1, root, item.parts[root.len() as int]) && depth > 0 {
            let sub = root.push(item.parts[root.len() as int]);
            let below = level_built(before.store, items, items.len(), sub, (depth - 1) as nat);
            let entries = level_entries(items, items.len(), sub, (depth - 1) as nat);
            let after = tree_saved(below, entries);
            assert(below.failed is None);
            assert(document_saved(below.store, tree_json(entries)) is Ok);
            lemma_built_keeps_objects(before.store, items, items.len(), sub, (depth - 1) as nat);
            crate::store::saved_keeps_objects(below.store, tree_text(entries));
            lemma_submap_trans(below.store, after.store, larger);
            lemma_submap_trans(before.store, below.store, larger);
            lemma_level_stored_again(store, items, (n - 1) as nat, root, depth, larger);
            lemma_level_stored_again(
                before.store,
                items,
                items.len(),
                sub,
                (depth - 1) as nat,
                larger,
            );
            lemma_saved_again(below.store, larger, tree_json(entries));
        } else {
            lemma_level_stored_again(store, items, (n - 1) as nat, root, depth, larger);
        }
    }
}

/// An object that was stored is stored again without a failure and without
/// a change, in any store that holds what the first storing left.
proof fn lemma_saved_again(
    store: Map<Seq<char>, Seq<char>>,
    larger: Map<Seq<char>, Seq<char>>,
    doc: crate::json::JsonValue,
)
    requires
        document_saved(store, doc) is Ok,
        saved(store, json_text(doc)).submap_of(larger),
    ensures
        document_saved(larger, doc) is Ok,
        saved(larger, json_text(doc)) == larger,
{
    let name = content_hash(json_text(doc));
    assert(saved(store, json_text(doc)).dom().contains(name));
    assert(larger.dom().contains(name));
}

/// A snapshot that was stored is stored again without a failure, and the
/// store stays as the first storing left it.
pub proof fn stored_snapshot_stores_again(
    store: Map<Seq<char>, Seq<char>>,
    items: Seq<TrackedView>,
    root: Seq<Seq<char>>,
    depth: nat,
)
    requires
        tree_built(store, items, root, depth).failed is None,
    ensures
        tree_built(tree_built(store, items, root, depth).store, items, root, depth) == tree_built(
            store,
            items,
            root,
            depth,
        ),
{
    let below = level_built(store, items, items.len(), root, depth);
    let entries = level_entries(items, items.len(), root, depth);
    let first = tree_built(store, items, root, depth);
    crate::store::saved_keeps_objects(below.store, tree_text(entries));
    lemma_level_stored_again(store, items, items.len(), root, depth, first.store);
    assert(first.store.submap_of(first.store));
    lemma_saved_again(below.store, first.store, tree_json(entries));
}

/// The store holds the tree of the directory `root`, and the trees of all
/// directories below it, as the staged files give them.
pub open spec fn holds_trees(
    store: Map<Seq<char>, Seq<char>>,
    items: Seq<TrackedView>,
    root: Seq<Seq<char>>,
    depth: nat,
) -> bool
    decreases depth,
{
    &&& read_tree(store, tree_hash(level_entries(items, items.len(), root, depth))) == Ok::<
        Seq<TreeEntryView>,
        Fatal,
    >(level_entries(items, items.len(), root, depth))
    &&& depth > 0 ==> forall|seg: Seq<char>| #[trigger]
        seen_dir(items, items.len() as int, root, seg) ==> holds_trees(
            store,
            items,
            root.push(seg),
            (depth - 1) as nat,
        )
}

/// What a store holds, a larger store holds too.
pub proof fn lemma_trees_stay(
    store: Map<Seq<char>, Seq<char>>,
    larger: Map<Seq<char>, Seq<char>>,
    items: Seq<TrackedView>,
    root: Seq<Seq<char>>,
    depth: nat,
)
    requires
        holds_trees(store, items, root, depth),
        store.submap_of(larger),
    ensures
        holds_trees(larger, items, root, depth),
    decreases depth,
{
    let name = tree_hash(level_entries(items, items.len(), root, depth));
    assert(store.dom().contains(name));
    assert(larger.dom().contains(name));
    assert(larger[name] == store[name]);
    if depth > 0 {
        assert forall|seg: Seq<char>| #[trigger]
            seen_dir(items, items.len() as int, root, seg) implies holds_trees(
            larger,
            items,
            root.push(seg),
            (depth - 1) as nat,
        ) by {
            lemma_trees_stay(store, larger, items, root.push(seg), (depth - 1) as nat);
        }
    }
}

/// Building the snapshot of the same staged files a second time stores
/// nothing new: the store is the same after the second build as after the
/// first, and so is what the tree lists.
pub proof fn rebuilt_tree_is_the_same(
    items: Seq<TrackedView>,
    root: Seq<Seq<char>>,
    depth: nat,
    before: Map<Seq<char>, Seq<char>>,
    first: Map<Seq<char>, Seq<char>>,
    second: Map<Seq<char>, Seq<char>>,
)
    requires
        before.submap_of(first),
        first.dom() == before.dom().union(tree_names(items, root, depth)),
        first.submap_of(second),
        second.dom() == first.dom().union(tree_names(items, root, depth)),
    ensures
        second == first,
        flatten(second, level_entries(items, items.len(), root, depth), MAX_DEPTH as nat)
            == flatten(first, level_entries(items, items.len(), root, depth), MAX_DEPTH as nat),
{
    assert(second.dom() =~= first.dom());
    assert forall|k: Seq<char>| first.dom().contains(k) implies #[trigger] second[k] == first[k] by {
        assert(second.dom().contains(k));
    }
    assert(second =~= first);
}

/// One more item is looked at: a sub-directory is seen if it was seen
/// before or the item lies in it.
pub proof fn lemma_seen_step(items: Seq<TrackedView>, i: int, root: Seq<Seq<char>>, seg: Seq<char>)
    requires
        0 <= i,
    ensures
        seen_dir(items, i + 1, root, seg) <==> (seen_dir(items, i, root, seg) || opens_dir(
            items,
            i,
            root,
            seg,
        )),
{
    if seen_dir(items, i + 1, root, seg) {
        let j = choose|j: int| 0 <= j < i + 1 && #[trigger] opens_dir(items, j, root, seg);
        if j < i {
            assert(seen_dir(items, i, root, seg));
        }
    }
    if seen_dir(items, i, root, seg) {
        let j = choose|j: int| 0 <= j < i && #[trigger] opens_dir(items, j, root, seg);
        assert(opens_dir(items, j, root, seg));
    }
    if opens_dir(items, i, root, seg) {
        assert(seen_dir(items, i + 1, root, seg));
    }
}

fn contains_text(list: &Vec<String>, word: &String) -> (yes: bool)
    ensures
        yes == text_seq(list@).contains(word@),
{
    let mut i: usize = 0;
    while i < list.len()
        invariant
            0 <= i <= list.len(),
            forall|k: int| 0 <= k < i ==> text_seq(list@)[k] != word@,
        decreases list.len() - i,
    {
        if list[i] == *word {
            assert(text_seq(list@)[i as int] == word@);
            return true;
        }
        i += 1;
    }
    false
}

/// Builds and stores the tree for the directory `root` from the staged
/// files, and the trees of the directories below it. `depth` is how many
/// levels there are at most below `root`. The first tree that cannot be
/// stored ends the building; the trees stored before it stay.
pub fn store_path_to_tree(
    items: &Vec<TrackedItem>,
    root: &Vec<String>,
    depth: usize,
    store: &mut Store,
) -> (built: Result<Tree, Fatal>)
    requires
        old(store).wf(),
        forall|i: int| 0 <= i < items.len() ==> (#[trigger] items@[i]).parts.len() <= root.len() + depth,
    ensures
        final(store).wf(),
        old(store)@.submap_of(final(store)@),
        final(store)@ == tree_built(
            old(store)@,
            item_seq(items@),
            text_seq(root@),
            depth as nat,
        ).store,
        match tree_built(old(store)@, item_seq(items@), text_seq(root@), depth as nat).failed {
            None => built is Ok,
            Some(e) => built == Err::<Tree, Fatal>(e),
        },
        match built {
            Ok(tree) => {
                &&& tree@.entries == level_entries(
                    item_seq(items@),
                    items.len() as nat,
                    text_seq(root@),
                    depth as nat,
                )
                &&& tree@.hash == tree_hash(tree@.entries)
                &&& tree@.hash.len() == 40
                &&& read_tree(final(store)@, tree@.hash) == Ok::<Seq<TreeEntryView>, Fatal>(
                    tree@.entries,
                )
                &&& final(store)@.dom() == old(store)@.dom().union(
                    tree_names(item_seq(items@), text_seq(root@), depth as nat),
                )
                &&& holds_trees(final(store)@, item_seq(items@), text_seq(root@), depth as nat)
            },
            Err(e) => e == Fatal::Unprintable || e == Fatal::Malformed,
        },
    decreases depth,
{
    let ghost start = store@;
    let ghost all = item_seq(items@);
    let ghost base = text_seq(root@);
    let mut entries: Vec<TreeEntry> = Vec::new();
    let mut seen: Vec<String> = Vec::new();
    let mut i: usize = 0;
    assert(entry_seq(entries@) =~= Seq::empty());
    assert(start.dom() =~= start.dom().union(Set::empty()));
    while i < items.len()
        invariant
            0 <= i <= items.len(),
            store.wf(),
            all == item_seq(items@),
            base == text_seq(root@),
            forall|k: int|
                0 <= k < items.len() ==> (#[trigger] items@[k]).parts.len() <= root.len() + depth,
            start == old(store)@,
            start.submap_of(store@),
            level_built(start, all, i as nat, base, depth as nat) == (Built {
                store: store@,
                failed: None,
            }),
            store@.dom() == start.dom().union(level_names(all, i as nat, base, depth as nat)),
            entry_seq(entries@) == level_entries(all, i as nat, base, depth as nat),
            forall|seg: Seq<char>| text_seq(seen@).contains(seg) <==> seen_dir(all, i as int, base, seg),
            forall|seg: Seq<char>| #[trigger]
                seen_dir(all, i as int, base, seg) ==> depth > 0 && holds_trees(
                    store@,
                    all,
                    base.push(seg),
                    (depth - 1) as nat,
                ),
        decreases items.len() - i,
    {
        let item = &items[i];
        let ghost before = entry_seq(entries@);
        let ghost seen_before = text_seq(seen@);
        let ghost held = store@;
        let ghost mut made = false;
        assert(all[i as int] == item@);
        assert(item.parts.len() <= root.len() + depth);
        proof {
            assert forall|seg: Seq<char>|
                seen_dir(all, i + 1, base, seg) <==> (seen_dir(all, i as int, base, seg)
                    || opens_dir(all, i as int, base, seg)) by {
                lemma_seen_step(all, i as int, base, seg);
            }
        }
        if crate::path::parts_start_with(&item.parts, root) && item.parts.len() > root.len() {
            if item.parts.len() == root.len() + 1 {
                entries.push(
                    TreeEntry {
                        kind: EntryKind::Blob,
                        mode: item.mode.clone(),
                        object_hash: item.hash.clone(),
                        name: item.parts[root.len()].clone(),
                    },
                );
                assert(entry_seq(entries@) =~= before.push(
                    TreeEntryView {
                        kind: EntryKind::Blob,
                        mode: item@.mode,
                        object_hash: item@.hash,
                        name: item@.parts[root.len() as int],
                    },
                ));
            } else {
                let seg = &item.parts[root.len()];
                assert(opens_dir(all, i as int, base, seg@));
                if !contains_text(&seen, seg) {
                    proof {
                        made = true;
                    }
                    seen.push(seg.clone());
                    assert(text_seq(seen@) =~= seen_before.push(seg@));
                    let mut sub_root = root.clone();
                    assert(text_seq(sub_root@) =~= base);
                    sub_root.push(seg.clone());
                    assert(text_seq(sub_root@) =~= base.push(seg@));
                    let sub = match store_path_to_tree(items, &sub_root, depth - 1, store) {
                        Ok(sub) => sub,
                        Err(e) => {
                            proof {
                                lemma_submap_trans(start, held, store@);
                                assert(level_built(start, all, (i + 1) as nat, base, depth as nat)
                                    == (Built { store: store@, failed: Some(e) }));
                                lemma_failure_stays(
                                    start,
                                    all,
                                    (i + 1) as nat,
                                    all.len(),
                                    base,
                                    depth as nat,
                                );
                            }
                            return Err(e);
                        },
                    };
                    proof {
                        lemma_submap_trans(start, held, store@);
                        assert(store@.dom() =~= start.dom().union(
                            level_names(all, (i + 1) as nat, base, depth as nat),
                        ));
                        assert forall|s: Seq<char>| #[trigger]
                            seen_dir(all, i + 1, base, s) implies depth > 0 && holds_trees(
                            store@,
                            all,
                            base.push(s),
                            (depth - 1) as nat,
                        ) by {
                            if seen_dir(all, i as int, base, s) {
                                lemma_trees_stay(
                                    held,
                                    store@,
                                    all,
                                    base.push(s),
                                    (depth - 1) as nat,
                                );
                            } else {
                                assert(s == seg@);
                            }
                        }
                    }
                    entries.push(
                        TreeEntry {
                            kind: EntryKind::Tree,
                            mode: String::from_str("40000"),
                            object_hash: sub.hash,
                            name: seg.clone(),
                        },
                    );
                    assert(entry_seq(entries@) =~= before.push(
                        TreeEntryView {
                            kind: EntryKind::Tree,
                            mode: dir_mode(),
                            object_hash: sub@.hash,
                            name: seg@,
                        },
                    ));
                    assert forall|s: Seq<char>| text_seq(seen@).contains(s) <==> seen_dir(
                        all,
                        i + 1,
                        base,
                        s,
                    ) by {
                        if seen_before.contains(s) {
                            let k = choose|k: int| 0 <= k < seen_before.len() && seen_before[k] == s;
                            assert(text_seq(seen@)[k] == s);
                        }
                        if s == seg@ {
                            assert(text_seq(seen@)[seen_before.len() as int] == s);
                        }
                    }
                }
            }
        } else {
            assert forall|seg: Seq<char>| !opens_dir(all, i as int, base, seg) by {}
        }
        proof {
            if !made {
                assert(store@ == held);
                assert forall|s: Seq<char>| #[trigger]
                    seen_dir(all, i + 1, base, s) implies depth > 0 && holds_trees(
                    store@,
                    all,
                    base.push(s),
                    (depth - 1) as nat,
                ) by {
                    if !seen_dir(all, i as int, base, s) {
                        assert(opens_dir(all, i as int, base, s));
                        assert(seen_before.contains(s));
                    }
                }
            }
        }
        i += 1;
    }
    let mut tree = Tree { hash: String::new(), entries };
    let ghost held = store@;
    match tree.save(store) {
        Ok(_) => {
            proof {
                crate::store::saved_keeps_objects(held, tree_text(tree@.entries));
                lemma_submap_trans(start, held, store@);
                assert(store@.dom() =~= start.dom().union(tree_names(all, base, depth as nat)));
                if depth > 0 {
                    assert forall|s: Seq<char>| #[trigger]
                        seen_dir(all, all.len() as int, base, s) implies holds_trees(
                        store@,
                        all,
                        base.push(s),
                        (depth - 1) as nat,
                    ) by {
                        lemma_trees_stay(held, store@, all, base.push(s), (depth - 1) as nat);
                    }
                }
            }
            Ok(tree)
        },
        Err(e) => Err(e),
    }
}

proof fn lemma_submap_trans(
    a: Map<Seq<char>, Seq<char>>,
    b: Map<Seq<char>, Seq<char>>,
    c: Map<Seq<char>, Seq<char>>,
)
    requires
        a.submap_of(b),
        b.submap_of(c),
    ensures
        a.submap_of(c),
{
    assert forall|k: Seq<char>| #[trigger] a.dom().contains(k) implies c.dom().contains(k) && a[k]
        == c[k] by {
        assert(b.dom().contains(k));
        assert(c.dom().contains(k));
    }
}

impl Tree {
    /// Builds and stores the snapshot of everything that is staged: the tree
    /// of the working tree's root and the trees of all directories below it.
    /// The first tree that cannot be stored ends the building; the trees
    /// stored before it stay.
    pub fn new(index: &Index, store: &mut Store) -> (built: Result<Tree, Fatal>)
        requires
            index.wf(),
            old(store).wf(),
        ensures
            final(store).wf(),
            old(store)@.submap_of(final(store)@),
            final(store)@ == snapshot_built(old(store)@, index).store,
            match snapshot_built(old(store)@, index).failed {
                None => built is Ok,
                Some(e) => built == Err::<Tree, Fatal>(e),
            },
            match built {
                Ok(tree) => {
                    &&& tree@.entries == level_entries(
                        index_items(index),
                        index_items(index).len(),
                        Seq::empty(),
                        longest(index_items(index)),
                    )
                    &&& tree@.hash == tree_hash(tree@.entries)
                    &&& tree@.hash.len() == 40
                    &&& read_tree(final(store)@, tree@.hash) == Ok::<Seq<TreeEntryView>, Fatal>(
                        tree@.entries,
                    )
                    &&& final(store)@.dom() == old(store)@.dom().union(
                        tree_names(index_items(index), Seq::empty(), longest(index_items(index))),
                    )
                    &&& holds_trees(
                        final(store)@,
                        index_items(index),
                        Seq::empty(),
                        longest(index_items(index)),
                    )
                },
                Err(e) => e == Fatal::Unprintable || e == Fatal::Malformed,
            },
    {
        let mut items: Vec<TrackedItem> = Vec::new();
        let mut depth: usize = 0;
        let mut i: usize = 0;
        assert(item_seq(items@) =~= index_items(index).take(0));
        while i < index.entries.entries.len()
            invariant
                0 <= i <= index.entries.entries.len(),
                index.wf(),
                item_seq(items@) == index_items(index).take(i as int),
                depth == longest(item_seq(items@)),
            decreases index.entries.entries.len() - i,
        {
            let entry = &index.entries.entries[i];
            let ghost before = item_seq(items@);
            assert(index.entries.keys()[i as int] == entry.key@);
            assert(entry.key@.absolute);
            let rel = to_workdir_relative_path(&entry.key, &index.dirs);
            if rel.parts.len() > depth {
                depth = rel.parts.len();
            }
            items.push(
                TrackedItem {
                    parts: rel.parts,
                    mode: entry.value.mode.clone(),
                    hash: entry.value.hash.clone(),
                },
            );
            assert(item_seq(items@) =~= before.push(index_items(index)[i as int]));
            assert(index_items(index).take(i + 1) =~= before.push(index_items(index)[i as int]));
            assert(item_seq(items@).drop_last() =~= before);
            i += 1;
        }
        assert(index_items(index).take(i as int) =~= index_items(index));
        let root: Vec<String> = Vec::new();
        assert(text_seq(root@) =~= Seq::empty());
        proof {
            assert forall|k: int| 0 <= k < items.len() implies (#[trigger] items@[k]).parts.len()
                <= root.len() + depth by {
                lemma_longest(item_seq(items@), k);
                assert(item_seq(items@)[k].parts.len() == items@[k].parts.len());
            }
        }
        store_path_to_tree(&items, &root, depth, store)
    }
}

} // verus!
