//! Commits: a snapshot's tree with the commits it follows and a message.

use crate::hash::{calc_hash, content_hash};
use crate::index::Index;
use crate::json::{json_parse, json_text, Json, JsonValue, Member, MemberValue};
use crate::path::text_seq;
use crate::store::{document_saved, saved, Fatal, Store};
use crate::tree::{
    holds_trees, index_items, level_entries, longest, read_tree, snapshot_built, tree_hash,
    tree_names, Tree, TreeEntryView,
};
use vstd::prelude::*;

verus! {

/// A commit. The hash is the name under which the commit is stored; it is
/// empty until the commit is saved.
#[derive(Debug)]
pub struct Commit {
    pub hash: String,
    pub author: String,
    pub committer: String,
    pub message: String,
    pub parent: Vec<String>,
    pub tree: String,
}

/// What a `Commit` stands for in specifications.
pub struct CommitView {
    pub hash: Seq<char>,
    pub author: Seq<char>,
    pub committer: Seq<char>,
    pub message: Seq<char>,
    pub parent: Seq<Seq<char>>,
    pub tree: Seq<char>,
}

impl View for Commit {
    type V = CommitView;

    open spec fn view(&self) -> CommitView {
        CommitView {
            hash: self.hash@,
            author: self.author@,
            committer: self.committer@,
            message: self.message@,
            parent: text_seq(self.parent@),
            tree: self.tree@,
        }
    }
}

impl Clone for Commit {
    fn clone(&self) -> (copy: Commit)
        ensures
            copy@ == self@,
    {
        let parent = self.parent.clone();
        assert(text_seq(parent@) =~= text_seq(self.parent@));
        Commit {
            hash: self.hash.clone(),
            author: self.author.clone(),
            committer: self.committer.clone(),
            message: self.message.clone(),
            parent,
            tree: self.tree.clone(),
        }
    }
}

/// The documents of a list of texts.
pub open spec fn texts_json(texts: Seq<Seq<char>>) -> Seq<JsonValue> {
    Seq::new(texts.len(), |i: int| JsonValue::Text(texts[i]))
}

/// The document of a commit. The hash is no part of it.
pub open spec fn commit_json(commit: CommitView) -> JsonValue {
    JsonValue::Object(
        seq![
            MemberValue { name: "author"@, value: JsonValue::Text(commit.author) },
            MemberValue { name: "committer"@, value: JsonValue::Text(commit.committer) },
            MemberValue { name: "message"@, value: JsonValue::Text(commit.message) },
            MemberValue { name: "parent"@, value: JsonValue::Array(texts_json(commit.parent)) },
            MemberValue { name: "tree"@, value: JsonValue::Text(commit.tree) },
        ],
    )
}

/// The commit that a document describes, if it describes one, under the
/// name `hash`.
pub open spec fn json_commit(doc: JsonValue, hash: Seq<char>) -> Option<CommitView> {
    if doc is Object && doc->Object_0.len() == 5 && doc->Object_0[0].name == "author"@
        && doc->Object_0[1].name == "committer"@ && doc->Object_0[2].name == "message"@
        && doc->Object_0[3].name == "parent"@ && doc->Object_0[4].name == "tree"@
        && doc->Object_0[0].value is Text && doc->Object_0[1].value is Text
        && doc->Object_0[2].value is Text && doc->Object_0[3].value is Array
        && doc->Object_0[4].value is Text && (forall|i: int|
        0 <= i < doc->Object_0[3].value->Array_0.len() ==> (
        #[trigger] doc->Object_0[3].value->Array_0[i]) is Text) {
        Some(
            CommitView {
                hash,
                author: doc->Object_0[0].value->Text_0,
                committer: doc->Object_0[1].value->Text_0,
                message: doc->Object_0[2].value->Text_0,
                parent: Seq::new(
                    doc->Object_0[3].value->Array_0.len(),
                    |i: int| doc->Object_0[3].value->Array_0[i]->Text_0,
                ),
                tree: doc->Object_0[4].value->Text_0,
            },
        )
    } else {
        None
    }
}

/// The text under which a commit is stored.
pub open spec fn commit_text(commit: CommitView) -> Seq<char> {
    json_text(commit_json(commit))
}

/// The name under which a commit is stored.
pub open spec fn commit_hash(commit: CommitView) -> Seq<char> {
    content_hash(commit_text(commit))
}

/// What reading the commit under `hash` gives: the commit, or why there is
/// none.
pub open spec fn read_commit(store: Map<Seq<char>, Seq<char>>, hash: Seq<char>) -> Result<
    CommitView,
    Fatal,
> {
    if !store.contains_key(hash) {
        Err(Fatal::Missing)
    } else {
        match json_parse(store[hash]) {
            Some(doc) => match json_commit(doc, hash) {
                Some(commit) => Ok(commit),
                None => Err(Fatal::Malformed),
            },
            None => Err(Fatal::Malformed),
        }
    }
}

/// A commit's document describes the commit.
pub proof fn commit_json_reads_back(commit: CommitView, hash: Seq<char>)
    ensures
        json_commit(commit_json(commit), hash) == Some(CommitView { hash, ..commit }),
{
    let doc = commit_json(commit);
    let found = json_commit(doc, hash);
    assert(doc->Object_0[3].value->Array_0 == texts_json(commit.parent));
    assert(found.is_some());
    assert(found.unwrap().parent =~= commit.parent);
}

fn text_doc(value: &String) -> (doc: Json)
    ensures
        doc@ == JsonValue::Text(value@),
{
    Json::Text(value.clone())
}

fn named(name: &str, value: Json) -> (m: Member)
    ensures
        m.name@ == name@,
        m.value@ == value@,
{
    Member { name: String::from_str(name), value }
}

fn has_name(m: &Member, word: &str) -> (yes: bool)
    ensures
        yes == (m.name@ == word@),
{
    m.name == String::from_str(word)
}

/// The author that every commit is made under.
pub open spec fn default_author() -> Seq<char> {
    "mit"@
}

/// The committer that every commit is made under.
pub open spec fn default_committer() -> Seq<char> {
    "mit-author"@
}

impl Commit {
    pub fn get_hash(&self) -> (hash: String)
        ensures
            hash@ == self@.hash,
    {
        self.hash.clone()
    }

    pub fn get_tree_hash(&self) -> (hash: String)
        ensures
            hash@ == self@.tree,
    {
        self.tree.clone()
    }

    /// The commit's tree, as the store holds it.
    pub fn get_tree(&self, store: &Store) -> (tree: Result<Tree, Fatal>)
        requires
            store.wf(),
        ensures
            match tree {
                Ok(t) => read_tree(store@, self@.tree) == Ok::<Seq<TreeEntryView>, Fatal>(
                    t@.entries,
                ) && t@.hash == self@.tree,
                Err(e) => read_tree(store@, self@.tree) == Err::<Seq<TreeEntryView>, Fatal>(e),
            },
    {
        Tree::load(&self.tree, store)
    }

    pub fn get_parent_hash(&self) -> (parent: Vec<String>)
        ensures
            text_seq(parent@) == self@.parent,
    {
        let parent = self.parent.clone();
        assert(text_seq(parent@) =~= text_seq(self.parent@));
        parent
    }

    pub fn get_message(&self) -> (message: String)
        ensures
            message@ == self@.message,
    {
        self.message.clone()
    }

    pub fn get_author(&self) -> (author: String)
        ensures
            author@ == self@.author,
    {
        self.author.clone()
    }

    pub fn get_committer(&self) -> (committer: String)
        ensures
            committer@ == self@.committer,
    {
        self.committer.clone()
    }

    /// A commit of everything that is staged. The snapshot's trees are
    /// stored; the commit itself is not, and has no hash yet. There is no
    /// commit where one of the trees cannot be stored; the trees stored
    /// before that one stay.
    pub fn new(index: &Index, parent: Vec<String>, message: String, store: &mut Store) -> (made:
        Result<Commit, Fatal>)
        requires
            index.wf(),
            old(store).wf(),
        ensures
            final(store).wf(),
            old(store)@.submap_of(final(store)@),
            final(store)@ == snapshot_built(old(store)@, index).store,
            match snapshot_built(old(store)@, index).failed {
                None => made is Ok,
                Some(e) => made == Err::<Commit, Fatal>(e),
            },
            match made {
                Ok(commit) => {
                    &&& commit@ == (CommitView {
                        hash: Seq::empty(),
                        author: default_author(),
                        committer: default_committer(),
                        message: message@,
                        parent: text_seq(parent@),
                        tree: tree_hash(
                            level_entries(
                                index_items(index),
                                index_items(index).len(),
                                Seq::empty(),
                                longest(index_items(index)),
                            ),
                        ),
                    })
                    &&& read_tree(final(store)@, commit@.tree) == Ok::<Seq<TreeEntryView>, Fatal>(
                        level_entries(
                            index_items(index),
                            index_items(index).len(),
                            Seq::empty(),
                            longest(index_items(index)),
                        ),
                    )
                    &&& final(store)@.dom() == old(store)@.dom().union(
                        tree_names(index_items(index), Seq::empty(), longest(index_items(index))),
                    )
                    &&& holds_trees(
                        final(store)@,
                        index_items(index),
                        Seq::empty(),
                        longest(index_items(index)),
                    )
                },
                Err(e) => e == Fatal::Unprintable || e == Fatal::Malformed,
            },
    {
        let tree = match Tree::new(index, store) {
            Ok(tree) => tree,
            Err(e) => { return Err(e); },
        };
        Ok(
            Commit {
                hash: String::new(),
                author: String::from_str("mit"),
                committer: String::from_str("mit-author"),
                message,
                parent,
                tree: tree.hash,
            },
        )
    }

    /// The document of the commit.
    pub fn to_json(&self) -> (doc: Json)
        ensures
            doc@ == commit_json(self@),
    {
        let mut parents: Vec<Json> = Vec::new();
        let mut i: usize = 0;
        while i < self.parent.len()
            invariant
                0 <= i <= self.parent.len(),
                parents.len() == i,
                forall|k: int| 0 <= k < i ==> parents@[k]@ == JsonValue::Text(self.parent@[k]@),
            decreases self.parent.len() - i,
        {
            parents.push(text_doc(&self.parent[i]));
            i += 1;
        }
        let parents = Json::Array(parents);
        assert(parents@->Array_0 =~= texts_json(self@.parent));
        let mut members: Vec<Member> = Vec::new();
        members.push(named("author", text_doc(&self.author)));
        members.push(named("committer", text_doc(&self.committer)));
        members.push(named("message", text_doc(&self.message)));
        members.push(named("parent", parents));
        members.push(named("tree", text_doc(&self.tree)));
        let doc = Json::Object(members);
        assert(doc@->Object_0 =~= commit_json(self@)->Object_0);
        doc
    }

    /// The commit that a document describes, under the name `hash`.
    pub fn from_json(doc: &Json, hash: &String) -> (commit: Option<Commit>)
        ensures
            match commit {
                Some(c) => json_commit(doc@, hash@) == Some(c@),
                None => json_commit(doc@, hash@).is_none(),
            },
    {
        let members = match doc {
            Json::Object(members) => members,
            _ => { return None; },
        };
        if members.len() != 5 {
            return None;
        }
        assert forall|k: int| 0 <= k < 5 implies #[trigger] doc@->Object_0[k] == (MemberValue {
            name: members@[k].name@,
            value: members@[k].value@,
        }) by {}
        if !has_name(&members[0], "author") || !has_name(&members[1], "committer") || !has_name(
            &members[2],
            "message",
        ) || !has_name(&members[3], "parent") || !has_name(&members[4], "tree") {
            return None;
        }
        let author = match &members[0].value {
            Json::Text(text) => text,
            _ => { return None; },
        };
        let committer = match &members[1].value {
            Json::Text(text) => text,
            _ => { return None; },
        };
        let message = match &members[2].value {
            Json::Text(text) => text,
            _ => { return None; },
        };
        let docs = match &members[3].value {
            Json::Array(docs) => docs,
            _ => { return None; },
        };
        let tree = match &members[4].value {
            Json::Text(text) => text,
            _ => { return None; },
        };
        let ghost list = doc@->Object_0[3].value->Array_0;
        assert(list.len() == docs.len());
        let mut parent: Vec<String> = Vec::new();
        let mut i: usize = 0;
        while i < docs.len()
            invariant
                0 <= i <= docs.len(),
                parent.len() == i,
                list.len() == docs.len(),
                list == doc@->Object_0[3].value->Array_0,
                doc@ is Object,
                doc@->Object_0.len() == 5,
                doc@->Object_0[3].value is Array,
                forall|k: int| 0 <= k < docs.len() ==> list[k] == docs@[k]@,
                forall|k: int|
                    0 <= k < i ==> (#[trigger] list[k]) is Text && list[k]->Text_0 == parent@[k]@,
            decreases docs.len() - i,
        {
            match &docs[i] {
                Json::Text(text) => {
                    parent.push(text.clone());
                },
                _ => {
                    assert(!(list[i as int] is Text));
                    return None;
                },
            }
            i += 1;
        }
        let commit = Commit {
            hash: hash.clone(),
            author: author.clone(),
            committer: committer.clone(),
            message: message.clone(),
            parent,
            tree: tree.clone(),
        };
        assert(json_commit(doc@, hash@).is_some());
        assert(json_commit(doc@, hash@).unwrap().parent =~= commit@.parent);
        Some(commit)
    }

    /// The commit that the store holds under `hash`.
    pub fn load(hash: &String, store: &Store) -> (commit: Result<Commit, Fatal>)
        requires
            store.wf(),
        ensures
            match commit {
                Ok(c) => read_commit(store@, hash@) == Ok::<CommitView, Fatal>(c@),
                Err(e) => read_commit(store@, hash@) == Err::<CommitView, Fatal>(e),
            },
    {
        let content = match store.load(hash) {
            Ok(content) => content,
            Err(e) => { return Err(e); },
        };
        let doc = match Json::parse(&content) {
            Some(doc) => doc,
            None => { return Err(Fatal::Malformed); },
        };
        match Commit::from_json(&doc, hash) {
            Some(commit) => Ok(commit),
            None => Err(Fatal::Malformed),
        }
    }

    /// Stores the commit and gives it its hash. This fails where the
    /// commit's text does not read back as the commit, and where the store
    /// holds another text under the commit's hash already; then nothing is
    /// stored.
    pub fn save(&mut self, store: &mut Store) -> (hash: Result<String, Fatal>)
        requires
            old(store).wf(),
        ensures
            final(store).wf(),
            match document_saved(old(store)@, commit_json(old(self)@)) {
                Ok(_) => hash is Ok,
                Err(e) => hash == Err::<String, Fatal>(e),
            },
            match hash {
                Ok(h) => {
                    &&& h@ == commit_hash(old(self)@)
                    &&& h@.len() == 40
                    &&& final(self)@ == (CommitView { hash: h@, ..old(self)@ })
                    &&& final(store)@ == saved(old(store)@, commit_text(old(self)@))
                    &&& final(store)@.contains_key(h@)
                    &&& final(store)@[h@] == commit_text(old(self)@)
                    &&& read_commit(final(store)@, h@) == Ok::<CommitView, Fatal>(final(self)@)
                },
                Err(e) => {
                    &&& (e == Fatal::Unprintable || e == Fatal::Malformed)
                    &&& final(self)@ == old(self)@
                    &&& final(store)@ == old(store)@
                    &&& final(store).names() == old(store).names()
                },
            },
    {
        let doc = self.to_json();
        let content = match doc.render() {
            Some(content) => content,
            None => { return Err(Fatal::Unprintable); },
        };
        let hash = calc_hash(&content);
        match store.load(&hash) {
            Ok(present) => {
                if present != content {
                    return Err(Fatal::Malformed);
                }
            },
            Err(_) => {},
        }
        let hash = store.save(&content);
        proof {
            commit_json_reads_back(self@, hash@);
        }
        self.hash = hash.clone();
        Ok(hash)
    }
}

} // verus!
