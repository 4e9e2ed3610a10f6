//! The object store: texts kept under the hash of their content.

use crate::hash::{calc_hash, content_hash};
use crate::json::{json_text, reads_back, JsonValue};
use crate::table::Table;
use crate::text::starts_with;
use vstd::prelude::*;

verus! {

/// A failure that no command recovers from: the repository itself is not in
/// order.
#[derive(Debug, Clone, Copy, PartialEq, Eq, Structural)]
pub enum Fatal {
    /// The store has no object under the name that was asked for.
    Missing,
    /// A stored object is not what it was read as.
    Malformed,
    /// An object could not be put into a text that reads back as itself.
    Unprintable,
    /// Trees or commits refer to each other in a circle.
    Cyclic,
}

/// The object store: one text per name.
pub struct Store {
    pub objects: Table<String, String>,
}

impl View for Store {
    type V = Map<Seq<char>, Seq<char>>;

    open spec fn view(&self) -> Map<Seq<char>, Seq<char>> {
        self.objects.map()
    }
}

/// The names that begin with `prefix`, in their order.
pub open spec fn candidates(names: Seq<Seq<char>>, prefix: Seq<char>) -> Seq<Seq<char>> {
    names.filter(|name: Seq<char>| prefix.is_prefix_of(name))
}

/// What a search for `prefix` finds: the one name that begins with it. An
/// empty prefix, no such name and several such names all find nothing.
pub open spec fn search_result(names: Seq<Seq<char>>, prefix: Seq<char>) -> Option<Seq<char>> {
    let found = candidates(names, prefix);
    if prefix.len() > 0 && found.len() == 1 {
        Some(found[0])
    } else {
        None
    }
}

/// The store after `content` was saved: a name that is taken stays as it is.
pub open spec fn saved(objects: Map<Seq<char>, Seq<char>>, content: Seq<char>) -> Map<
    Seq<char>,
    Seq<char>,
> {
    if objects.contains_key(content_hash(content)) {
        objects
    } else {
        objects.insert(content_hash(content), content)
    }
}

/// What storing an object with the document `doc` comes to. The object
/// cannot be put into words where its text does not read back as the
/// document; it is not stored where the store holds another text under its
/// name.
pub open spec fn document_saved(store: Map<Seq<char>, Seq<char>>, doc: JsonValue) -> Result<
    (),
    Fatal,
> {
    if !reads_back(doc) {
        Err(Fatal::Unprintable)
    } else if store.contains_key(content_hash(json_text(doc))) && store[content_hash(
        json_text(doc),
    )] != json_text(doc) {
        Err(Fatal::Malformed)
    } else {
        Ok(())
    }
}

/// Saving a text a second time changes nothing: the object is written once.
pub proof fn save_twice_writes_once(objects: Map<Seq<char>, Seq<char>>, content: Seq<char>)
    ensures
        saved(saved(objects, content), content) == saved(objects, content),
{
}

/// A saved text loads back under its hash, unless the store already held
/// another text under that name.
pub proof fn saved_text_loads_back(objects: Map<Seq<char>, Seq<char>>, content: Seq<char>)
    requires
        objects.contains_key(content_hash(content)) ==> objects[content_hash(content)] == content,
    ensures
        saved(objects, content).contains_key(content_hash(content)),
        saved(objects, content)[content_hash(content)] == content,
{
}

/// Saving never removes or changes an object.
pub proof fn saved_keeps_objects(objects: Map<Seq<char>, Seq<char>>, content: Seq<char>)
    ensures
        objects.submap_of(saved(objects, content)),
{
}

impl Store {
    /// No name occurs twice.
    pub open spec fn wf(&self) -> bool {
        self.objects.wf()
    }

    /// The names of the objects, in the order in which they were added.
    pub open spec fn names(&self) -> Seq<Seq<char>> {
        self.objects.keys()
    }

    /// A store without objects.
    pub fn new() -> (store: Store)
        ensures
            store.wf(),
            store@ == Map::<Seq<char>, Seq<char>>::empty(),
            store.names() == Seq::<Seq<char>>::empty(),
    {
        Store { objects: Table::new() }
    }

    /// Places a text under a given name, as a store that is read from disk
    /// holds it. The name is not checked against the text.
    pub fn put(&mut self, name: String, content: String)
        requires
            old(self).wf(),
        ensures
            final(self).wf(),
            final(self)@ == old(self)@.insert(name@, content@),
            old(self)@.contains_key(name@) ==> final(self).names() == old(self).names(),
            !old(self)@.contains_key(name@) ==> final(self).names() == old(self).names().push(
                name@,
            ),
    {
        self.objects.insert(name, content);
    }

    /// The text stored under `hash`.
    pub fn load(&self, hash: &String) -> (content: Result<String, Fatal>)
        requires
            self.wf(),
        ensures
            match content {
                Ok(text) => self@.contains_key(hash@) && text@ == self@[hash@],
                Err(e) => e == Fatal::Missing && !self@.contains_key(hash@),
            },
    {
        match self.objects.get(hash) {
            Some(text) => Ok(text.clone()),
            None => Err(Fatal::Missing),
        }
    }

    /// Whether an object is stored under `hash`.
    pub fn contains(&self, hash: &String) -> (yes: bool)
        ensures
            yes == self@.contains_key(hash@),
    {
        self.objects.contains(hash)
    }

    /// Writes the text stored under `hash` to `file` at time `now`. Without
    /// such an object nothing is written.
    pub fn restore_to_file(
        &self,
        hash: &String,
        file: &crate::path::Path,
        tree: &mut crate::worktree::WorkTree,
        now: crate::worktree::Timestamp,
    ) -> (done: Result<(), Fatal>)
        requires
            self.wf(),
            old(tree).wf(),
            crate::path::canonical(file@),
        ensures
            final(tree).wf(),
            match done {
                Ok(_) => {
                    &&& self@.contains_key(hash@)
                    &&& final(tree).file_map() == old(tree).file_map().insert(
                        file@,
                        crate::worktree::written(
                            if old(tree).has_file(file@) {
                                Some(old(tree).file_map()[file@])
                            } else {
                                None
                            },
                            self@[hash@],
                            now,
                        ),
                    )
                },
                Err(e) => {
                    &&& e == Fatal::Missing
                    &&& !self@.contains_key(hash@)
                    &&& final(tree).file_map() == old(tree).file_map()
                },
            },
    {
        match self.load(hash) {
            Ok(content) => {
                tree.write_file(file, content, now);
                Ok(())
            },
            Err(e) => Err(e),
        }
    }

    /// Finds the object whose name begins with `prefix`. Several such
    /// objects are not told apart from none: both give `None`.
    pub fn search(&self, prefix: &String) -> (found: Option<String>)
        ensures
            match found {
                Some(name) => search_result(self.names(), prefix@) == Some(name@),
                None => search_result(self.names(), prefix@).is_none(),
            },
    {
        if prefix.as_str().unicode_len() == 0 {
            return None;
        }
        let ghost pred = |name: Seq<char>| prefix@.is_prefix_of(name);
        let mut count: usize = 0;
        let mut first: usize = 0;
        let mut i: usize = 0;
        assert(self.names().take(0) =~= Seq::empty());
        while i < self.objects.entries.len()
            invariant
                0 <= i <= self.objects.entries@.len(),
                pred == |name: Seq<char>| prefix@.is_prefix_of(name),
                count == self.names().take(i as int).filter(pred).len(),
                count <= i,
                count > 0 ==> first < i && self.names().take(i as int).filter(pred)[0]
                    == self.names()[first as int],
            decreases self.objects.entries@.len() - i,
        {
            proof {
                let before = self.names().take(i as int);
                assert(self.names().take(i + 1) =~= before.push(self.names()[i as int]));
                before.lemma_filter_push(self.names()[i as int], pred);
            }
            if starts_with(self.objects.entries[i].key.as_str(), prefix.as_str()) {
                if count == 0 {
                    first = i;
                }
                count += 1;
            }
            i += 1;
        }
        assert(self.names().take(i as int) =~= self.names());
        if count == 1 {
            Some(self.objects.entries[first].key.clone())
        } else {
            None
        }
    }

    /// Stores `content` under its hash and returns the hash. Where the name
    /// is taken already, nothing is written.
    pub fn save(&mut self, content: &String) -> (hash: String)
        requires
            old(self).wf(),
        ensures
            final(self).wf(),
            hash@ == content_hash(content@),
            hash@.len() == 40,
            final(self)@ == saved(old(self)@, content@),
            final(self)@.contains_key(hash@),
            final(self).names() == if old(self)@.contains_key(hash@) {
                old(self).names()
            } else {
                old(self).names().push(hash@)
            },
    {
        let hash = calc_hash(content);
        if !self.objects.contains(&hash) {
            self.objects.insert(hash.clone(), content.clone());
        }
        hash
    }
}

} // verus!
