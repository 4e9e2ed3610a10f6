//! Telling the kinds of stored objects apart.

use crate::commit::{json_commit, Commit};
use crate::json::{json_parse, Json};
use crate::store::Store;
use crate::tree::{json_tree, Tree};
use vstd::prelude::*;

verus! {

/// The kind of a stored object.
#[derive(Debug, Clone, Copy, PartialEq, Eq, Structural)]
pub enum ObjectType {
    Blob,
    Tree,
    Commit,
    /// There is no object under the name.
    Invalid,
}

/// The kind of the object under `hash`: a commit where its text describes
/// one, else a tree where it describes one, else a blob.
pub open spec fn object_type(store: Map<Seq<char>, Seq<char>>, hash: Seq<char>) -> ObjectType {
    if !store.contains_key(hash) {
        ObjectType::Invalid
    } else {
        match json_parse(store[hash]) {
            Some(doc) => if json_commit(doc, hash).is_some() {
                ObjectType::Commit
            } else if json_tree(doc).is_some() {
                ObjectType::Tree
            } else {
                ObjectType::Blob
            },
            None => ObjectType::Blob,
        }
    }
}

/// The kind of the object under `hash`.
pub fn check_object_type(hash: &String, store: &Store) -> (kind: ObjectType)
    requires
        store.wf(),
    ensures
        kind == object_type(store@, hash@),
{
    let content = match store.load(hash) {
        Ok(content) => content,
        Err(_) => { return ObjectType::Invalid; },
    };
    let doc = match Json::parse(&content) {
        Some(doc) => doc,
        None => { return ObjectType::Blob; },
    };
    if Commit::from_json(&doc, hash).is_some() {
        ObjectType::Commit
    } else if Tree::from_json(&doc).is_some() {
        ObjectType::Tree
    } else {
        ObjectType::Blob
    }
}

/// Whether the object under `hash` is a commit.
pub fn is_typeof_commit(hash: &String, store: &Store) -> (yes: bool)
    requires
        store.wf(),
    ensures
        yes == (object_type(store@, hash@) == ObjectType::Commit),
{
    check_object_type(hash, store) == ObjectType::Commit
}

} // verus!
