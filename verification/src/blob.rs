//! Blobs: the stored content of one file.

use crate::hash::{calc_hash, content_hash};
use crate::path::Path;
use crate::store::{saved, Fatal, Store};
use crate::worktree::{written, Timestamp, WorkTree};
use vstd::prelude::*;

verus! {

/// A file's content together with its hash.
#[derive(Debug)]
pub struct Blob {
    pub hash: String,
    pub data: String,
}

/// What a `Blob` stands for in specifications.
pub struct BlobView {
    pub hash: Seq<char>,
    pub data: Seq<char>,
}

impl View for Blob {
    type V = BlobView;

    open spec fn view(&self) -> BlobView {
        BlobView { hash: self.hash@, data: self.data@ }
    }
}

impl Clone for Blob {
    fn clone(&self) -> (copy: Blob)
        ensures
            copy@ == self@,
    {
        Blob { hash: self.hash.clone(), data: self.data.clone() }
    }
}

impl Blob {
    /// The hash is the hash of the data.
    pub open spec fn wf(&self) -> bool {
        self@.hash == content_hash(self@.data)
    }

    /// The blob of a content, saved in the store unless it is there.
    pub fn new(data: String, store: &mut Store) -> (blob: Blob)
        requires
            old(store).wf(),
        ensures
            final(store).wf(),
            blob.wf(),
            blob@.data == data@,
            blob@.hash.len() == 40,
            final(store)@ == saved(old(store)@, data@),
            final(store)@.contains_key(blob@.hash),
    {
        let blob = Blob::dry_new(data);
        blob.save(store);
        blob
    }

    /// The blob of a content, without saving it.
    pub fn dry_new(data: String) -> (blob: Blob)
        ensures
            blob.wf(),
            blob@.data == data@,
            blob@.hash.len() == 40,
    {
        let hash = calc_hash(&data);
        Blob { hash, data }
    }

    /// The blob that the store holds under `hash`.
    pub fn load(hash: &String, store: &Store) -> (blob: Result<Blob, Fatal>)
        requires
            store.wf(),
        ensures
            match blob {
                Ok(b) => store@.contains_key(hash@) && b@ == (BlobView {
                    hash: hash@,
                    data: store@[hash@],
                }),
                Err(e) => e == Fatal::Missing && !store@.contains_key(hash@),
            },
    {
        match store.load(hash) {
            Ok(data) => Ok(Blob { hash: hash.clone(), data }),
            Err(e) => Err(e),
        }
    }

    /// Writes the blob's content to `file` at time `now`.
    pub fn restore_to_file(&self, file: &Path, tree: &mut WorkTree, now: Timestamp)
        requires
            old(tree).wf(),
            crate::path::canonical(file@),
        ensures
            final(tree).wf(),
            final(tree).file_map() == old(tree).file_map().insert(
                file@,
                written(
                    if old(tree).has_file(file@) {
                        Some(old(tree).file_map()[file@])
                    } else {
                        None
                    },
                    self@.data,
                    now,
                ),
            ),
    {
        tree.write_file(file, self.data.clone(), now);
    }

    /// Writes the content stored under `hash` to `file` at time `now`.
    /// Without such an object nothing is written.
    pub fn restore(hash: &String, file: &Path, store: &Store, tree: &mut WorkTree, now: Timestamp)
        -> (done: Result<(), Fatal>)
        requires
            store.wf(),
            old(tree).wf(),
            crate::path::canonical(file@),
        ensures
            final(tree).wf(),
            match done {
                Ok(_) => {
                    &&& store@.contains_key(hash@)
                    &&& final(tree).file_map() == old(tree).file_map().insert(
                        file@,
                        written(
                            if old(tree).has_file(file@) {
                                Some(old(tree).file_map()[file@])
                            } else {
                                None
                            },
                            store@[hash@],
                            now,
                        ),
                    )
                },
                Err(e) => {
                    &&& e == Fatal::Missing
                    &&& !store@.contains_key(hash@)
                    &&& final(tree).file_map() == old(tree).file_map()
                },
            },
    {
        match Blob::load(hash, store) {
            Ok(blob) => {
                blob.restore_to_file(file, tree, now);
                Ok(())
            },
            Err(e) => Err(e),
        }
    }

    /// Saves the blob unless the store has an object under its hash.
    pub fn save(&self, store: &mut Store)
        requires
            old(store).wf(),
            self.wf(),
        ensures
            final(store).wf(),
            final(store)@ == saved(old(store)@, self@.data),
            final(store)@.contains_key(self@.hash),
    {
        if !store.contains(&self.hash) {
            let _ = store.save(&self.data);
        }
    }

    pub fn get_hash(&self) -> (hash: String)
        ensures
            hash@ == self@.hash,
    {
        self.hash.clone()
    }
}

} // verus!
