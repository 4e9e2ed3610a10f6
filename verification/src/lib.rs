//! A small content-addressed version-control engine.
//!
//! The repository is an explicit value: an object store, the refs and `HEAD`,
//! the staging area and a picture of the working directory. Every command is
//! a function on that value; reading the value from disk and writing it back
//! is left to the caller.
//!
//! The contracts are stated over mathematical views: the store is a map from
//! names to texts, the staging area a map from canonical paths to records,
//! the working directory a map from canonical paths to files.

pub mod blob;
pub mod commands;
pub mod commit;
pub mod hash;
pub mod head;
pub mod index;
pub mod json;
pub mod list;
pub mod listing;
pub mod object;
pub mod path;
pub mod path_ext;
pub mod repo;
pub mod restore;
pub mod status;
pub mod store;
pub mod table;
pub mod text;
pub mod tree;
pub mod worktree;
