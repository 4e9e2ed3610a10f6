//! The path arithmetic as methods of a path.

use crate::path::{
    absolute_form, all_resolve, get_absolute_path, get_relative_path, include_in_paths, included,
    is_sub_path, path_seq, relative_form, resolves, starts_with, to_workdir_absolute_path,
    to_workdir_relative_path, Dirs, Path, PathView,
};
use vstd::prelude::*;

verus! {

/// What can be asked of a path, given the directories it is read from.
pub trait PathExt: View<V = PathView> + Sized {
    /// The path made absolute against the current directory.
    fn to_absolute(&self, dirs: &Dirs) -> (abs: Path)
        requires
            resolves(self@, dirs@.current),
        ensures
            abs@ == absolute_form(self@, dirs@.current),
    ;

    /// The path, read from the working tree's root, made absolute.
    fn to_absolute_workdir(&self, dirs: &Dirs) -> (abs: Path)
        requires
            resolves(self@, dirs@.work),
        ensures
            abs@ == absolute_form(self@, dirs@.work),
    ;

    /// The path as seen from the current directory.
    fn to_relative(&self, dirs: &Dirs) -> (rel: Path)
        requires
            dirs@.wf(),
            resolves(self@, dirs@.current),
        ensures
            rel@ == relative_form(absolute_form(self@, dirs@.current), dirs@.current),
    ;

    /// The path as seen from the working tree's root.
    fn to_relative_workdir(&self, dirs: &Dirs) -> (rel: Path)
        requires
            dirs@.wf(),
            resolves(self@, dirs@.current),
        ensures
            rel@ == relative_form(absolute_form(self@, dirs@.current), dirs@.work),
    ;

    /// Whether the path lies at or below `parent`, whether or not either
    /// exists.
    fn is_sub_to(&self, parent: &Path, dirs: &Dirs) -> (yes: bool)
        requires
            resolves(self@, dirs@.current),
            resolves(parent@, dirs@.current),
        ensures
            yes == starts_with(
                absolute_form(self@, dirs@.current),
                absolute_form(parent@, dirs@.current),
            ),
    ;

    /// Whether the path lies at or below one of `paths`.
    fn include_in(&self, paths: &Vec<Path>, dirs: &Dirs) -> (yes: bool)
        requires
            resolves(self@, dirs@.current),
            all_resolve(path_seq(paths@), dirs@.current),
        ensures
            yes == included(self@, path_seq(paths@), dirs@.current),
    ;
}

impl PathExt for Path {
    fn to_absolute(&self, dirs: &Dirs) -> (abs: Path) {
        get_absolute_path(self, dirs)
    }

    fn to_absolute_workdir(&self, dirs: &Dirs) -> (abs: Path) {
        to_workdir_absolute_path(self, dirs)
    }

    fn to_relative(&self, dirs: &Dirs) -> (rel: Path) {
        get_relative_path(self, dirs)
    }

    fn to_relative_workdir(&self, dirs: &Dirs) -> (rel: Path) {
        to_workdir_relative_path(self, dirs)
    }

    fn is_sub_to(&self, parent: &Path, dirs: &Dirs) -> (yes: bool) {
        is_sub_path(self, parent, dirs)
    }

    fn include_in(&self, paths: &Vec<Path>, dirs: &Dirs) -> (yes: bool) {
        include_in_paths(self, paths, dirs)
    }
}

} // verus!
