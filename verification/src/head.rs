//! `HEAD` and the branches: where the checkout stands, and the commit each
//! branch points to.

use crate::path::text_seq;
use crate::table::Table;
use crate::text::{starts_with, strip_all, strip_leading, trim_blank_end, trim_end};
use vstd::prelude::*;

verus! {

/// Where the checkout stands: on a branch, or on a commit of its own.
#[derive(Debug)]
pub enum Head {
    Detached(String),
    Branch(String),
}

/// What a `Head` stands for in specifications.
pub enum HeadView {
    Detached(Seq<char>),
    Branch(Seq<char>),
}

impl View for Head {
    type V = HeadView;

    open spec fn view(&self) -> HeadView {
        match self {
            Head::Detached(hash) => HeadView::Detached(hash@),
            Head::Branch(name) => HeadView::Branch(name@),
        }
    }
}

/// The refs of a repository: the text of `HEAD`, and the commit of each
/// branch.
pub struct Refs {
    pub head: String,
    pub branches: Table<String, String>,
}

/// What stands in `HEAD` in front of a branch's name.
pub open spec fn branch_mark() -> Seq<char> {
    "ref: refs/heads/"@
}

/// What a text of `HEAD` says: with the branch mark in front it names a
/// branch, any other text is a commit's hash. Blanks at the end do not count.
pub open spec fn parse_head(content: Seq<char>) -> HeadView {
    let line = trim_end(content);
    if branch_mark().is_prefix_of(line) {
        HeadView::Branch(strip_all(line, branch_mark()))
    } else {
        HeadView::Detached(line)
    }
}

/// The commit a branch points to; the empty hash where there is no such
/// branch, which also stands for a branch without commits.
pub open spec fn branch_head(branches: Map<Seq<char>, Seq<char>>, name: Seq<char>) -> Seq<char> {
    if branches.contains_key(name) {
        branches[name]
    } else {
        Seq::empty()
    }
}

/// The commit that `HEAD` stands on.
pub open spec fn head_commit(head: Seq<char>, branches: Map<Seq<char>, Seq<char>>) -> Seq<char> {
    match parse_head(head) {
        HeadView::Branch(name) => branch_head(branches, name),
        HeadView::Detached(hash) => hash,
    }
}

/// A text of hex digits in `HEAD` is a commit's hash: it names no branch,
/// and nothing is cut off it.
pub proof fn hex_head_is_detached(hash: Seq<char>)
    requires
        hash.len() > 0,
        crate::hash::all_hex(hash),
    ensures
        parse_head(hash) == HeadView::Detached(hash),
{
    reveal_strlit("ref: refs/heads/");
    assert(crate::hash::is_hex(hash.last()));
    assert(trim_end(hash) =~= hash);
    assert(crate::hash::is_hex(hash[0]));
    if branch_mark().is_prefix_of(hash) {
        assert(hash.subrange(0, branch_mark().len() as int)[0] == branch_mark()[0]);
        assert(branch_mark()[0] == 'r');
    }
}

/// The text of `HEAD` that names a branch.
pub open spec fn branch_line(name: Seq<char>) -> Seq<char> {
    branch_mark() + name
}

impl Refs {
    /// No branch occurs twice.
    pub open spec fn wf(&self) -> bool {
        self.branches.wf()
    }

    /// The branches as a map from names to commits.
    pub open spec fn branch_map(&self) -> Map<Seq<char>, Seq<char>> {
        self.branches.map()
    }

    /// The names of the branches, in the order in which they were made.
    pub open spec fn branch_names(&self) -> Seq<Seq<char>> {
        self.branches.keys()
    }

    /// The refs of a fresh repository: `HEAD` on the branch `master`, which
    /// has no commit and is not listed yet.
    pub fn new() -> (refs: Refs)
        ensures
            refs.wf(),
            refs.head@ == "ref: refs/heads/master\n"@,
            refs.branch_map() == Map::<Seq<char>, Seq<char>>::empty(),
            refs.branch_names() == Seq::<Seq<char>>::empty(),
    {
        Refs { head: String::from_str("ref: refs/heads/master\n"), branches: Table::new() }
    }
}

/// Where the checkout stands.
pub fn current_head(refs: &Refs) -> (head: Head)
    ensures
        head@ == parse_head(refs.head@),
{
    let line = trim_blank_end(refs.head.as_str());
    if starts_with(line.as_str(), "ref: refs/heads/") {
        Head::Branch(strip_leading(line.as_str(), "ref: refs/heads/"))
    } else {
        Head::Detached(line)
    }
}

/// Points a branch to a commit, creating the branch where it is new.
pub fn update_branch(refs: &mut Refs, branch_name: &String, commit_hash: &String)
    requires
        old(refs).wf(),
    ensures
        final(refs).wf(),
        final(refs).head@ == old(refs).head@,
        final(refs).branch_map() == old(refs).branch_map().insert(branch_name@, commit_hash@),
        old(refs).branch_map().contains_key(branch_name@) ==> final(refs).branch_names() == old(
            refs,
        ).branch_names(),
        !old(refs).branch_map().contains_key(branch_name@) ==> final(refs).branch_names() == old(
            refs,
        ).branch_names().push(branch_name@),
{
    refs.branches.insert(branch_name.clone(), commit_hash.clone());
}

/// The commit a branch points to, or the empty hash where there is no such
/// branch.
pub fn get_branch_head(refs: &Refs, branch_name: &String) -> (hash: String)
    requires
        refs.wf(),
    ensures
        hash@ == branch_head(refs.branch_map(), branch_name@),
{
    match refs.branches.get(branch_name) {
        Some(hash) => hash.clone(),
        None => String::new(),
    }
}

/// The commit that `HEAD` stands on: the branch's commit where it is on a
/// branch. The empty hash says that there is no commit yet.
pub fn current_head_commit(refs: &Refs) -> (hash: String)
    requires
        refs.wf(),
    ensures
        hash@ == head_commit(refs.head@, refs.branch_map()),
{
    match current_head(refs) {
        Head::Branch(name) => get_branch_head(refs, &name),
        Head::Detached(hash) => hash,
    }
}

/// Moves `HEAD` to a commit: on a branch the branch moves, a detached `HEAD`
/// is rewritten.
pub fn update_head_commit(refs: &mut Refs, commit_hash: &String)
    requires
        old(refs).wf(),
    ensures
        final(refs).wf(),
        match parse_head(old(refs).head@) {
            HeadView::Branch(name) => {
                &&& final(refs).head@ == old(refs).head@
                &&& final(refs).branch_map() == old(refs).branch_map().insert(name, commit_hash@)
            },
            HeadView::Detached(_) => {
                &&& final(refs).head@ == commit_hash@
                &&& final(refs).branch_map() == old(refs).branch_map()
                &&& final(refs).branch_names() == old(refs).branch_names()
            },
        },
{
    match current_head(refs) {
        Head::Branch(name) => {
            update_branch(refs, &name, commit_hash);
        },
        Head::Detached(_) => {
            refs.head = commit_hash.clone();
        },
    }
}

/// The names of the branches.
pub fn list_local_branches(refs: &Refs) -> (names: Vec<String>)
    ensures
        text_seq(names@) == refs.branch_names(),
{
    let mut names: Vec<String> = Vec::new();
    let mut i: usize = 0;
    assert(text_seq(names@) =~= refs.branch_names().take(0));
    while i < refs.branches.entries.len()
        invariant
            0 <= i <= refs.branches.entries.len(),
            text_seq(names@) == refs.branch_names().take(i as int),
        decreases refs.branches.entries.len() - i,
    {
        let ghost before = text_seq(names@);
        names.push(refs.branches.entries[i].key.clone());
        assert(text_seq(names@) =~= before.push(refs.branch_names()[i as int]));
        assert(refs.branch_names().take(i + 1) =~= before.push(refs.branch_names()[i as int]));
        i += 1;
    }
    assert(refs.branch_names().take(i as int) =~= refs.branch_names());
    names
}

/// Whether there is a branch of this name.
pub fn branch_exists(refs: &Refs, branch_name: &String) -> (yes: bool)
    ensures
        yes == refs.branch_map().contains_key(branch_name@),
        yes == refs.branch_names().contains(branch_name@),
{
    refs.branches.contains(branch_name)
}

/// The text of `HEAD` after it was put on the branch `name`.
pub open spec fn head_on_branch(branches: Map<Seq<char>, Seq<char>>, name: Seq<char>) -> Seq<char> {
    match parse_head(branch_line(name)) {
        HeadView::Branch(_) => branch_line(name),
        HeadView::Detached(_) => branch_head(branches, name),
    }
}

/// The branches after `HEAD` was put on the branch `name`: the branch is
/// written with the commit it had, so that one that was not there starts
/// without a commit.
pub open spec fn branches_on_branch(branches: Map<Seq<char>, Seq<char>>, name: Seq<char>) -> Map<
    Seq<char>,
    Seq<char>,
> {
    match parse_head(branch_line(name)) {
        HeadView::Branch(read) => branches.insert(read, branch_head(branches, name)),
        HeadView::Detached(_) => branches,
    }
}

/// Puts `HEAD` on a branch. The branch keeps its commit; one that is new
/// starts without a commit.
pub fn change_head_to_branch(refs: &mut Refs, branch_name: &String)
    requires
        old(refs).wf(),
    ensures
        final(refs).wf(),
        final(refs).head@ == head_on_branch(old(refs).branch_map(), branch_name@),
        final(refs).branch_map() == branches_on_branch(old(refs).branch_map(), branch_name@),
{
    let hash = get_branch_head(refs, branch_name);
    let mut line = String::from_str("ref: refs/heads/");
    line.append(branch_name.as_str());
    refs.head = line;
    update_head_commit(refs, &hash);
}

/// Puts `HEAD` on a commit of its own.
pub fn change_head_to_commit(refs: &mut Refs, commit_hash: &String)
    requires
        old(refs).wf(),
    ensures
        final(refs).wf(),
        final(refs).head@ == commit_hash@,
        final(refs).branch_map() == old(refs).branch_map(),
        final(refs).branch_names() == old(refs).branch_names(),
{
    refs.head = commit_hash.clone();
}

/// Takes a branch out of the refs. No commit is touched.
pub fn delete_branch(refs: &mut Refs, branch_name: &String)
    requires
        old(refs).wf(),
    ensures
        final(refs).wf(),
        final(refs).head@ == old(refs).head@,
        final(refs).branch_map() == old(refs).branch_map().remove(branch_name@),
        !final(refs).branch_names().contains(branch_name@),
{
    refs.branches.remove(branch_name);
}

} // verus!
