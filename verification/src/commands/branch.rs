//! Creating, deleting and listing branches.

use crate::head::{
    branch_exists, branch_head, current_head, current_head_commit, get_branch_head, head_commit,
    list_local_branches, parse_head, update_branch, Head, HeadView, Refs,
};
use crate::object::{check_object_type, object_type, ObjectType};
use crate::path::text_seq;
use crate::store::{search_result, Store};
use vstd::prelude::*;

verus! {

/// Why a branch could not be created or deleted.
#[derive(Debug, Clone, Copy, PartialEq, Eq, Structural)]
pub enum BranchErr {
    BranchExist,
    InvalidObject,
    BranchNoExist,
    BranchCheckedOut,
}

/// What a name stands for: the commit of the branch of that name, else the
/// one object whose hash begins with it.
pub open spec fn named_commit(
    branches: Map<Seq<char>, Seq<char>>,
    names: Seq<Seq<char>>,
    name: Seq<char>,
) -> Option<Seq<char>> {
    if branches.contains_key(name) {
        Some(branches[name])
    } else {
        search_result(names, name)
    }
}

/// Finds the commit that a branch name or the beginning of a hash stands
/// for.
pub fn search_hash(commit_hash: &String, refs: &Refs, store: &Store) -> (found: Option<String>)
    requires
        refs.wf(),
    ensures
        match found {
            Some(hash) => named_commit(refs.branch_map(), store.names(), commit_hash@) == Some(
                hash@,
            ),
            None => named_commit(refs.branch_map(), store.names(), commit_hash@).is_none(),
        },
{
    if branch_exists(refs, commit_hash) {
        return Some(get_branch_head(refs, commit_hash));
    }
    store.search(commit_hash)
}

/// What creating the branch `name` at `base` comes to.
pub open spec fn creation(
    branches: Map<Seq<char>, Seq<char>>,
    store: Map<Seq<char>, Seq<char>>,
    names: Seq<Seq<char>>,
    name: Seq<char>,
    base: Seq<char>,
) -> Result<Seq<char>, BranchErr> {
    match named_commit(branches, names, base) {
        None => Err(BranchErr::InvalidObject),
        Some(hash) => if object_type(store, hash) != ObjectType::Commit {
            Err(BranchErr::InvalidObject)
        } else if branches.contains_key(name) {
            Err(BranchErr::BranchExist)
        } else {
            Ok(hash)
        },
    }
}

/// Creates the branch `branch_name` at the commit that `base_commit` stands
/// for: a branch's name or the beginning of a hash. The base has to be a
/// commit, and the name must be free.
pub fn create_branch(
    branch_name: &String,
    base_commit: &String,
    refs: &mut Refs,
    store: &Store,
) -> (done: Result<(), BranchErr>)
    requires
        old(refs).wf(),
        store.wf(),
    ensures
        final(refs).wf(),
        final(refs).head@ == old(refs).head@,
        match done {
            Ok(_) => {
                &&& creation(
                    old(refs).branch_map(),
                    store@,
                    store.names(),
                    branch_name@,
                    base_commit@,
                ) is Ok
                &&& final(refs).branch_map() == old(refs).branch_map().insert(
                    branch_name@,
                    creation(
                        old(refs).branch_map(),
                        store@,
                        store.names(),
                        branch_name@,
                        base_commit@,
                    )->Ok_0,
                )
                &&& final(refs).branch_names() == old(refs).branch_names().push(branch_name@)
            },
            Err(e) => {
                &&& creation(
                    old(refs).branch_map(),
                    store@,
                    store.names(),
                    branch_name@,
                    base_commit@,
                ) == Err::<Seq<char>, BranchErr>(e)
                &&& final(refs).branch_map() == old(refs).branch_map()
                &&& final(refs).branch_names() == old(refs).branch_names()
            },
        },
{
    let base = match search_hash(base_commit, refs, store) {
        Some(base) => base,
        None => { return Err(BranchErr::InvalidObject); },
    };
    if check_object_type(&base, store) != ObjectType::Commit {
        return Err(BranchErr::InvalidObject);
    }
    if branch_exists(refs, branch_name) {
        return Err(BranchErr::BranchExist);
    }
    update_branch(refs, branch_name, &base);
    Ok(())
}

/// What deleting the branch `name` comes to.
pub open spec fn deletion(head: Seq<char>, branches: Map<Seq<char>, Seq<char>>, name: Seq<char>)
    -> Result<(), BranchErr> {
    if !branches.contains_key(name) {
        Err(BranchErr::BranchNoExist)
    } else if parse_head(head) == HeadView::Branch(name) {
        Err(BranchErr::BranchCheckedOut)
    } else {
        Ok(())
    }
}

/// Deletes a branch. The branch that is checked out cannot be deleted; on a
/// detached `HEAD` every branch can. Only the ref is removed, no commit.
pub fn delete_branch(branch_name: &String, refs: &mut Refs) -> (done: Result<(), BranchErr>)
    requires
        old(refs).wf(),
    ensures
        final(refs).wf(),
        final(refs).head@ == old(refs).head@,
        done == deletion(old(refs).head@, old(refs).branch_map(), branch_name@),
        match done {
            Ok(_) => {
                &&& final(refs).branch_map() == old(refs).branch_map().remove(branch_name@)
                &&& !final(refs).branch_names().contains(branch_name@)
            },
            Err(_) => {
                &&& final(refs).branch_map() == old(refs).branch_map()
                &&& final(refs).branch_names() == old(refs).branch_names()
            },
        },
{
    if !branch_exists(refs, branch_name) {
        return Err(BranchErr::BranchNoExist);
    }
    match current_head(refs) {
        Head::Branch(current) => {
            if current == *branch_name {
                return Err(BranchErr::BranchCheckedOut);
            }
        },
        Head::Detached(_) => {},
    }
    crate::head::delete_branch(refs, branch_name);
    Ok(())
}

/// The branch that is checked out, if `HEAD` is on one.
pub fn show_current_branch(refs: &Refs) -> (name: Option<String>)
    ensures
        match name {
            Some(n) => parse_head(refs.head@) == HeadView::Branch(n@),
            None => parse_head(refs.head@) is Detached,
        },
{
    match current_head(refs) {
        Head::Branch(name) => Some(name),
        Head::Detached(_) => None,
    }
}

/// What a listing of the branches shows: where `HEAD` stands, and the other
/// branches.
#[derive(Debug)]
pub struct BranchList {
    pub head: Head,
    pub others: Vec<String>,
}

/// The name is not the one that `HEAD` is on.
pub open spec fn is_other_branch(head: HeadView) -> spec_fn(Seq<char>) -> bool {
    |name: Seq<char>| head != HeadView::Branch(name)
}

/// Lists the branches: where `HEAD` stands, then every branch but the one
/// that is checked out.
pub fn list_branches(refs: &Refs) -> (list: BranchList)
    ensures
        list.head@ == parse_head(refs.head@),
        text_seq(list.others@) == refs.branch_names().filter(
            is_other_branch(parse_head(refs.head@)),
        ),
{
    let head = current_head(refs);
    let names = list_local_branches(refs);
    let ghost pred = is_other_branch(head@);
    let ghost all = refs.branch_names();
    let mut others: Vec<String> = Vec::new();
    let mut i: usize = 0;
    assert(all.take(0) =~= Seq::empty());
    assert(text_seq(others@) =~= all.take(0).filter(pred));
    while i < names.len()
        invariant
            0 <= i <= names.len(),
            all == text_seq(names@),
            pred == is_other_branch(head@),
            text_seq(others@) == all.take(i as int).filter(pred),
        decreases names.len() - i,
    {
        let ghost before = text_seq(others@);
        proof {
            crate::path::lemma_filter_step(all, i as int, pred);
        }
        let on_it = match &head {
            Head::Branch(current) => *current == names[i],
            Head::Detached(_) => false,
        };
        if !on_it {
            others.push(names[i].clone());
            assert(text_seq(others@) =~= before.push(all[i as int]));
        }
        i += 1;
    }
    assert(all.take(i as int) =~= all);
    BranchList { head, others }
}

/// What a call of `branch` did.
#[derive(Debug)]
pub enum BranchOutcome {
    Created(Result<(), BranchErr>),
    Deleted(Result<(), BranchErr>),
    Current(Option<String>),
    Listed(BranchList),
}

/// The branch command: creates a branch (at the given commit, else at the
/// one `HEAD` stands on), or else deletes one, or else shows the current
/// one, or else lists all. One of the four has to be asked for.
pub fn branch(
    new_branch: Option<String>,
    commit_hash: Option<String>,
    list: bool,
    delete: Option<String>,
    show_current: bool,
    refs: &mut Refs,
    store: &Store,
) -> (outcome: BranchOutcome)
    requires
        old(refs).wf(),
        store.wf(),
        new_branch.is_some() || delete.is_some() || show_current || list,
    ensures
        final(refs).wf(),
        final(refs).head@ == old(refs).head@,
        match outcome {
            BranchOutcome::Created(done) => {
                &&& new_branch.is_some()
                &&& match done {
                    Ok(_) => {
                        let base = match commit_hash {
                            Some(hash) => hash@,
                            None => head_commit(old(refs).head@, old(refs).branch_map()),
                        };
                        &&& creation(
                            old(refs).branch_map(),
                            store@,
                            store.names(),
                            new_branch.unwrap()@,
                            base,
                        ) is Ok
                        &&& final(refs).branch_map() == old(refs).branch_map().insert(
                            new_branch.unwrap()@,
                            creation(
                                old(refs).branch_map(),
                                store@,
                                store.names(),
                                new_branch.unwrap()@,
                                base,
                            )->Ok_0,
                        )
                    },
                    Err(e) => {
                        let base = match commit_hash {
                            Some(hash) => hash@,
                            None => head_commit(old(refs).head@, old(refs).branch_map()),
                        };
                        &&& creation(
                            old(refs).branch_map(),
                            store@,
                            store.names(),
                            new_branch.unwrap()@,
                            base,
                        ) == Err::<Seq<char>, BranchErr>(e)
                        &&& final(refs).branch_map() == old(refs).branch_map()
                    },
                }
            },
            BranchOutcome::Deleted(done) => {
                &&& new_branch.is_none()
                &&& delete.is_some()
                &&& done == deletion(old(refs).head@, old(refs).branch_map(), delete.unwrap()@)
                &&& final(refs).branch_map() == if done is Ok {
                    old(refs).branch_map().remove(delete.unwrap()@)
                } else {
                    old(refs).branch_map()
                }
            },
            BranchOutcome::Current(name) => {
                &&& new_branch.is_none()
                &&& delete.is_none()
                &&& show_current
                &&& final(refs).branch_map() == old(refs).branch_map()
                &&& match name {
                    Some(n) => parse_head(old(refs).head@) == HeadView::Branch(n@),
                    None => parse_head(old(refs).head@) is Detached,
                }
            },
            BranchOutcome::Listed(found) => {
                &&& new_branch.is_none()
                &&& delete.is_none()
                &&& !show_current
                &&& final(refs).branch_map() == old(refs).branch_map()
                &&& found.head@ == parse_head(old(refs).head@)
                &&& text_seq(found.others@) == old(refs).branch_names().filter(
                    is_other_branch(parse_head(old(refs).head@)),
                )
            },
        },
{
    match new_branch {
        Some(name) => {
            let base = match commit_hash {
                Some(hash) => hash,
                None => current_head_commit(refs),
            };
            BranchOutcome::Created(create_branch(&name, &base, refs, store))
        },
        None => match delete {
            Some(name) => BranchOutcome::Deleted(delete_branch(&name, refs)),
            None => if show_current {
                BranchOutcome::Current(show_current_branch(refs))
            } else {
                BranchOutcome::Listed(list_branches(refs))
            },
        },
    }
}

} // verus!
