//! The log command: the commits from `HEAD` back along the first parents.

use crate::commit::{read_commit, Commit, CommitView};
use crate::head::{current_head_commit, head_commit};
use crate::repo::Repository;
use crate::store::{Fatal, Store};
use vstd::prelude::*;

verus! {

/// How many commits are shown where no number is given.
pub const DEFAULT_LOG_NUMBER: usize = 10;

/// The views of a sequence of commits.
pub open spec fn commit_seq(v: Seq<Commit>) -> Seq<CommitView> {
    Seq::new(v.len(), |i: int| v[i]@)
}

/// The commits from `hash` back along the first parents, the newest first:
/// all of them, or at most `limit` (and at least one). Chains longer than
/// `depth` are taken for a circle.
pub open spec fn history(
    store: Map<Seq<char>, Seq<char>>,
    hash: Seq<char>,
    all: bool,
    limit: nat,
    depth: nat,
) -> Result<Seq<CommitView>, Fatal>
    decreases depth,
{
    match read_commit(store, hash) {
        Err(e) => Err(e),
        Ok(commit) => if (!all && limit <= 1) || commit.parent.len() == 0 {
            Ok(seq![commit])
        } else if depth == 0 {
            Err(Fatal::Cyclic)
        } else {
            match history(
                store,
                commit.parent[0],
                all,
                if limit > 0 {
                    (limit - 1) as nat
                } else {
                    0
                },
                (depth - 1) as nat,
            ) {
                Err(e) => Err(e),
                Ok(older) => Ok(seq![commit] + older),
            }
        },
    }
}

/// What the log shows: nothing in a repository without commits, else the
/// history of the commit that `HEAD` stands on.
pub open spec fn log_entries(repo: &Repository, all: bool, number: Option<usize>) -> Result<
    Seq<CommitView>,
    Fatal,
> {
    let head = head_commit(repo.refs.head@, repo.refs.branch_map());
    if head.len() == 0 {
        Ok(Seq::empty())
    } else {
        history(
            repo.store@,
            head,
            all,
            match number {
                Some(n) => n as nat,
                None => DEFAULT_LOG_NUMBER as nat,
            },
            repo.store.names().len(),
        )
    }
}

/// The views of a result that holds commits.
pub open spec fn commits_result(found: Result<Vec<Commit>, Fatal>) -> Result<
    Seq<CommitView>,
    Fatal,
> {
    match found {
        Ok(commits) => Ok(commit_seq(commits@)),
        Err(e) => Err(e),
    }
}

/// The commits to show, the newest first: all of the history with `all`,
/// else at most `number` of them (ten where no number is given).
pub fn log(all: bool, number: Option<usize>, repo: &Repository) -> (shown: Result<
    Vec<Commit>,
    Fatal,
>)
    requires
        repo.wf(),
    ensures
        commits_result(shown) == log_entries(repo, all, number),
{
    let mut hash = current_head_commit(&repo.refs);
    let mut shown: Vec<Commit> = Vec::new();
    if hash.as_str().unicode_len() == 0 {
        assert(commit_seq(shown@) =~= Seq::empty());
        return Ok(shown);
    }
    let mut limit: usize = match number {
        Some(n) => n,
        None => DEFAULT_LOG_NUMBER,
    };
    let mut depth: usize = repo.store.objects.len();
    let ghost wanted = log_entries(repo, all, number);
    assert(commit_seq(shown@) =~= Seq::empty());
    loop
        invariant
            repo.wf(),
            wanted == log_entries(repo, all, number),
            match history(repo.store@, hash@, all, limit as nat, depth as nat) {
                Err(e) => wanted == Err::<Seq<CommitView>, Fatal>(e),
                Ok(older) => wanted == Ok::<Seq<CommitView>, Fatal>(commit_seq(shown@) + older),
            },
        decreases depth,
    {
        let commit = match Commit::load(&hash, &repo.store) {
            Ok(commit) => commit,
            Err(e) => { return Err(e); },
        };
        let ghost before = commit_seq(shown@);
        let ghost view = commit@;
        let last = (!all && limit <= 1) || commit.parent.len() == 0;
        let next = if last {
            String::new()
        } else {
            commit.parent[0].clone()
        };
        assert(!last ==> next@ == view.parent[0]);
        shown.push(commit);
        assert(commit_seq(shown@) =~= before.push(view));
        if last {
            assert(before + seq![view] =~= before.push(view));
            return Ok(shown);
        }
        if depth == 0 {
            return Err(Fatal::Cyclic);
        }
        proof {
            let older = history(
                repo.store@,
                next@,
                all,
                if limit > 0 {
                    (limit - 1) as nat
                } else {
                    0
                },
                (depth - 1) as nat,
            );
            if older is Ok {
                assert(before + (seq![view] + older->Ok_0) =~= before.push(view) + older->Ok_0);
            }
        }
        if limit > 0 {
            limit -= 1;
        }
        depth -= 1;
        hash = next;
    }
}

} // verus!
