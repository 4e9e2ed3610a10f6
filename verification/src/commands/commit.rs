//! The commit command: a commit of what is staged, after the commit that
//! `HEAD` stands on.

use crate::commit::{
    commit_json, commit_text, default_author, default_committer, read_commit, Commit, CommitView,
};
use crate::head::{current_head_commit, head_commit, parse_head, update_head_commit, HeadView};
use crate::index::Index;
use crate::listing::{
    all_plain, built_tree_lists_the_staged_files, fits, is_staged, item_file, level_files,
};
use crate::path::{
    absolute_form, canonical, plain, relative_path_reads_back, relative_seq, starts_with,
};
use crate::repo::Repository;
use crate::status::{
    against_snapshot, changes_to_be_committed, commit_files, is_added, is_restaged, is_unstaged,
    staged_against,
};
use crate::store::{document_saved, saved, Fatal};
use crate::tree::{
    blob_paths, holds_trees, index_items, level_entries, longest, snapshot_built, tree_hash,
    tree_names, Built, TreeBlobView, MAX_DEPTH,
};
use vstd::prelude::*;

verus! {

/// Why no commit was made.
#[derive(Debug, Clone, Copy, PartialEq, Eq, Structural)]
pub enum CommitErr {
    /// Nothing differs from the last commit, and empty commits were not
    /// allowed.
    NothingToCommit,
    /// The repository is not in order.
    Broken(Fatal),
}

/// The commits that a new commit follows: the one `HEAD` stands on, or none
/// in a repository without commits.
pub open spec fn parents_of(head: Seq<char>) -> Seq<Seq<char>> {
    if head.len() == 0 {
        Seq::empty()
    } else {
        seq![head]
    }
}

/// The commit that `commit` makes of the repository, under the name `hash`.
pub open spec fn new_commit(repo: &Repository, message: Seq<char>, hash: Seq<char>) -> CommitView {
    CommitView {
        hash,
        author: default_author(),
        committer: default_committer(),
        message,
        parent: parents_of(head_commit(repo.refs.head@, repo.refs.branch_map())),
        tree: tree_hash(
            level_entries(
                index_items(&repo.index),
                index_items(&repo.index).len(),
                Seq::empty(),
                longest(index_items(&repo.index)),
            ),
        ),
    }
}

/// Whether the commit is refused because nothing would change.
pub open spec fn refused(repo: &Repository, allow_empty: bool) -> Result<bool, Fatal> {
    if allow_empty {
        Ok(false)
    } else {
        match staged_against(
            &repo.index,
            head_commit(repo.refs.head@, repo.refs.branch_map()),
            repo.store@,
        ) {
            Err(e) => Err(e),
            Ok(changes) => Ok(changes.is_empty()),
        }
    }
}

/// The storing that a commit of the repository does: the trees of the
/// snapshot, then the commit itself. The first object that cannot be stored
/// ends it.
pub open spec fn commit_built(repo: &Repository, message: Seq<char>) -> Built {
    let trees = snapshot_built(repo.store@, &repo.index);
    let made = new_commit(repo, message, Seq::empty());
    if trees.failed is Some {
        trees
    } else {
        match document_saved(trees.store, commit_json(made)) {
            Ok(_) => Built { store: saved(trees.store, commit_text(made)), failed: None },
            Err(e) => Built { store: trees.store, failed: Some(e) },
        }
    }
}

/// Commits what is staged and moves `HEAD` (on a branch: the branch) to the
/// new commit, whose hash is returned. The commit is made exactly where
/// every tree of the snapshot and then the commit itself can be stored: where
/// the text of each reads back as the object, and its name is free or holds
/// that text. Where one cannot, `HEAD` stays, and so do the objects stored
/// before that one. Objects are only ever added to the store. Where all
/// staged files lie in the working tree, nothing is left to commit
/// afterwards.
pub fn commit(message: String, allow_empty: bool, repo: &mut Repository) -> (done: Result<
    String,
    CommitErr,
>)
    requires
        old(repo).wf(),
    ensures
        final(repo).wf(),
        final(repo).index == old(repo).index,
        final(repo).tree == old(repo).tree,
        old(repo).store@.submap_of(final(repo).store@),
        match refused(old(repo), allow_empty) {
            Err(e) => done == Err::<String, CommitErr>(CommitErr::Broken(e)) && final(repo).store@
                == old(repo).store@ && final(repo).refs == old(repo).refs,
            Ok(is_refused) => if is_refused {
                done == Err::<String, CommitErr>(CommitErr::NothingToCommit) && final(repo).store@
                    == old(repo).store@ && final(repo).refs == old(repo).refs
            } else {
                &&& final(repo).store@ == commit_built(old(repo), message@).store
                &&& match commit_built(old(repo), message@).failed {
                    None => done is Ok,
                    Some(e) => done == Err::<String, CommitErr>(CommitErr::Broken(e)),
                }
                &&& match done {
                    Ok(hash) => {
                        &&& hash@.len() == 40
                        &&& read_commit(final(repo).store@, hash@) == Ok::<CommitView, Fatal>(
                            new_commit(old(repo), message@, hash@),
                        )
                        &&& holds_trees(
                            final(repo).store@,
                            index_items(&old(repo).index),
                            Seq::empty(),
                            longest(index_items(&old(repo).index)),
                        )
                        &&& head_commit(final(repo).refs.head@, final(repo).refs.branch_map())
                            == hash@
                        &&& final(repo).store@.dom() == old(repo).store@.dom().union(
                            tree_names(
                                index_items(&old(repo).index),
                                Seq::empty(),
                                longest(index_items(&old(repo).index)),
                            ),
                        ).insert(hash@)
                        &&& staged_inside(&old(repo).index) && longest(
                            index_items(&old(repo).index),
                        ) <= MAX_DEPTH ==> staged_against(
                            &final(repo).index,
                            hash@,
                            final(repo).store@,
                        ) is Ok && staged_against(
                            &final(repo).index,
                            hash@,
                            final(repo).store@,
                        )->Ok_0.is_empty()
                        &&& match parse_head(old(repo).refs.head@) {
                            HeadView::Branch(name) => {
                                &&& final(repo).refs.head@ == old(repo).refs.head@
                                &&& final(repo).refs.branch_map() == old(
                                    repo,
                                ).refs.branch_map().insert(name, hash@)
                            },
                            HeadView::Detached(_) => {
                                &&& final(repo).refs.head@ == hash@
                                &&& final(repo).refs.branch_map() == old(repo).refs.branch_map()
                            },
                        }
                    },
                    Err(e) => {
                        &&& (e == CommitErr::Broken(Fatal::Unprintable) || e == CommitErr::Broken(
                            Fatal::Malformed,
                        ))
                        &&& final(repo).refs == old(repo).refs
                    },
                }
            },
        },
{
    if !allow_empty {
        match changes_to_be_committed(&repo.index, &repo.refs, &repo.store) {
            Err(e) => { return Err(CommitErr::Broken(e)); },
            Ok(changes) => {
                if changes.is_empty() {
                    return Err(CommitErr::NothingToCommit);
                }
            },
        }
    }
    let head = current_head_commit(&repo.refs);
    let mut parents: Vec<String> = Vec::new();
    if head.as_str().unicode_len() > 0 {
        parents.push(head);
    }
    assert(crate::path::text_seq(parents@) =~= parents_of(
        head_commit(repo.refs.head@, repo.refs.branch_map()),
    ));
    let ghost start = repo.store@;
    let mut made = match Commit::new(&repo.index, parents, message, &mut repo.store) {
        Ok(made) => made,
        Err(e) => { return Err(CommitErr::Broken(e)); },
    };
    let ghost middle = repo.store@;
    let hash = match made.save(&mut repo.store) {
        Ok(hash) => hash,
        Err(e) => { return Err(CommitErr::Broken(e)); },
    };
    proof {
        crate::store::saved_keeps_objects(middle, crate::commit::commit_text(CommitView {
            hash: Seq::empty(),
            ..made@
        }));
        lemma_submap_chain(start, middle, repo.store@);
        crate::tree::lemma_trees_stay(
            middle,
            repo.store@,
            index_items(&repo.index),
            Seq::empty(),
            longest(index_items(&repo.index)),
        );
        crate::hash::hash_is_hex(crate::commit::commit_text(CommitView {
            hash: Seq::empty(),
            ..made@
        }));
        crate::head::hex_head_is_detached(hash@);
        assert(repo.store@.dom() =~= start.dom().union(
            tree_names(
                index_items(&repo.index),
                Seq::empty(),
                longest(index_items(&repo.index)),
            ),
        ).insert(hash@));
        if staged_inside(&repo.index) && longest(index_items(&repo.index)) <= MAX_DEPTH {
            commit_leaves_nothing_staged(&repo.index, repo.store@, hash@, made@);
        }
    }
    update_head_commit(&mut repo.refs, &hash);
    Ok(hash)
}

/// Every staged file lies in the working tree, below its root.
pub open spec fn staged_inside(index: &Index) -> bool {
    forall|i: int|
        0 <= i < index.tracked_paths().len() ==> starts_with(
            #[trigger] index.tracked_paths()[i],
            index.dirs@.work,
        ) && index.tracked_paths()[i].parts.len() > index.dirs@.work.parts.len()
}

/// The staged files of a staging area whose files lie in the working tree
/// have plain paths of at least one segment: the paths from the working
/// tree's root.
proof fn lemma_inside_items(index: &Index)
    requires
        index.wf(),
        staged_inside(index),
    ensures
        all_plain(index_items(index)),
        forall|i: int|
            0 <= i < index_items(index).len() ==> (#[trigger] index_items(index)[i]).parts
                == index.tracked_paths()[i].parts.skip(index.dirs@.work.parts.len() as int)
                && index_items(index)[i].parts.len() > 0,
{
    let work = index.dirs@.work;
    let keys = index.tracked_paths();
    assert forall|i: int| 0 <= i < keys.len() implies plain(
        #[trigger] index_items(index)[i].parts,
    ) && index_items(index)[i].parts == keys[i].parts.skip(work.parts.len() as int)
        && index_items(index)[i].parts.len() > 0 by {
        let key = keys[i];
        let n = work.parts.len() as int;
        assert(canonical(key));
        assert(key.parts.take(n) =~= key.parts.subrange(0, n));
        assert(work.parts.take(n) =~= work.parts);
        crate::path::lemma_common_len_unique(key.parts, work.parts, n);
        assert(crate::path::climbs(0) =~= Seq::empty());
        assert(crate::path::climbs(0) + key.parts.skip(n) =~= key.parts.skip(n));
        assert forall|k: int| 0 <= k < key.parts.skip(n).len() implies (
        #[trigger] key.parts.skip(n)[k]) != ".."@ && key.parts.skip(n)[k] != "."@ by {
            assert(key.parts.skip(n)[k] == key.parts[n + k]);
        }
    }
}

/// Right after a commit nothing is left to commit: against a commit of what
/// is staged, whose trees the store holds, the staging area shows no change.
/// This holds where every staged file lies in the working tree, no deeper
/// than trees may nest.
pub proof fn commit_leaves_nothing_staged(
    index: &Index,
    store: Map<Seq<char>, Seq<char>>,
    hash: Seq<char>,
    commit: CommitView,
)
    requires
        index.wf(),
        staged_inside(index),
        longest(index_items(index)) <= MAX_DEPTH,
        hash.len() > 0,
        read_commit(store, hash) == Ok::<CommitView, Fatal>(commit),
        commit.tree == tree_hash(
            level_entries(
                index_items(index),
                index_items(index).len(),
                Seq::empty(),
                longest(index_items(index)),
            ),
        ),
        holds_trees(store, index_items(index), Seq::empty(), longest(index_items(index))),
    ensures
        staged_against(index, hash, store) is Ok,
        staged_against(index, hash, store)->Ok_0.is_empty(),
{
    let items = index_items(index);
    let depth = longest(items);
    let work = index.dirs@.work;
    let keys = index.tracked_paths();
    let staged = relative_seq(keys, work);
    lemma_inside_items(index);
    assert(fits(items, Seq::empty(), depth)) by {
        assert forall|i: int| 0 <= i < items.len() implies (#[trigger] items[i]).parts.len()
            <= Seq::<Seq<char>>::empty().len() + depth by {
            crate::tree::lemma_longest(items, i);
        }
    }
    built_tree_lists_the_staged_files(store, items, depth, MAX_DEPTH as nat);
    let files = level_files(items, items.len(), Seq::empty(), depth);
    assert(commit_files(store, hash) == Ok::<Seq<TreeBlobView>, Fatal>(files));
    // A staged path and the file that is listed for it.
    assert forall|i: int| 0 <= i < keys.len() implies #[trigger] staged[i] == item_file(
        items[i],
        0,
    ).path && absolute_form(staged[i], work) == keys[i] && index@.contains_key(keys[i])
        && index@[keys[i]].hash == items[i].hash by {
        assert(canonical(keys[i]));
        relative_path_reads_back(keys[i], work);
        index.entries.lemma_entry(i);
        assert(items[i].parts.skip(0) =~= items[i].parts);
    }
    let changes = against_snapshot(index, files);
    assert(changes.new.len() == 0) by {
        let added = is_added(files);
        if staged.filter(added).len() > 0 {
            staged.lemma_filter_pred(added, 0);
            let p = staged.filter(added)[0];
            assert(staged.filter(added).contains(p));
            staged.lemma_filter_contains_rev(added, p);
            let i = choose|i: int| 0 <= i < staged.len() && staged[i] == p;
            assert(staged[i] == item_file(items[i], 0).path);
            assert(files.contains(item_file(items[i], 0)));
            let k = choose|k: int| 0 <= k < files.len() && files[k] == item_file(items[i], 0);
            assert(blob_paths(files)[k] == p);
        }
    }
    assert(changes.modified.len() == 0) by {
        let restaged = is_restaged(index);
        if files.filter(restaged).len() > 0 {
            files.lemma_filter_pred(restaged, 0);
            let b = files.filter(restaged)[0];
            assert(files.filter(restaged).contains(b));
            files.lemma_filter_contains_rev(restaged, b);
            let k = choose|k: int| 0 <= k < files.len() && files[k] == b;
            assert(is_staged(items, files[k]));
            let i = choose|i: int|
                0 <= i < items.len() && items[i].parts.len() > 0 && b == item_file(
                    #[trigger] items[i],
                    0,
                );
            assert(staged[i] == b.path);
        }
    }
    assert(changes.deleted.len() == 0) by {
        let dropped = is_unstaged(index);
        if files.filter(dropped).len() > 0 {
            files.lemma_filter_pred(dropped, 0);
            let b = files.filter(dropped)[0];
            assert(files.filter(dropped).contains(b));
            files.lemma_filter_contains_rev(dropped, b);
            let k = choose|k: int| 0 <= k < files.len() && files[k] == b;
            assert(is_staged(items, files[k]));
            let i = choose|i: int|
                0 <= i < items.len() && items[i].parts.len() > 0 && b == item_file(
                    #[trigger] items[i],
                    0,
                );
            assert(staged[i] == b.path);
        }
    }
}

proof fn lemma_submap_chain(
    a: Map<Seq<char>, Seq<char>>,
    b: Map<Seq<char>, Seq<char>>,
    c: Map<Seq<char>, Seq<char>>,
)
    requires
        a.submap_of(b),
        b.submap_of(c),
    ensures
        a.submap_of(c),
{
    assert forall|k: Seq<char>| #[trigger] a.dom().contains(k) implies c.dom().contains(k) && a[k]
        == c[k] by {
        assert(b.dom().contains(k));
        assert(c.dom().contains(k));
    }
}

} // verus!
