use mit::commands::add::{add, add_a_file, AddOutcome};
use mit::commands::branch::{
    branch, create_branch, delete_branch, list_branches, search_hash, show_current_branch,
    BranchErr, BranchOutcome,
};
use mit::commands::commit::{commit, CommitErr};
use mit::commands::log::log;
use mit::commands::merge::{check_ff, merge, merge_ff, MergeErr};
use mit::commands::remove::{remove, RemoveOutcome};
use mit::commands::restore::{restore, RestoreErr};
use mit::commands::status::status;
use mit::commands::switch::{is_clean, switch, switch_to, switch_to_commit, SwitchErr};
use mit::commit::Commit;
use mit::hash::calc_hash;
use mit::head::{current_head, current_head_commit, get_branch_head, list_local_branches, Head};
use mit::path::{Dirs, Path};
use mit::repo::Repository;
use mit::restore::{restore_index, restore_worktree};
use mit::status::{changes_to_be_committed, changes_to_be_staged, Changes};
use mit::store::Fatal;
use mit::tree::TreeBlob;
use mit::worktree::Timestamp;

fn path(text: &str) -> Path {
    let absolute = text.starts_with('/');
    let parts = text.split('/').filter(|s| !s.is_empty()).map(|s| s.to_string()).collect();
    Path::new(absolute, parts)
}

fn at(secs: u64) -> Timestamp {
    Timestamp { secs, nanos: 0 }
}

/// A fresh repository in an empty working directory.
fn fresh() -> Repository {
    Repository::init(Dirs { work: path("/work"), current: path("/work") })
}

/// Writes a file; without a content the file holds its own name.
fn ensure_file(repo: &mut Repository, name: &str, content: Option<&str>, time: u64) {
    let file = path(&format!("/work/{}", name));
    let content = match content {
        Some(content) => content.to_string(),
        None => file.parts.last().unwrap().clone(),
    };
    repo.tree.write_file(&file, content, at(time));
}

fn ensure_no_file(repo: &mut Repository, name: &str) {
    repo.tree.remove_file(&path(&format!("/work/{}", name)));
}

fn present(repo: &Repository, name: &str) -> bool {
    repo.tree.file_exists(&path(&format!("/work/{}", name)))
}

fn content(repo: &Repository, name: &str) -> String {
    repo.tree.file(&path(&format!("/work/{}", name))).unwrap().content.clone()
}

fn add_all(repo: &mut Repository) -> Vec<AddOutcome> {
    add(vec![], true, false, repo)
}

fn staged(repo: &Repository) -> Changes {
    changes_to_be_committed(&repo.index, &repo.refs, &repo.store).unwrap()
}

fn unstaged(repo: &Repository) -> Changes {
    changes_to_be_staged(&repo.index, &repo.tree)
}

fn clean(repo: &Repository) -> bool {
    unstaged(repo).is_empty() && staged(repo).is_empty()
}

fn new_branch(repo: &mut Repository, name: &str) {
    branch(Some(name.to_string()), None, false, None, false, &mut repo.refs, &repo.store);
}

#[test]
fn test_create_branch() {
    let mut repo = fresh();

    // no commit: invalid object
    let head = current_head_commit(&repo.refs);
    let result = create_branch(&"test_branch".to_string(), &head, &mut repo.refs, &repo.store);
    assert!(result.is_err());
    assert!(match result.unwrap_err() {
        BranchErr::InvalidObject => true,
        _ => false,
    });
    assert!(list_local_branches(&repo.refs).is_empty());

    commit("test commit 1".to_string(), true, &mut repo).unwrap();
    let commit_hash_one = current_head_commit(&repo.refs);
    commit("test commit 2".to_string(), true, &mut repo).unwrap();
    let commit_hash_two = current_head_commit(&repo.refs);

    // success, use part of commit hash
    let new_branch_one = "test_branch".to_string() + "1";
    let result = create_branch(
        &new_branch_one,
        &commit_hash_one[0..7].to_string(),
        &mut repo.refs,
        &repo.store,
    );
    assert!(result.is_ok());
    assert!(list_local_branches(&repo.refs).contains(&new_branch_one), "new branch not in list");
    assert!(get_branch_head(&repo.refs, &new_branch_one) == commit_hash_one, "new branch head error");

    // branch exist
    let result = create_branch(&new_branch_one, &commit_hash_two, &mut repo.refs, &repo.store);
    assert!(result.is_err());
    assert!(match result.unwrap_err() {
        BranchErr::BranchExist => true,
        _ => false,
    });

    // use branch name as commit hash, success
    let new_branch_two = "test_branch".to_string() + "2";
    let result = create_branch(&new_branch_two, &new_branch_one, &mut repo.refs, &repo.store);
    assert!(result.is_ok());
    assert!(list_local_branches(&repo.refs).contains(&new_branch_two), "new branch not in list");
    assert!(get_branch_head(&repo.refs, &new_branch_two) == commit_hash_one, "new branch head error");

    // a tree is no commit
    let tree = Commit::load(&commit_hash_one, &repo.store).unwrap().get_tree_hash();
    let result = create_branch(&"on_tree".to_string(), &tree, &mut repo.refs, &repo.store);
    assert_eq!(result, Err(BranchErr::InvalidObject));
    assert_eq!(search_hash(&tree, &repo.refs, &repo.store), Some(tree));
    assert_eq!(search_hash(&new_branch_two, &repo.refs, &repo.store), Some(commit_hash_one));
}

#[test]
fn test_delete_branch() {
    let mut repo = fresh();

    let result = delete_branch(&"test_branch".to_string(), &mut repo.refs);
    assert!(result.is_err());
    assert!(match result.unwrap_err() {
        BranchErr::BranchNoExist => true,
        _ => false,
    });
    assert!(list_local_branches(&repo.refs).is_empty());

    commit("test commit 1".to_string(), true, &mut repo).unwrap();
    let commit_hash = current_head_commit(&repo.refs);

    // success
    let new_branch = "test_branch".to_string() + "3";
    let result = create_branch(&new_branch, &commit_hash, &mut repo.refs, &repo.store);
    assert!(result.is_ok());
    assert!(list_local_branches(&repo.refs).contains(&new_branch), "new branch not in list");
    assert!(get_branch_head(&repo.refs, &new_branch) == commit_hash, "new branch head error");

    let result = delete_branch(&new_branch, &mut repo.refs);
    assert!(result.is_ok());
    assert!(!list_local_branches(&repo.refs).contains(&new_branch), "new branch not in list");
    // no commit is removed with the branch
    assert!(Commit::load(&commit_hash, &repo.store).is_ok());
}

#[test]
fn test_delete_checked_out_branch() {
    let mut repo = fresh();
    commit("c1".to_string(), true, &mut repo).unwrap();
    new_branch(&mut repo, "other");
    assert_eq!(delete_branch(&"master".to_string(), &mut repo.refs), Err(BranchErr::BranchCheckedOut));
    assert_eq!(list_local_branches(&repo.refs), vec!["master".to_string(), "other".to_string()]);
    assert_eq!(delete_branch(&"other".to_string(), &mut repo.refs), Ok(()));
    assert_eq!(list_local_branches(&repo.refs), vec!["master".to_string()]);
    // On a detached HEAD every branch can be deleted.
    let head = current_head_commit(&repo.refs);
    switch_to(&head, true, &mut repo, at(2)).unwrap();
    assert_eq!(delete_branch(&"master".to_string(), &mut repo.refs), Ok(()));
    assert!(list_local_branches(&repo.refs).is_empty());
}

#[test]
fn test_branch_command() {
    let mut repo = fresh();
    commit("c1".to_string(), true, &mut repo).unwrap();
    let head = current_head_commit(&repo.refs);
    let made = branch(Some("b1".to_string()), None, true, None, false, &mut repo.refs, &repo.store);
    assert!(matches!(made, BranchOutcome::Created(Ok(()))));
    assert_eq!(get_branch_head(&repo.refs, &"b1".to_string()), head);
    let again = branch(Some("b1".to_string()), Some(head.clone()), true, None, false, &mut repo.refs, &repo.store);
    assert!(matches!(again, BranchOutcome::Created(Err(BranchErr::BranchExist))));
    let shown = branch(None, None, true, None, true, &mut repo.refs, &repo.store);
    assert!(matches!(shown, BranchOutcome::Current(Some(name)) if name == "master"));
    assert_eq!(show_current_branch(&repo.refs), Some("master".to_string()));
    let listed = branch(None, None, true, None, false, &mut repo.refs, &repo.store);
    match listed {
        BranchOutcome::Listed(list) => {
            assert!(matches!(list.head, Head::Branch(name) if name == "master"));
            assert_eq!(list.others, vec!["b1".to_string()]);
        },
        _ => panic!("not a listing"),
    }
    let deleted = branch(None, None, true, Some("b1".to_string()), false, &mut repo.refs, &repo.store);
    assert!(matches!(deleted, BranchOutcome::Deleted(Ok(()))));
    assert_eq!(list_branches(&repo.refs).others, Vec::<String>::new());
}

#[test]
#[should_panic]
fn test_commit_empty() {
    let mut repo = fresh();
    commit("".to_string(), false, &mut repo).unwrap();
}

#[test]
fn test_commit_without_changes_is_refused() {
    let mut repo = fresh();
    assert_eq!(commit("".to_string(), false, &mut repo), Err(CommitErr::NothingToCommit));
    assert_eq!(current_head_commit(&repo.refs), "");
    assert!(repo.store.objects.entries.is_empty());
    ensure_file(&mut repo, "a.txt", None, 1);
    add_all(&mut repo);
    assert!(commit("c1".to_string(), false, &mut repo).is_ok());
    assert_eq!(commit("c2".to_string(), false, &mut repo), Err(CommitErr::NothingToCommit));
}

#[test]
fn test_commit() {
    let mut repo = fresh();
    let test_file = "a.txt";
    let head_one = current_head_commit(&repo.refs);
    assert!(head_one.is_empty());

    ensure_file(&mut repo, test_file, Some("test content"), 1);
    add_all(&mut repo);
    let made = commit("test commit 1".to_string(), true, &mut repo).unwrap();
    let head_two = current_head_commit(&repo.refs);
    assert!(head_two.len() > 0);
    assert_eq!(made, head_two);

    let loaded = Commit::load(&head_two, &repo.store).unwrap();
    assert!(loaded.get_parent_hash().len() == 0);
    assert!(loaded.get_message() == "test commit 1");

    let next = commit("test commit 2".to_string(), true, &mut repo).unwrap();
    let loaded = Commit::load(&next, &repo.store).unwrap();
    assert_eq!(loaded.get_parent_hash(), vec![head_two]);
    assert_eq!(loaded.get_tree_hash(), Commit::load(&made, &repo.store).unwrap().get_tree_hash());
}

#[test]
fn test_commit_fails_where_an_object_cannot_be_stored() {
    // The same commit in two repositories; in the second the commit's name
    // is taken by another text.
    let mut first = fresh();
    ensure_file(&mut first, "d/a.txt", Some("one"), 1);
    add_all(&mut first);
    let hash = commit("c1".to_string(), false, &mut first).unwrap();
    let tree = Commit::load(&hash, &first.store).unwrap().get_tree_hash();

    let mut second = fresh();
    ensure_file(&mut second, "d/a.txt", Some("one"), 1);
    add_all(&mut second);
    second.store.put(hash.clone(), "something else".to_string());
    let done = commit("c1".to_string(), false, &mut second);
    assert_eq!(done, Err(CommitErr::Broken(Fatal::Malformed)));
    // HEAD stays, and the trees that were stored before stay too.
    assert_eq!(current_head_commit(&second.refs), "");
    assert!(second.store.contains(&tree));
    assert_eq!(second.store.load(&hash).unwrap(), "something else");

    // Where the name of a tree is taken, no tree above it is stored.
    let mut third = fresh();
    ensure_file(&mut third, "d/a.txt", Some("one"), 1);
    add_all(&mut third);
    let objects = third.store.objects.entries.len();
    let below = Commit::load(&hash, &first.store).unwrap().get_tree(&first.store).unwrap();
    third.store.put(below.entries[0].object_hash.clone(), "something else".to_string());
    let done = commit("c1".to_string(), false, &mut third);
    assert_eq!(done, Err(CommitErr::Broken(Fatal::Malformed)));
    assert_eq!(third.store.objects.entries.len(), objects + 1);
    assert!(!third.store.contains(&tree));
}

#[test]
fn test_staged_order_decides_the_tree() {
    let mut first = fresh();
    ensure_file(&mut first, "a.txt", None, 1);
    ensure_file(&mut first, "b.txt", None, 1);
    add(vec![path("a.txt")], false, false, &mut first);
    add(vec![path("b.txt")], false, false, &mut first);
    let mut second = fresh();
    ensure_file(&mut second, "a.txt", None, 1);
    ensure_file(&mut second, "b.txt", None, 1);
    add(vec![path("b.txt")], false, false, &mut second);
    add(vec![path("a.txt")], false, false, &mut second);
    assert_eq!(first.index.get_tracked_files(), vec![path("/work/a.txt"), path("/work/b.txt")]);
    assert_eq!(second.index.get_tracked_files(), vec![path("/work/b.txt"), path("/work/a.txt")]);
    let one = commit("c".to_string(), false, &mut first).unwrap();
    let other = commit("c".to_string(), false, &mut second).unwrap();
    assert_ne!(one, other);
    // Saving and loading keeps the order, and with it the tree.
    let loaded = mit::index::Index::load(
        Dirs { work: path("/work"), current: path("/work") },
        &second.index.save(),
    )
    .unwrap();
    assert_eq!(loaded.get_tracked_files(), second.index.get_tracked_files());
    let again = mit::tree::Tree::new(&loaded, &mut second.store).unwrap();
    assert_eq!(again.hash, Commit::load(&other, &second.store).unwrap().get_tree_hash());
    // rm takes a path out and leaves the others in their order.
    ensure_file(&mut second, "c.txt", None, 2);
    add_all(&mut second);
    remove(&vec![path("a.txt")], true, false, &mut second);
    assert_eq!(second.index.get_tracked_files(), vec![path("/work/b.txt"), path("/work/c.txt")]);
}

#[test]
fn test_commit_on_detached_head() {
    let mut repo = fresh();
    let first = commit("c1".to_string(), true, &mut repo).unwrap();
    switch_to(&first, true, &mut repo, at(1)).unwrap();
    let second = commit("c2".to_string(), true, &mut repo).unwrap();
    assert!(matches!(current_head(&repo.refs), Head::Detached(hash) if hash == second));
    assert_eq!(get_branch_head(&repo.refs, &"master".to_string()), first);
}

#[test]
fn test_log() {
    let mut repo = fresh();
    assert_eq!(log(false, None, &repo).unwrap().len(), 0);
    commit("test commit 2".into(), true, &mut repo).unwrap();
    assert_eq!(log(false, Some(1), &repo).unwrap().len(), 1);
    commit("test commit 3".into(), true, &mut repo).unwrap();
    let shown = log(false, None, &repo).unwrap();
    assert_eq!(shown.len(), 2);
    assert_eq!(shown[0].get_message(), "test commit 3");
    assert_eq!(shown[1].get_message(), "test commit 2");
    assert_eq!(shown[0].get_hash(), current_head_commit(&repo.refs));
}

#[test]
fn test_log_limits() {
    let mut repo = fresh();
    for i in 0..12 {
        commit(format!("c{}", i), true, &mut repo).unwrap();
    }
    assert_eq!(log(false, None, &repo).unwrap().len(), 10);
    assert_eq!(log(false, Some(0), &repo).unwrap().len(), 1);
    assert_eq!(log(false, Some(3), &repo).unwrap().len(), 3);
    assert_eq!(log(true, Some(3), &repo).unwrap().len(), 12);
    assert_eq!(log(true, None, &repo).unwrap().len(), 12);
    repo.refs.head = "nowhere".to_string();
    assert_eq!(log(true, None, &repo).unwrap_err(), Fatal::Missing);
}

#[test]
fn test_check_ff() {
    let mut repo = fresh();
    commit("init".to_string(), true, &mut repo).unwrap();
    let commit1 = current_head_commit(&repo.refs);
    let origin_branch = match current_head(&repo.refs) {
        Head::Branch(branch) => branch,
        _ => panic!("current head is not a branch"),
    };

    let new_branch = "new_branch".to_string();
    switch(None, Some(new_branch.clone()), false, &mut repo, at(1));
    commit("new_branch commit 1".to_string(), true, &mut repo).unwrap();
    commit("new_branch commit 2".to_string(), true, &mut repo).unwrap();
    assert_ne!(current_head_commit(&repo.refs), commit1);
    assert_eq!(get_branch_head(&repo.refs, &origin_branch.clone()), commit1);
    let commit2 = current_head_commit(&repo.refs);
    println!("[info] success create new branch: {}", new_branch);

    // test success merge
    switch(Some(origin_branch.clone()), None, false, &mut repo, at(2));
    assert_eq!(current_head_commit(&repo.refs), commit1);

    let result = merge_ff(&commit2, &mut repo, at(3));
    assert!(result.is_ok());
    assert_eq!(current_head_commit(&repo.refs), commit2);
    assert_eq!(get_branch_head(&repo.refs, &origin_branch.clone()), commit2);
    println!("[info] success merge ff");

    // test no fast forward
    commit("master commit 2".to_string(), true, &mut repo).unwrap();
    let result = merge_ff(&commit1, &mut repo, at(4));
    assert!(result.is_err());
    assert!(matches!(result.unwrap_err(), MergeErr::NoFastForward));
    println!("success detect no fast forward");
}

/// Stores a commit with the given parents and returns its hash.
fn chain(repo: &mut Repository, message: &str, parents: &[&String]) -> String {
    let mut made = Commit::new(
        &repo.index,
        parents.iter().map(|p| (*p).clone()).collect(),
        message.to_string(),
        &mut repo.store,
    )
    .unwrap();
    made.save(&mut repo.store).unwrap()
}

#[test]
fn test_fast_forward_along_a_chain() {
    let mut repo = fresh();
    let a = chain(&mut repo, "A", &[]);
    let b = chain(&mut repo, "B", &[&a]);
    let c = chain(&mut repo, "C", &[&b]);
    let d = chain(&mut repo, "D", &[&a]);
    assert_eq!(check_ff(&a, &c, &repo.store), Ok(true));
    assert_eq!(check_ff(&b, &c, &repo.store), Ok(true));
    assert_eq!(check_ff(&c, &c, &repo.store), Ok(true));
    assert_eq!(check_ff(&d, &c, &repo.store), Err(MergeErr::NoFastForward));
    assert_eq!(check_ff(&c, &a, &repo.store), Err(MergeErr::NoFastForward));
    // With two parents the second is searched too.
    let m = chain(&mut repo, "M", &[&d, &c]);
    assert_eq!(check_ff(&b, &m, &repo.store), Ok(true));
    assert_eq!(check_ff(&String::new(), &c, &repo.store), Err(MergeErr::NoFastForward));
    // A commit that cannot be read fails the search.
    let lost = "0".repeat(40);
    let e = chain(&mut repo, "E", &[&lost]);
    assert_eq!(check_ff(&a, &e, &repo.store), Err(MergeErr::Broken(Fatal::Missing)));
    assert_eq!(check_ff(&a, &lost, &repo.store), Err(MergeErr::Broken(Fatal::Missing)));
}

#[test]
fn test_merge_restores_the_snapshot() {
    let mut repo = fresh();
    ensure_file(&mut repo, "a.txt", Some("one"), 1);
    add_all(&mut repo);
    let first = commit("c1".to_string(), false, &mut repo).unwrap();
    new_branch(&mut repo, "side");
    switch_to(&"side".to_string(), false, &mut repo, at(2)).unwrap();
    ensure_file(&mut repo, "a.txt", Some("two"), 3);
    ensure_file(&mut repo, "b/c.txt", Some("three"), 3);
    add_all(&mut repo);
    let second = commit("c2".to_string(), false, &mut repo).unwrap();
    switch_to(&"master".to_string(), false, &mut repo, at(4)).unwrap();
    assert_eq!(content(&repo, "a.txt"), "one");
    assert!(!present(&repo, "b/c.txt"));

    assert_eq!(merge(&"nothing".to_string(), &mut repo, at(5)), Err(MergeErr::InvalidObject));
    ensure_file(&mut repo, "dirty.txt", None, 5);
    assert_eq!(merge(&"side".to_string(), &mut repo, at(5)), Err(MergeErr::NoClean));
    ensure_no_file(&mut repo, "dirty.txt");

    assert_eq!(merge(&"side".to_string(), &mut repo, at(6)), Ok(()));
    assert_eq!(current_head_commit(&repo.refs), second);
    assert_eq!(get_branch_head(&repo.refs, &"master".to_string()), second);
    assert!(matches!(current_head(&repo.refs), Head::Branch(name) if name == "master"));
    assert_eq!(content(&repo, "a.txt"), "two");
    assert_eq!(content(&repo, "b/c.txt"), "three");
    assert!(clean(&repo));

    // On a detached HEAD a merge is a switch to the commit.
    switch_to(&first, true, &mut repo, at(7)).unwrap();
    assert_eq!(merge(&second[0..8].to_string(), &mut repo, at(8)), Ok(()));
    assert!(matches!(current_head(&repo.refs), Head::Detached(hash) if hash == second));
    assert_eq!(content(&repo, "a.txt"), "two");
}

#[test]
fn test_restore_stage() {
    let mut repo = fresh();
    ensure_no_file(&mut repo, "a.txt");
    add_all(&mut repo);
    let done = restore(&vec![path(".")], Some("HEAD".to_string()), false, true, &mut repo, at(1));
    assert_eq!(done, Err(RestoreErr::Unresolved));
    assert!(repo.index.get_tracked_files().is_empty());
}

#[test]
fn test_restore_worktree() {
    let mut repo = fresh();
    for file in ["a.txt", "b.txt", "c.txt", "test/in.txt"] {
        ensure_file(&mut repo, file, None, 1);
    }

    add_all(&mut repo);
    assert_eq!(staged(&repo).new.iter().count(), 4);

    restore(&vec![path("c.txt")], None, false, true, &mut repo, at(2)).unwrap();
    assert_eq!(staged(&repo).new.iter().count(), 3);
    assert_eq!(unstaged(&repo).new.iter().count(), 1);

    ensure_no_file(&mut repo, "a.txt");
    ensure_no_file(&mut repo, "test/in.txt");
    assert_eq!(unstaged(&repo).deleted.iter().count(), 2);

    restore(&vec![path(".")], None, true, false, &mut repo, at(3)).unwrap();
    assert_eq!(staged(&repo).new.iter().count(), 3);
    assert_eq!(unstaged(&repo).new.iter().count(), 1);
    assert_eq!(unstaged(&repo).deleted.iter().count(), 0);
    assert!(present(&repo, "a.txt"));
    assert!(present(&repo, "test/in.txt"));
    assert_eq!(content(&repo, "test/in.txt"), "in.txt");
}

#[test]
fn test_restore_sources() {
    let mut repo = fresh();
    ensure_file(&mut repo, "a.txt", Some("one"), 1);
    add_all(&mut repo);
    let first = commit("c1".to_string(), false, &mut repo).unwrap();
    new_branch(&mut repo, "old");
    ensure_file(&mut repo, "a.txt", Some("two"), 2);
    add_all(&mut repo);
    let second = commit("c2".to_string(), false, &mut repo).unwrap();
    ensure_file(&mut repo, "a.txt", Some("three"), 3);
    let all = vec![path(".")];

    let done = restore(&all, Some("nothing".to_string()), true, true, &mut repo, at(4));
    assert_eq!(done, Err(RestoreErr::InvalidObject));
    let tree = Commit::load(&first, &repo.store).unwrap().get_tree_hash();
    assert_eq!(restore(&all, Some(tree), true, true, &mut repo, at(4)), Err(RestoreErr::InvalidObject));
    assert_eq!(content(&repo, "a.txt"), "three");

    // from the staging area
    restore(&all, None, true, false, &mut repo, at(5)).unwrap();
    assert_eq!(content(&repo, "a.txt"), "two");
    // from a branch
    restore(&all, Some("old".to_string()), true, true, &mut repo, at(6)).unwrap();
    assert_eq!(content(&repo, "a.txt"), "one");
    assert_eq!(repo.index.get_hash(&path("a.txt")), Some(calc_hash(&"one".to_string())));
    assert_eq!(staged(&repo).modified, vec![path("a.txt")]);
    // from HEAD
    restore(&all, Some("HEAD".to_string()), true, true, &mut repo, at(7)).unwrap();
    assert_eq!(content(&repo, "a.txt"), "two");
    assert!(clean(&repo));
    // from the beginning of a hash
    restore(&all, Some(first[0..10].to_string()), true, false, &mut repo, at(8)).unwrap();
    assert_eq!(content(&repo, "a.txt"), "one");
    assert_eq!(unstaged(&repo).modified, vec![path("a.txt")]);
    assert_eq!(current_head_commit(&repo.refs), second);
    // the staging area alone, from HEAD
    ensure_file(&mut repo, "new.txt", None, 9);
    add_all(&mut repo);
    assert_eq!(staged(&repo).new, vec![path("new.txt")]);
    restore(&all, None, false, true, &mut repo, at(10)).unwrap();
    assert!(staged(&repo).is_empty());
    assert!(present(&repo, "new.txt"));
}

fn blob(name: &str, hash: &str) -> TreeBlob {
    TreeBlob { path: path(name), hash: hash.to_string() }
}

#[test]
fn test_restore_worktree_rules() {
    let mut repo = fresh();
    let kept = repo.store.save(&"kept".to_string());
    let wanted = repo.store.save(&"wanted".to_string());
    ensure_file(&mut repo, "same.txt", Some("kept"), 1);
    ensure_file(&mut repo, "other.txt", Some("unwanted"), 1);
    ensure_file(&mut repo, "tracked/new.txt", None, 1);
    ensure_file(&mut repo, "untracked.txt", None, 1);
    ensure_file(&mut repo, "out/of/scope.txt", None, 1);
    add(vec![path("tracked"), path("out")], false, false, &mut repo);
    let target = vec![
        blob("same.txt", &kept),
        blob("other.txt", &wanted),
        blob("gone/deep.txt", &wanted),
    ];
    let filter = vec![path("same.txt"), path("other.txt"), path("tracked"), path("untracked.txt"), path("gone"), path("nothing")];
    restore_worktree(Some(&filter), &target, &repo.store, &repo.index, &mut repo.tree, at(5)).unwrap();
    // the content is the same: the file is not written again
    assert_eq!(repo.tree.file(&path("/work/same.txt")).unwrap().modified, at(1));
    assert_eq!(content(&repo, "other.txt"), "wanted");
    assert_eq!(repo.tree.file(&path("/work/other.txt")).unwrap().modified, at(5));
    assert_eq!(content(&repo, "gone/deep.txt"), "wanted");
    // a tracked file that the snapshot does not hold is removed, with its
    // directory; an untracked one stays
    assert!(!present(&repo, "tracked/new.txt"));
    assert!(!repo.tree.dir_exists(&path("/work/tracked")));
    assert!(present(&repo, "untracked.txt"));
    assert!(present(&repo, "out/of/scope.txt"));

    // a second run changes nothing
    let files: Vec<(Path, String, Timestamp)> = repo.tree.files.entries.iter()
        .map(|e| (e.key.clone(), e.value.content.clone(), e.value.modified)).collect();
    restore_worktree(Some(&filter), &target, &repo.store, &repo.index, &mut repo.tree, at(9)).unwrap();
    let again: Vec<(Path, String, Timestamp)> = repo.tree.files.entries.iter()
        .map(|e| (e.key.clone(), e.value.content.clone(), e.value.modified)).collect();
    assert_eq!(files, again);

    // without the content in the store nothing is touched
    let target = vec![blob("same.txt", "lost"), blob("other.txt", &kept)];
    let done = restore_worktree(None, &target, &repo.store, &repo.index, &mut repo.tree, at(10));
    assert_eq!(done, Err(Fatal::Missing));
    assert_eq!(content(&repo, "other.txt"), "wanted");
    assert!(present(&repo, "out/of/scope.txt"));
}

#[test]
fn test_restore_index_rules() {
    let mut repo = fresh();
    ensure_file(&mut repo, "same.txt", Some("kept"), 1);
    ensure_file(&mut repo, "other.txt", Some("unwanted"), 1);
    ensure_file(&mut repo, "new.txt", None, 1);
    ensure_file(&mut repo, "out/scope.txt", None, 1);
    add_all(&mut repo);
    let kept = calc_hash(&"kept".to_string());
    let target = vec![blob("same.txt", &kept), blob("other.txt", "h1"), blob("gone.txt", "h2"), blob("out/gone.txt", "h3")];
    let filter = vec![path("same.txt"), path("other.txt"), path("new.txt"), path("gone.txt")];
    restore_index(Some(&filter), &target, &mut repo.index, at(5));
    assert_eq!(
        repo.index.get_tracked_files(),
        vec![path("/work/same.txt"), path("/work/other.txt"), path("/work/out/scope.txt"), path("/work/gone.txt")]
    );
    // a record with the snapshot's hash stays as it is
    assert_eq!(repo.index.get(&path("same.txt")).unwrap().size, 4);
    let other = repo.index.get(&path("other.txt")).unwrap();
    assert_eq!((other.hash.as_str(), other.size, other.modified_time), ("h1", 0, at(5)));
    assert_eq!(repo.index.get_hash(&path("gone.txt")), Some("h2".to_string()));

    // a second run changes nothing, whatever the time
    restore_index(Some(&filter), &target, &mut repo.index, at(9));
    assert_eq!(repo.index.get(&path("other.txt")).unwrap().modified_time, at(5));
    assert_eq!(repo.index.get(&path("gone.txt")).unwrap().modified_time, at(5));
    assert_eq!(repo.index.get_tracked_files().len(), 4);

    // no filter stands for the whole working tree
    restore_index(None, &target, &mut repo.index, at(10));
    assert_eq!(
        repo.index.get_tracked_files(),
        vec![path("/work/same.txt"), path("/work/other.txt"), path("/work/gone.txt"), path("/work/out/gone.txt")]
    );
    // an empty filter stands for nothing
    restore_index(Some(&vec![]), &vec![], &mut repo.index, at(11));
    assert_eq!(repo.index.get_tracked_files().len(), 4);
    restore_index(None, &vec![], &mut repo.index, at(12));
    assert!(repo.index.is_empty());
}

#[test]
fn test_changes_to_be_committed() {
    let mut repo = fresh();
    let test_file = "a.txt";
    ensure_file(&mut repo, test_file, None, 1);

    commit("test commit".to_string(), true, &mut repo).unwrap();
    add(vec![path(test_file)], false, false, &mut repo);
    let change = staged(&repo);
    assert_eq!(change.new.len(), 1);
    assert_eq!(change.modified.len(), 0);
    assert_eq!(change.deleted.len(), 0);

    println!("{:?}", change.to_absolute(&repo.index.dirs));

    commit("test commit".to_string(), true, &mut repo).unwrap();
    ensure_file(&mut repo, test_file, Some("new content"), 2);
    add(vec![path(test_file)], false, false, &mut repo);
    let change = staged(&repo);
    assert_eq!(change.new.len(), 0);
    assert_eq!(change.modified.len(), 1);
    assert_eq!(change.deleted.len(), 0);

    println!("{:?}", change);

    commit("test commit".to_string(), true, &mut repo).unwrap();
    let _ = remove(&vec![path(test_file)], false, false, &mut repo);
    let change = staged(&repo);
    assert_eq!(change.new.len(), 0);
    assert_eq!(change.modified.len(), 0);
    assert_eq!(change.deleted.len(), 1);
    assert_eq!(change.deleted, vec![path("a.txt")]);

    println!("{:?}", change);
}

#[test]
fn test_changes_to_be_staged() {
    let mut repo = fresh();
    for file in ["a.txt", "d/b.txt", "d/c.txt"] {
        ensure_file(&mut repo, file, None, 1);
    }
    repo.tree.write_file(&path("/work/.mit/HEAD"), String::new(), at(1));
    let change = unstaged(&repo);
    assert_eq!(change.new, vec![path("a.txt"), path("d/b.txt"), path("d/c.txt")]);
    assert!(change.modified.is_empty() && change.deleted.is_empty());
    add(vec![path("d")], false, false, &mut repo);
    assert_eq!(unstaged(&repo).new, vec![path("a.txt")]);
    // written again with the same content: possibly modified, but not modified
    ensure_file(&mut repo, "d/b.txt", None, 2);
    assert!(repo.index.is_modified(&path("d/b.txt"), &repo.tree));
    assert!(unstaged(&repo).modified.is_empty());
    ensure_file(&mut repo, "d/b.txt", Some("edited"), 3);
    ensure_no_file(&mut repo, "d/c.txt");
    let change = unstaged(&repo);
    assert_eq!(change.modified, vec![path("d/b.txt")]);
    assert_eq!(change.deleted, vec![path("d/c.txt")]);
    assert!(!change.is_empty());
    assert!(Changes::new().is_empty());
}

#[test]
fn test_changes_projections() {
    let dirs = Dirs { work: path("/work"), current: path("/work/d") };
    let mut repo = Repository::init(dirs.clone());
    for file in ["a.txt", "d/b.txt", "d/e/c.txt"] {
        ensure_file(&mut repo, file, None, 1);
    }
    let change = unstaged(&repo);
    assert_eq!(change.to_absolute(&dirs).new, vec![path("/work/a.txt"), path("/work/d/b.txt"), path("/work/d/e/c.txt")]);
    assert_eq!(change.to_relative(&dirs).new, vec![path("../a.txt"), path("b.txt"), path("e/c.txt")]);
    assert_eq!(change.filter_abs(&vec![path(".")], &dirs).new, vec![path("/work/d/b.txt"), path("/work/d/e/c.txt")]);
    assert_eq!(change.filter_relative(&vec![path("e"), path("../a.txt")], &dirs).new, vec![path("../a.txt"), path("e/c.txt")]);
    assert!(change.filter_relative(&vec![], &dirs).is_empty());
    assert_eq!(
        change.to_absolute(&dirs).to_relative_from_abs(&dirs).new,
        change.to_relative(&dirs).new
    );
}

#[test]
fn test_add_outcomes() {
    let mut repo = fresh();
    ensure_file(&mut repo, "a.txt", Some("one"), 1);
    ensure_file(&mut repo, "b.txt", Some("two"), 1);
    assert_eq!(add(vec![path("a.txt")], false, false, &mut repo), vec![AddOutcome::Added]);
    assert_eq!(repo.index.get_tracked_files(), vec![path("/work/a.txt")]);
    assert!(repo.store.contains(&calc_hash(&"one".to_string())));
    // --update leaves new files alone
    assert_eq!(add(vec![], false, true, &mut repo), vec![]);
    ensure_file(&mut repo, "a.txt", Some("changed"), 2);
    assert_eq!(add(vec![], false, true, &mut repo), vec![AddOutcome::Modified]);
    assert_eq!(repo.index.get_hash(&path("a.txt")), Some(calc_hash(&"changed".to_string())));
    ensure_no_file(&mut repo, "a.txt");
    // --all wins over --update
    assert_eq!(add(vec![], true, true, &mut repo), vec![AddOutcome::Removed, AddOutcome::Added]);
    assert_eq!(repo.index.get_tracked_files(), vec![path("/work/b.txt")]);
    assert_eq!(add_all(&mut repo), vec![]);

    let index = &mut repo.index;
    assert_eq!(add_a_file(&path("/else/x"), index, &repo.tree, &mut repo.store), AddOutcome::Outside);
    assert_eq!(add_a_file(&path("b.txt"), index, &repo.tree, &mut repo.store), AddOutcome::Unchanged);
    repo.tree.write_file(&path("/work/.mit/HEAD"), String::new(), at(1));
    assert_eq!(add_a_file(&path(".mit/HEAD"), index, &repo.tree, &mut repo.store), AddOutcome::InsideRepo);
    assert_eq!(index.get_tracked_files(), vec![path("/work/b.txt")]);
}

#[test]
fn test_remove() {
    let mut repo = fresh();
    for file in ["a.txt", "b.txt", "d/c.txt", "d/e/f.txt", "u.txt"] {
        ensure_file(&mut repo, file, None, 1);
    }
    add(vec![path("a.txt"), path("b.txt"), path("d")], false, false, &mut repo);
    let outcomes = remove(&vec![path("none"), path("u.txt"), path("a.txt")], false, false, &mut repo);
    assert_eq!(outcomes, vec![RemoveOutcome::NotExist, RemoveOutcome::NotTracked, RemoveOutcome::Removed]);
    assert!(!present(&repo, "a.txt"));
    assert!(present(&repo, "u.txt"));
    assert!(!repo.index.contains(&path("a.txt")));
    // --cached leaves the file where it is
    assert_eq!(remove(&vec![path("b.txt")], true, false, &mut repo), vec![RemoveOutcome::Removed]);
    assert!(present(&repo, "b.txt"));
    assert!(!repo.index.contains(&path("b.txt")));
    // a directory is not tracked itself
    assert_eq!(remove(&vec![path("d")], false, true, &mut repo), vec![RemoveOutcome::NotTracked]);
    assert_eq!(repo.index.get_tracked_files().len(), 2);
    // unless a record says so
    repo.index.add(path("d"), mit::index::FileMetaData::bare(String::new(), at(1)));
    assert_eq!(remove(&vec![path("d")], false, false, &mut repo), vec![RemoveOutcome::NeedsRecursive]);
    assert_eq!(remove(&vec![path("d")], true, true, &mut repo), vec![RemoveOutcome::Removed]);
    assert_eq!(repo.index.get_tracked_files(), vec![path("/work/d")]);
    assert!(present(&repo, "d/e/f.txt"));
    assert_eq!(remove(&vec![path("d")], false, true, &mut repo), vec![RemoveOutcome::Removed]);
    assert!(!present(&repo, "d/c.txt") && !present(&repo, "d/e/f.txt"));
}

#[test]
fn test_switch() {
    let mut repo = fresh();

    commit("init".to_string(), true, &mut repo).unwrap();
    let test_branch_1 = "test_branch_1".to_string();
    new_branch(&mut repo, &test_branch_1);

    /* test 1: NoClean */
    let test_file_1 = "test_file_1";
    ensure_file(&mut repo, test_file_1, None, 1);
    let result = switch_to(&test_branch_1, false, &mut repo, at(1));
    assert!(result.is_err());
    assert!(matches!(result.unwrap_err(), SwitchErr::NoClean));

    add_all(&mut repo);
    commit("add file 1".to_string(), true, &mut repo).unwrap();
    let test_branch_2 = "test_branch_2".to_string();
    new_branch(&mut repo, &test_branch_2); // branch2: test_file_1 exists

    /* test 2: InvalidBranch */
    let result = switch_to(&"invalid_branch".to_string(), false, &mut repo, at(2));
    assert!(result.is_err());
    assert!(matches!(result.unwrap_err(), SwitchErr::InvalidBranch));

    /* test 3: InvalidObject */
    let result = switch_to(&"invalid_commit".to_string(), true, &mut repo, at(2));
    assert!(result.is_err());
    assert!(matches!(result.unwrap_err(), SwitchErr::InvalidObject));

    let test_file_2 = "test_file_2";
    ensure_file(&mut repo, test_file_2, None, 3);
    add_all(&mut repo);
    commit("add file 2".to_string(), false, &mut repo).unwrap();
    let history_commit = current_head_commit(&repo.refs); // test_file_1 and test_file_2 exist

    ensure_no_file(&mut repo, test_file_1);
    add_all(&mut repo);
    assert!(!present(&repo, test_file_1));
    commit("delete file 1".to_string(), false, &mut repo).unwrap();
    let branch_master = match current_head(&repo.refs) {
        Head::Branch(branch) => branch,
        _ => panic!("current head is not branch"),
    };

    /* test 4: switch to branch */
    let result = switch_to(&test_branch_2, false, &mut repo, at(4));
    assert!(result.is_ok());
    assert!(unstaged(&repo).is_empty() && staged(&repo).is_empty());
    assert!(match current_head(&repo.refs) {
        Head::Branch(branch) => branch == test_branch_2,
        _ => false,
    });
    assert!(present(&repo, test_file_1));
    assert!(!present(&repo, test_file_2));

    /* test 5: switch to commit */
    let result = switch_to(&history_commit, true, &mut repo, at(5));
    assert!(result.is_ok());
    assert!(unstaged(&repo).is_empty() && staged(&repo).is_empty());
    assert!(match current_head(&repo.refs) {
        Head::Detached(commit) => commit == history_commit,
        _ => false,
    });
    assert!(present(&repo, test_file_1));
    assert!(present(&repo, test_file_2));

    /* test 6: switch to master */
    let result = switch_to(&branch_master, false, &mut repo, at(6));
    assert!(result.is_ok());
    assert!(match current_head(&repo.refs) {
        Head::Branch(branch) => branch == branch_master,
        _ => false,
    });
    assert!(!present(&repo, test_file_1));
    assert!(present(&repo, test_file_2));
    assert!(unstaged(&repo).is_empty() && staged(&repo).is_empty());
    assert_eq!(is_clean(&repo), Ok(true));
}

#[test]
fn test_switch_leaves_head_when_the_checkout_fails() {
    let mut repo = fresh();
    commit("c1".to_string(), true, &mut repo).unwrap();
    // a branch without a commit cannot be checked out
    mit::head::update_branch(&mut repo.refs, &"empty".to_string(), &String::new());
    let done = switch_to(&"empty".to_string(), false, &mut repo, at(1));
    assert_eq!(done, Err(SwitchErr::Broken(Fatal::Missing)));
    assert!(matches!(current_head(&repo.refs), Head::Branch(name) if name == "master"));
    assert_eq!(switch_to_commit(&"none".to_string(), &mut repo, at(2)), Err(Fatal::Missing));
    // switch with create makes the branch first
    let (made, done) = switch(None, Some("fresh".to_string()), false, &mut repo, at(3));
    assert!(matches!(made, Some(BranchOutcome::Created(Ok(())))));
    assert_eq!(done, Ok(()));
    assert!(matches!(current_head(&repo.refs), Head::Branch(name) if name == "fresh"));
}

#[test]
fn test_status_report() {
    let mut repo = Repository::init(Dirs { work: path("/work"), current: path("/work/d") });
    ensure_file(&mut repo, "a.txt", None, 1);
    ensure_file(&mut repo, "d/b.txt", None, 1);
    add(vec![path("b.txt")], false, false, &mut repo);
    let report = status(&repo).unwrap();
    assert!(matches!(report.head, Head::Branch(name) if name == "master"));
    assert_eq!(report.staged.new, vec![path("b.txt")]);
    assert_eq!(report.unstaged.new, vec![path("../a.txt")]);
    repo.refs.head = "nowhere".to_string();
    assert_eq!(status(&repo).unwrap_err(), Fatal::Missing);
}

#[test]
fn test_broken_repository_is_reported() {
    let mut repo = fresh();
    ensure_file(&mut repo, "a.txt", Some("one"), 1);
    add_all(&mut repo);
    let first = commit("c1".to_string(), false, &mut repo).unwrap();
    // the blob of a.txt is lost
    let blob = calc_hash(&"one".to_string());
    repo.store.objects.remove(&blob);
    ensure_file(&mut repo, "a.txt", Some("two"), 2);
    let done = restore(&vec![path(".")], Some(first.clone()), true, true, &mut repo, at(3));
    assert_eq!(done, Err(RestoreErr::Broken(Fatal::Missing)));
    assert_eq!(content(&repo, "a.txt"), "two");
    // HEAD names a commit that is not there
    repo.refs.head = "0".repeat(40);
    assert_eq!(commit("c2".to_string(), false, &mut repo), Err(CommitErr::Broken(Fatal::Missing)));
    assert_eq!(is_clean(&repo), Ok(false));
    add_all(&mut repo);
    assert_eq!(is_clean(&repo), Err(Fatal::Missing));
    assert_eq!(switch_to(&first, true, &mut repo, at(4)), Err(SwitchErr::Broken(Fatal::Missing)));
    assert_eq!(merge(&first, &mut repo, at(5)), Err(MergeErr::Broken(Fatal::Missing)));
}

#[test]
fn test_end_to_end() {
    let mut repo = fresh();
    ensure_file(&mut repo, "a.txt", Some("hello"), 1);
    add_all(&mut repo);
    assert_eq!(staged(&repo).new, vec![path("a.txt")]);
    let first = commit("c1".to_string(), false, &mut repo).unwrap();
    ensure_file(&mut repo, "a.txt", Some("hello2"), 2);
    add_all(&mut repo);
    let report = status(&repo).unwrap();
    assert_eq!(report.staged.modified, vec![path("a.txt")]);
    assert!(report.staged.new.is_empty() && report.staged.deleted.is_empty());
    assert!(report.unstaged.is_empty());
    let second = commit("c2".to_string(), false, &mut repo).unwrap();
    let shown = log(false, None, &repo).unwrap();
    assert_eq!(shown.len(), 2);
    assert_eq!((shown[0].get_hash(), shown[0].get_message()), (second, "c2".to_string()));
    assert_eq!((shown[1].get_hash(), shown[1].get_message()), (first, "c1".to_string()));
    assert!(clean(&repo));
}
