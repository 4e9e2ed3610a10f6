use mit::head::{
    change_head_to_branch, change_head_to_commit, current_head, current_head_commit,
    delete_branch, get_branch_head, list_local_branches, update_branch, update_head_commit, Head,
    Refs,
};
use mit::index::{FileMetaData, Index};
use mit::blob::Blob;
use mit::path::{
    checked_absolute_path, checked_canonical_path, filter_to_fit_paths, get_absolute_path,
    get_absolute_path_to_dir, get_common_dir, get_relative_path, get_relative_path_to_dir,
    include_in_paths, is_parent_dir, is_sub_path, to_workdir_absolute_path,
    to_workdir_relative_path, Dirs, Path,
};
use mit::store::Store;
use mit::text::{slice, starts_with, strip_leading, trim_blank_end};
use mit::worktree::{
    clear_empty_dir, emptied_dirs, get_file_mode, integrate_paths, is_cur_dir, is_inside_dir,
    is_inside_repo, is_listed, list_workdir_files, FileState, Timestamp, WorkTree,
};

fn path(text: &str) -> Path {
    let absolute = text.starts_with('/');
    let parts = text.split('/').filter(|s| !s.is_empty()).map(|s| s.to_string()).collect();
    Path::new(absolute, parts)
}

fn dirs() -> Dirs {
    Dirs { work: path("/home/work"), current: path("/home/work/sub") }
}

fn at(secs: u64) -> Timestamp {
    Timestamp { secs, nanos: 0 }
}

fn work_tree(files: &[&str]) -> WorkTree {
    let mut tree = WorkTree::new();
    for file in files {
        tree.write_file(&path(file), "x".to_string(), at(1));
    }
    tree
}

#[test]
fn test_get_absolute_path() {
    let dirs = dirs();
    let abs_path = get_absolute_path(&path("./mit_test_storage/.././src\\main.rs"), &dirs);
    println!("{:?}", abs_path);

    let mut cur_dir = dirs.current.clone();
    cur_dir.parts.push("mit_test_storage".to_string());
    cur_dir.parts.pop();
    cur_dir.parts.push("src\\main.rs".to_string());
    assert_eq!(abs_path, cur_dir);
    assert_eq!(
        get_absolute_path(&path("./mit_test_storage/.././src/main.rs"), &dirs),
        path("/home/work/sub/src/main.rs")
    );
}

#[test]
fn test_absolute_path_is_taken_as_it_is() {
    let given = path("/a/../b");
    assert_eq!(get_absolute_path(&given, &dirs()), given);
    assert_eq!(get_absolute_path_to_dir(&given, &path("/x")), given);
}

#[test]
fn test_checked_absolute_path_stops_at_the_root() {
    assert_eq!(checked_absolute_path(&path("../.."), &path("/a/b")), Some(path("/")));
    assert_eq!(checked_absolute_path(&path("../../.."), &path("/a/b")), None);
    assert_eq!(checked_absolute_path(&path("../../x/../../y"), &path("/a/b")), None);
    assert_eq!(checked_absolute_path(&path("/../x"), &path("/a/b")), Some(path("/../x")));
    assert_eq!(checked_canonical_path(&path("/../x"), &path("/a/b")), None);
    assert_eq!(checked_canonical_path(&path("/a/./b/../c"), &path("/z")), Some(path("/a/c")));
    assert_eq!(checked_canonical_path(&path("../c"), &path("/a/b")), Some(path("/a/c")));
}

#[test]
fn test_get_relative_path() {
    let dirs = dirs();
    let given = path("../../src\\main.rs");
    let rel_path = get_relative_path_to_dir(&given, &dirs.current, &dirs);
    println!("{:?}", rel_path);
    assert_eq!(rel_path, given);
    assert_eq!(get_relative_path(&given, &dirs), given);
}

#[test]
fn test_relative_path_formula() {
    let dirs = dirs();
    assert_eq!(
        get_relative_path_to_dir(&path("/home/other/a.txt"), &path("/home/work/sub"), &dirs),
        path("../../other/a.txt")
    );
    assert_eq!(
        get_relative_path_to_dir(&path("/home/work/sub"), &path("/home/work/sub"), &dirs),
        path("")
    );
    assert_eq!(to_workdir_relative_path(&path("a.txt"), &dirs), path("sub/a.txt"));
    assert_eq!(to_workdir_relative_path(&path("/home/work/a/b"), &dirs), path("a/b"));
}

#[test]
fn test_to_workdir_absolute_path() {
    let dirs = dirs();
    let abs_path = to_workdir_absolute_path(&path("./src/../main.rs"), &dirs);
    println!("{:?}", abs_path);

    let mut cur_dir = dirs.work.clone();
    cur_dir.parts.push("main.rs".to_string());
    assert_eq!(abs_path, cur_dir);
}

#[test]
fn test_relative_and_absolute_form_undo_each_other() {
    let dirs = dirs();
    for file in ["/home/work/a.txt", "/home/work/sub/d/e.txt", "/home/else/f", "/g"] {
        let rel = to_workdir_relative_path(&path(file), &dirs);
        assert_eq!(to_workdir_absolute_path(&rel, &dirs), path(file));
    }
}

#[test]
fn test_get_common_dir() {
    let dirs = dirs();
    assert_eq!(get_common_dir(&path("/a/b/c"), &path("/a/b/d/e"), &dirs), path("/a/b"));
    assert_eq!(get_common_dir(&path("/a"), &path("/b"), &dirs), path("/"));
    assert_eq!(get_common_dir(&path("x"), &path("../y"), &dirs), path("/home/work"));
}

#[test]
fn test_is_sub_path() {
    let dirs = dirs();
    assert!(is_sub_path(&path("/a/b/c"), &path("/a/b"), &dirs));
    assert!(is_sub_path(&path("/a/b"), &path("/a/b"), &dirs));
    assert!(!is_sub_path(&path("/a/bc"), &path("/a/b"), &dirs));
    assert!(!is_sub_path(&path("/a"), &path("/a/b"), &dirs));
    assert!(is_parent_dir(&path("x/y"), &path("."), &dirs));
    assert!(is_parent_dir(&path("x/y"), &path("/home/work"), &dirs));
    assert!(!is_parent_dir(&path("../y"), &path("."), &dirs));
}

#[test]
fn test_include_in_paths() {
    let dirs = dirs();
    let paths = vec![path("/a/b"), path("x")];
    assert!(include_in_paths(&path("/a/b/c"), &paths, &dirs));
    assert!(include_in_paths(&path("x/y"), &paths, &dirs));
    assert!(include_in_paths(&path("/home/work/sub/x"), &paths, &dirs));
    assert!(!include_in_paths(&path("/a/c"), &paths, &dirs));
    assert!(!include_in_paths(&path("/a/b"), &vec![], &dirs));
    let items = vec![path("/a/b/1"), path("/c"), path("x/2"), path("/a/b")];
    assert_eq!(
        filter_to_fit_paths(&items, &paths, &dirs),
        vec![path("/a/b/1"), path("x/2"), path("/a/b")]
    );
    assert_eq!(filter_to_fit_paths(&items, &vec![], &dirs), Vec::<Path>::new());
}

#[test]
fn test_path_helpers() {
    let file = path("/a/b/c.txt");
    assert_eq!(file.parent(), path("/a/b"));
    assert_eq!(path("/").parent(), path("/"));
    assert_eq!(path("/a").join(&"b".to_string()), path("/a/b"));
    assert!(file.starts_with(&path("/a")));
    assert!(!file.starts_with(&path("a")));
    assert!(file.same_as(&path("/a/b/c.txt")));
    assert!(!file.same_as(&path("a/b/c.txt")));
}

#[test]
fn test_text_helpers() {
    assert!(starts_with("1234567890", "1234"));
    assert!(starts_with("abc", ""));
    assert!(!starts_with("abc", "abcd"));
    assert!(!starts_with("abc", "b"));
    assert_eq!(slice("héllo", 1, 3), "él");
    assert_eq!(trim_blank_end("a b \t\r\n"), "a b");
    assert_eq!(trim_blank_end(" \n"), "");
    assert_eq!(strip_leading("ababc", "ab"), "c");
    assert_eq!(strip_leading("abc", "x"), "abc");
    assert_eq!(strip_leading("abc", ""), "abc");
}

#[test]
fn test_list_files() {
    let tree = work_tree(&[
        "/home/work/test/test.txt",
        "/home/work/a.txt",
        "/home/work/b.txt",
        "/home/work/.mit/HEAD",
        "/home/work/sub/.mit/index",
        "/home/other/c.txt",
    ]);
    let files = tree.list_files(&path("/home/work"));
    for file in files.iter() {
        println!("{:?}", file);
    }
    assert_eq!(
        files,
        vec![path("/home/work/test/test.txt"), path("/home/work/a.txt"), path("/home/work/b.txt"),]
    );
    assert_eq!(list_workdir_files(&tree, &dirs()), files);
    assert_eq!(tree.list_files(&path("/home/work/.mit")), Vec::<Path>::new());
    assert_eq!(tree.list_files(&path("/home/work/a.txt")), Vec::<Path>::new());
    assert_eq!(tree.list_files(&path("/home/work/test")), vec![path("/home/work/test/test.txt")]);
    assert!(is_listed(&path("/w/.mit"), &path("/w")));
    assert!(!is_listed(&path("/w/.mit/x"), &path("/w")));
    assert!(!is_listed(&path("/w"), &path("/w")));
}

#[test]
fn test_integrate_paths() {
    let tree = work_tree(&[
        "/home/work/sub/src/utils/util.rs",
        "/home/work/sub/src/utils/path_ext.rs",
        "/home/work/sub/src/main.rs",
    ]);
    let mut paths = Vec::new();
    paths.push(path("src/utils"));
    paths.push(path("../test_del.txt"));
    paths.push(path("src/utils/util.rs"));
    let abs_paths = integrate_paths(&paths, &tree, &dirs());
    for path in abs_paths.iter() {
        println!("{:?}", path);
    }
    assert_eq!(
        abs_paths,
        vec![
            path("/home/work/sub/src/utils/util.rs"),
            path("/home/work/sub/src/utils/path_ext.rs"),
            path("/home/work/test_del.txt"),
        ]
    );
}

#[test]
fn test_worktree_files_and_dirs() {
    let dirs = dirs();
    let mut tree = work_tree(&["/home/work/d/a.txt"]);
    assert!(tree.dir_exists(&path("/home/work/d")));
    assert!(tree.dir_exists(&path("/home")));
    assert!(!tree.dir_exists(&path("/home/work/d/a.txt")));
    assert!(tree.file_exists(&path("/home/work/d/a.txt")));
    assert!(is_inside_dir(&path("../d/a.txt"), &path("/home/work"), &tree, &dirs));
    assert!(!is_inside_dir(&path("../d/b.txt"), &path("/home/work"), &tree, &dirs));
    assert!(!is_inside_repo(&path("/home/work/d/a.txt"), &tree, &dirs));
    tree.put_file(
        path("/home/work/.mit/HEAD"),
        FileState { content: String::new(), created: at(1), modified: at(1), executable: true },
    );
    assert!(is_inside_repo(&path("/home/work/.mit/HEAD"), &tree, &dirs));
    assert!(!is_inside_repo(&path("/home/work/.mit/none"), &tree, &dirs));
    assert_eq!(get_file_mode(&path("/home/work/d"), &tree), "40000");
    assert_eq!(get_file_mode(&path("/home/work/d/a.txt"), &tree), "100644");
    assert_eq!(get_file_mode(&path("/home/work/.mit/HEAD"), &tree), "100755");
    assert_eq!(get_file_mode(&path("/home/work/none"), &tree), "100644");
    assert!(is_cur_dir(&path("."), &dirs));
    assert!(is_cur_dir(&path("/home/work/sub"), &dirs));
    assert!(!is_cur_dir(&path(".."), &dirs));

    // A file that is written again keeps its creation time.
    tree.write_file(&path("/home/work/d/a.txt"), "y".to_string(), at(9));
    let state = tree.file(&path("/home/work/d/a.txt")).unwrap();
    assert_eq!((state.content.as_str(), state.created, state.modified), ("y", at(1), at(9)));
    tree.remove_file(&path("/home/work/d/a.txt"));
    assert!(!tree.file_exists(&path("/home/work/d/a.txt")));
    assert!(!tree.dir_exists(&path("/home/work/d")));
}

#[test]
fn test_clear_empty_dir() {
    let dirs = dirs();
    let tree = work_tree(&["/home/work/keep/a.txt", "/home/work/x/other.txt"]);
    // The file x/y/z/f was deleted: z and y are left without a file and go,
    // x still holds one and stays.
    assert_eq!(
        clear_empty_dir(&path("/home/work/x/y/z/f"), &tree, &dirs),
        vec![path("/home/work/x/y/z"), path("/home/work/x/y")]
    );
    // Below the current directory the walk ends at the current directory.
    assert_eq!(
        clear_empty_dir(&path("/home/work/sub/e/f"), &tree, &dirs),
        vec![path("/home/work/sub/e")]
    );
    assert_eq!(clear_empty_dir(&path("/home/work/sub/f"), &tree, &dirs), Vec::<Path>::new());
    // A directory that holds a file stays, and so does all above it.
    assert_eq!(clear_empty_dir(&path("/home/work/keep/b.txt"), &tree, &dirs), Vec::<Path>::new());
    // The working tree's root is never removed.
    let bare = WorkTree::new();
    assert_eq!(clear_empty_dir(&path("/home/work/f"), &bare, &dirs), Vec::<Path>::new());
    assert_eq!(clear_empty_dir(&path("/home/work/d/f"), &bare, &dirs), vec![path("/home/work/d")]);
    // Outside the working tree the walk ends at the root of all.
    assert_eq!(clear_empty_dir(&path("/else/f"), &bare, &dirs), vec![path("/else")]);
    assert!(tree.holds_no_file(&path("/home/work/x/y")));
    assert!(!tree.holds_no_file(&path("/home/work/x")));
}

#[test]
fn test_emptied_dirs() {
    let dirs = dirs();
    let before = work_tree(&[
        "/home/work/a/b/one.txt",
        "/home/work/a/b/two.txt",
        "/home/work/a/c/three.txt",
        "/home/work/d/four.txt",
        "/home/work/sub/five.txt",
        "/home/work/six.txt",
    ]);
    // nothing is deleted: nothing is to be removed
    assert_eq!(emptied_dirs(&before, &before, &dirs), Vec::<Path>::new());
    let after = work_tree(&["/home/work/a/c/three.txt", "/home/work/d/new.txt"]);
    assert_eq!(emptied_dirs(&before, &after, &dirs), vec![path("/home/work/a/b")]);
    let mut none = WorkTree::new();
    assert_eq!(
        emptied_dirs(&before, &none, &dirs),
        vec![path("/home/work/a/b"), path("/home/work/a"), path("/home/work/a/c"), path("/home/work/d")]
    );
    none.remove_dir_all(&path("/home/work"));
    let mut less = work_tree(&["/home/work/a/b/one.txt", "/home/work/d/four.txt"]);
    less.remove_dir_all(&path("/home/work/a"));
    assert!(!less.file_exists(&path("/home/work/a/b/one.txt")));
    assert!(less.file_exists(&path("/home/work/d/four.txt")));
}

#[test]
fn test_edit_branch() {
    let mut refs = Refs::new();
    let branch_name = "test_branch".to_string() + "4711";
    let branch_head = get_branch_head(&refs, &branch_name);
    assert!(branch_head.is_empty());

    let commit_hash = "1234567890".to_string();
    update_branch(&mut refs, &branch_name, &commit_hash);
    let branch_head = get_branch_head(&refs, &branch_name);
    assert!(!branch_head.is_empty());
    assert!(branch_head == commit_hash);
}

#[test]
fn test_list_local_branches() {
    let mut refs = Refs::new();
    let branch_one = "test_branch".to_string() + "1";
    let branch_two = "test_branch".to_string() + "2";
    update_branch(&mut refs, &branch_one, &"1234567890".to_string());
    update_branch(&mut refs, &branch_two, &"1234567890".to_string());

    let branches = list_local_branches(&refs);
    assert!(branches.contains(&branch_one));
    assert!(branches.contains(&branch_two));
    assert_eq!(branches.len(), 2);
    delete_branch(&mut refs, &branch_one);
    assert_eq!(list_local_branches(&refs), vec![branch_two]);
}

#[test]
fn test_change_head_to_branch() {
    let mut refs = Refs::new();
    let branch_name = "test_branch".to_string() + "7";
    update_branch(&mut refs, &branch_name, &"1234567890".to_string());
    change_head_to_branch(&mut refs, &branch_name);
    assert!(
        match current_head(&refs) {
            Head::Branch(head_commit) => head_commit == branch_name,
            _ => false,
        },
        "not on the branch"
    );
    assert_eq!(refs.head, "ref: refs/heads/test_branch7");
    assert_eq!(current_head_commit(&refs), "1234567890");
    // A branch that is not there yet starts without a commit.
    change_head_to_branch(&mut refs, &"fresh".to_string());
    assert_eq!(current_head_commit(&refs), "");
    assert!(list_local_branches(&refs).contains(&"fresh".to_string()));
}

#[test]
fn test_change_head_to_commit() {
    let mut refs = Refs::new();
    let commit_hash = "1234567890".to_string();
    change_head_to_commit(&mut refs, &commit_hash);
    assert!(
        match current_head(&refs) {
            Head::Detached(head_commit) => head_commit == commit_hash,
            _ => false,
        },
        "not on the commit"
    );
    assert_eq!(current_head_commit(&refs), commit_hash);
    update_head_commit(&mut refs, &"abc".to_string());
    assert_eq!(refs.head, "abc");
    assert!(list_local_branches(&refs).is_empty());
}

#[test]
fn test_update_branch_head() {
    let mut refs = Refs::new();
    let branch_name = "test_branch".to_string() + "9";
    let commit_hash = "1234567890".to_string();
    update_branch(&mut refs, &branch_name, &commit_hash);
    let branch_head = get_branch_head(&refs, &branch_name);
    assert!(!branch_head.is_empty());
    assert!(branch_head == commit_hash);
}

#[test]
fn test_head_of_a_fresh_repository() {
    let mut refs = Refs::new();
    assert!(matches!(current_head(&refs), Head::Branch(name) if name == "master"));
    assert_eq!(current_head_commit(&refs), "");
    update_head_commit(&mut refs, &"c1".to_string());
    assert_eq!(get_branch_head(&refs, &"master".to_string()), "c1");
    assert_eq!(current_head_commit(&refs), "c1");
    refs.head = "ref: refs/heads/ref: refs/heads/twice \n".to_string();
    assert!(matches!(current_head(&refs), Head::Branch(name) if name == "twice"));
}

#[test]
fn test_meta_get() {
    let mut tree = WorkTree::new();
    let file = path("/home/work/.mit/HEAD");
    tree.put_file(
        file.clone(),
        FileState {
            content: "ref: refs/heads/master\n".to_string(),
            created: Timestamp { secs: 3, nanos: 4 },
            modified: Timestamp { secs: 5, nanos: 6 },
            executable: false,
        },
    );
    let blob = Blob::dry_new("ref: refs/heads/master\n".to_string());
    let meta = FileMetaData::new(&blob, &file, &tree);
    println!("{:?}", meta);
    assert_eq!(meta.size, 23);
    assert_eq!(meta.created_time, Timestamp { secs: 3, nanos: 4 });
    assert_eq!(meta.modified_time, Timestamp { secs: 5, nanos: 6 });
    assert_eq!(meta.mode, "100644");
    assert_eq!(meta.hash, blob.get_hash());
    let bare = FileMetaData::bare("h".to_string(), at(7));
    assert_eq!((bare.size, bare.mode.as_str(), bare.created_time), (0, "", at(7)));
}

#[test]
fn index_test_load() {
    let index = Index::new(dirs());
    println!("{:?}", index.get_tracked_files());
    assert!(index.is_empty());
    assert_eq!(index.get_path(), path("/home/work/.mit/index"));
}

#[test]
fn test_save() {
    let dirs = Dirs { work: path("/home/mit_test_storage"), current: path("/home/mit_test_storage") };
    let mut store = Store::new();
    let mut tree = WorkTree::new();
    let mut index = Index::new(dirs.clone());
    for name in ["/home/mit_test_storage/.mit/HEAD", "/home/mit_test_storage/中文路径.txt"] {
        tree.write_file(&path(name), "text".to_string(), at(1));
    }
    // A path with `..` in it is recorded under its canonical form.
    let given = path("../mit_test_storage/.mit/HEAD");
    let file = path("/home/mit_test_storage/.mit/HEAD");
    let blob = Blob::new("text".to_string(), &mut store);
    index.add(given.clone(), FileMetaData::new(&blob, &file, &tree));

    let given = path("中文路径.txt");
    let file = path("/home/mit_test_storage/中文路径.txt");
    index.add(given.clone(), FileMetaData::new(&blob, &file, &tree));
    let saved = index.save();
    println!("{:?}", index.get_tracked_files());
    let paths: Vec<Path> = saved.entries.iter().map(|e| e.key.clone()).collect();
    assert_eq!(paths, vec![path(".mit/HEAD"), path("中文路径.txt")]);
    assert_eq!(
        index.get_tracked_files(),
        vec![path("/home/mit_test_storage/.mit/HEAD"), path("/home/mit_test_storage/中文路径.txt")]
    );
}

#[test]
fn test_save_load() {
    let dirs = Dirs { work: path("/home/work"), current: path("/home/work") };
    let mut store = Store::new();
    let mut tree = WorkTree::new();
    let mut index = Index::new(dirs.clone());
    let given = path(".mit/HEAD");
    let file = path("/home/work/.mit/HEAD");
    tree.write_file(&file, "text".to_string(), at(1));
    let blob = Blob::new("text".to_string(), &mut store);
    index.add(given.clone(), FileMetaData::new(&blob, &file, &tree));
    // Before it is saved, a staging area that is read is empty.
    assert!(Index::new(dirs.clone()).is_empty());
    let saved = index.save();
    // After it is saved, one that is read is not.
    let loaded = Index::load(dirs.clone(), &saved).unwrap();
    assert!(!loaded.is_empty());
    assert_eq!(loaded.get_tracked_files(), index.get_tracked_files());
    assert_eq!(loaded.get_hash(&file), Some(blob.get_hash()));
    // The same file is valid for the working tree at another place.
    let moved = Dirs { work: path("/elsewhere"), current: path("/elsewhere") };
    let loaded = Index::load(moved, &saved).unwrap();
    assert_eq!(loaded.get_tracked_files(), vec![path("/elsewhere/.mit/HEAD")]);
    // A saved path that climbs above the root spoils the file.
    let mut broken = index.save();
    broken.entries[0].key = path("../../../x");
    assert!(Index::load(dirs, &broken).is_none());
}

#[test]
fn test_index_operations() {
    let dirs = dirs();
    let mut store = Store::new();
    let mut tree = WorkTree::new();
    let mut index = Index::new(dirs.clone());
    let file = path("/home/work/sub/a.txt");
    tree.write_file(&file, "one".to_string(), at(1));
    let blob = Blob::new("one".to_string(), &mut store);
    assert!(index.is_modified(&path("a.txt"), &tree));
    assert!(!index.contains(&path("a.txt")));
    assert!(index.verify_hash(&path("a.txt"), &String::new()));
    assert!(!index.verify_hash(&path("a.txt"), &blob.hash));
    index.add(path("a.txt"), FileMetaData::new(&blob, &file, &tree));
    assert!(index.contains(&file));
    assert!(index.is_tracked(&path("./a.txt")));
    assert!(!index.is_modified(&file, &tree));
    assert!(index.verify_hash(&file, &blob.hash));
    assert!(!index.verify_hash(&file, &String::new()));
    assert_eq!(index.get(&file).unwrap().size, 3);
    assert_eq!(index.get_hash(&path("b.txt")), None);
    assert_eq!(index.get_tracked_entries().entries.len(), 1);
    // The same content written later: the fingerprint differs, the hash not.
    tree.write_file(&file, "one".to_string(), at(2));
    assert!(index.is_modified(&file, &tree));
    assert!(index.get_deleted_files(&path("/home/work"), &tree).is_empty());
    tree.remove_file(&file);
    assert!(index.is_modified(&file, &tree));
    assert_eq!(index.get_deleted_files(&path("/home/work"), &tree), vec![file.clone()]);
    assert_eq!(index.get_deleted_files(&path("."), &tree), vec![file.clone()]);
    assert!(index.get_deleted_files(&path("/home/work/other"), &tree).is_empty());
    index.update(file.clone(), FileMetaData::bare("h".to_string(), at(3)));
    assert_eq!(index.get_hash(&file), Some("h".to_string()));
    assert_eq!(index.get_tracked_files().len(), 1);
    index.remove(&path("none"));
    index.remove(&file);
    assert!(index.is_empty());
}
