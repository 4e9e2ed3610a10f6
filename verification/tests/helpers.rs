use mit::commands::init::init;
use mit::hash::calc_hash;
use mit::head::{current_head, Head};
use mit::index::{FileMetaData, Index};
use mit::list::filter;
use mit::path::{Dirs, Path};
use mit::path_ext::PathExt;
use mit::store::{Fatal, Store};
use mit::worktree::{
    calc_file_hash, cur_dir, get_storage_path, get_working_dir, include_root_dir, is_empty_dir,
    list_files, storage_exist, Timestamp, WorkTree,
};

fn path(text: &str) -> Path {
    let absolute = text.starts_with('/');
    let parts = text.split('/').filter(|s| !s.is_empty()).map(|s| s.to_string()).collect();
    Path::new(absolute, parts)
}

fn dirs() -> Dirs {
    Dirs { work: path("/home/work"), current: path("/home/work/sub") }
}

fn at(secs: u64) -> Timestamp {
    Timestamp { secs, nanos: 0 }
}

#[test]
fn test_filter_and_map() {
    let numbers = vec![1u32, 2, 3, 4, 5, 6];
    assert_eq!(filter(&numbers, |n: &u32| *n % 2 == 0), vec![2, 4, 6]);
    assert_eq!(filter(&numbers, |_: &u32| false), Vec::<u32>::new());
    assert_eq!(mit::list::map(&numbers, |n: &u32| *n / 2), vec![0, 1, 1, 2, 2, 3]);
    let words = vec!["a".to_string(), "bb".to_string()];
    assert_eq!(filter(&words, |w: &String| w.len() > 1), vec!["bb".to_string()]);
    assert_eq!(mit::list::map(&words, |w: &String| w.to_uppercase()), vec!["A".to_string(), "BB".to_string()]);
}

#[test]
fn test_path_ext() {
    let dirs = dirs();
    assert_eq!(path("a/../b").to_absolute(&dirs), path("/home/work/sub/b"));
    assert_eq!(path("a").to_absolute_workdir(&dirs), path("/home/work/a"));
    assert_eq!(path("/home/work/a").to_relative(&dirs), path("../a"));
    assert_eq!(path("a").to_relative_workdir(&dirs), path("sub/a"));
    assert!(path("a/b").is_sub_to(&path("a"), &dirs));
    assert!(!path("a").is_sub_to(&path("a/b"), &dirs));
    assert!(path("a/b").include_in(&vec![path("x"), path("a")], &dirs));
    assert!(!path("a/b").include_in(&vec![], &dirs));
}

#[test]
fn test_get_storage_path() {
    let mut tree = WorkTree::new();
    assert_eq!(get_storage_path(&path("/a/b/c"), &tree), None);
    assert!(!storage_exist(&path("/a/b/c"), &tree));
    tree.write_file(&path("/a/.mit/objects/0"), String::new(), at(1));
    assert_eq!(get_storage_path(&path("/a/b/c"), &tree), Some(path("/a/.mit")));
    assert_eq!(get_storage_path(&path("/a"), &tree), Some(path("/a/.mit")));
    assert_eq!(get_storage_path(&path("/x"), &tree), None);
    // the nearest one counts
    tree.write_file(&path("/a/b/.mit/HEAD"), String::new(), at(1));
    assert_eq!(get_storage_path(&path("/a/b/c"), &tree), Some(path("/a/b/.mit")));
    assert!(storage_exist(&path("/a/b"), &tree));
    tree.write_file(&path("/.mit"), String::new(), at(1));
    assert_eq!(get_storage_path(&path("/x/y"), &tree), Some(path("/.mit")));
    assert!(include_root_dir(&path("/a"), &tree));
    assert!(include_root_dir(&path("/a/b"), &tree));
    assert!(!include_root_dir(&path("/a/b/c"), &tree));
}

#[test]
fn test_check_root_dir() {
    let mut tree = WorkTree::new();
    tree.write_file(&path("/home/work/.mit/HEAD"), String::new(), at(1));
    assert_eq!(include_root_dir(&path("/home/work"), &tree), true);
    tree.write_file(&path("/home/work/src/main.rs"), String::new(), at(1));
    assert_eq!(include_root_dir(&path("/home/work/src"), &tree), false);
    tree.write_file(&path("/home/work/src/.mit/HEAD"), String::new(), at(1));
    assert_eq!(include_root_dir(&path("/home/work/src"), &tree), true);
}

#[test]
fn util_test_write() {
    let mut tree = WorkTree::new();
    let file = path("/home/work/src/test/a.txt");
    mit::worktree::write(&file, "test".to_string(), &mut tree, at(1));
    assert!(tree.file_exists(&file));
    assert!(tree.dir_exists(&path("/home/work/src/test")));
    assert_eq!(calc_file_hash(&file, &tree), calc_hash(&"test".to_string()));
    assert_eq!(list_files(&path("/home/work/src"), &tree), vec![file]);
    assert!(!is_empty_dir(&path("/home/work/src/test"), &tree));
    assert!(is_empty_dir(&path("/home/work/empty"), &tree));
    let dirs = dirs();
    assert_eq!(get_working_dir(&dirs), path("/home/work"));
    assert_eq!(cur_dir(&dirs), path("/home/work/sub"));
}

#[test]
fn test_store_restore_to_file() {
    let mut store = Store::new();
    let mut tree = WorkTree::new();
    let hash = store.save(&"content".to_string());
    let file = path("/home/work/a.txt");
    assert_eq!(store.restore_to_file(&hash, &file, &mut tree, at(3)), Ok(()));
    assert_eq!(tree.file(&file).unwrap().content, "content");
    assert_eq!(store.restore_to_file(&"none".to_string(), &file, &mut tree, at(4)), Err(Fatal::Missing));
    assert_eq!(tree.file(&file).unwrap().modified, at(3));
}

#[test]
fn test_reload() {
    let dirs = dirs();
    let mut index = Index::new(dirs.clone());
    index.add(path("a.txt"), FileMetaData::bare("h1".to_string(), at(1)));
    let saved = index.save();
    index.add(path("b.txt"), FileMetaData::bare("h2".to_string(), at(2)));
    index.remove(&path("a.txt"));
    assert!(index.reload(&saved));
    assert_eq!(index.get_tracked_files(), vec![path("/home/work/sub/a.txt")]);
    assert_eq!(index.get_hash(&path("a.txt")), Some("h1".to_string()));
    let mut broken = index.save();
    broken.entries[0].key = path("../../../../x");
    assert!(!index.reload(&broken));
    assert_eq!(index.get_tracked_files(), vec![path("/home/work/sub/a.txt")]);
}

#[test]
fn test_init() {
    let (mut repo, made) = init(None, dirs());
    assert!(made);
    assert!(matches!(current_head(&repo.refs), Head::Branch(name) if name == "master"));
    assert!(repo.index.is_empty());
    assert!(repo.store.objects.entries.is_empty());
    repo.store.save(&"kept".to_string());
    // a repository is not initialised again
    let (repo, made) = init(Some(repo), dirs());
    assert!(!made);
    assert_eq!(repo.store.objects.entries.len(), 1);
}
