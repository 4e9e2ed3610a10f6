use mit::blob::Blob;
use mit::commit::Commit;
use mit::hash::calc_hash;
use mit::index::{FileMetaData, Index};
use mit::json::{same_json, Json, Member};
use mit::object::{check_object_type, is_typeof_commit, ObjectType};
use mit::path::{Dirs, Path};
use mit::store::{Fatal, Store};
use mit::tree::{EntryKind, Tree, TreeEntry};
use mit::worktree::{Timestamp, WorkTree};

fn path(text: &str) -> Path {
    let absolute = text.starts_with('/');
    let parts = text.split('/').filter(|s| !s.is_empty()).map(|s| s.to_string()).collect();
    Path::new(absolute, parts)
}

fn dirs() -> Dirs {
    Dirs { work: path("/work"), current: path("/work") }
}

fn at(secs: u64) -> Timestamp {
    Timestamp { secs, nanos: 0 }
}

/// Writes a file whose content is its name, and stages it.
fn stage(index: &mut Index, tree: &mut WorkTree, store: &mut Store, name: &str) -> Blob {
    let file = path(&format!("/work/{}", name));
    let content = file.parts.last().unwrap().clone();
    tree.write_file(&file, content.clone(), at(1));
    let blob = Blob::new(content, store);
    index.add(path(name), FileMetaData::new(&blob, &file, tree));
    blob
}

#[test]
fn test_hash() {
    let hash = calc_hash(&String::from("hello world"));
    println!("{}", hash);
    assert_eq!(hash, "2aae6c35c94fcfb415dbe95f408b9ce91ee846ed");
}

#[test]
fn test_hash_of_empty_text() {
    assert_eq!(calc_hash(&String::new()), "da39a3ee5e6b4b0d3255bfef95601890afd80709");
}

#[test]
fn test_hash_counts_bytes_not_chars() {
    assert_eq!(calc_hash(&String::from("é")), "bf15be717ac1b080b4f1c456692825891ff5073d");
}

#[test]
fn test_new_success() {
    let store = Store::new();
    assert!(!store.contains(&"anything".to_string()));
}

#[test]
fn test_save_and_load() {
    let mut store = Store::new();
    let content = "hello world".to_string();
    let hash = store.save(&content);
    let content2 = store.load(&hash).unwrap();
    assert_eq!(content, content2, "the content differs");
}

#[test]
fn test_save_twice_writes_once() {
    let mut store = Store::new();
    let content = "hello world".to_string();
    let first = store.save(&content);
    let second = store.save(&content);
    assert_eq!(first, second);
    assert_eq!(first, "2aae6c35c94fcfb415dbe95f408b9ce91ee846ed");
    assert_eq!(store.objects.entries.len(), 1);
    assert_eq!(store.load(&first).unwrap(), content);
}

#[test]
fn test_load_missing() {
    let store = Store::new();
    assert_eq!(store.load(&"1234".to_string()), Err(Fatal::Missing));
}

#[test]
fn test_search() {
    let mut store = Store::new();
    for hash in ["1234567890", "1235467891", "4567892"] {
        store.put(hash.to_string(), "hello world".to_string());
    }
    assert!(store.search(&"123".to_string()).is_none());
    assert_eq!(store.search(&"1234".to_string()), Some("1234567890".to_string()));
    assert_eq!(store.search(&"4".to_string()), Some("4567892".to_string()));
    assert!(store.search(&"1234567890123".to_string()).is_none());
    assert!(store.search(&String::new()).is_none());
}

#[test]
fn test_blob_save_is_idempotent() {
    let mut store = Store::new();
    let blob = Blob::new("content".to_string(), &mut store);
    assert_eq!(blob.get_hash(), calc_hash(&"content".to_string()));
    blob.save(&mut store);
    assert_eq!(store.objects.entries.len(), 1);
    let loaded = Blob::load(&blob.get_hash(), &store).unwrap();
    assert_eq!(loaded.data, "content");
    assert_eq!(loaded.hash, blob.hash);
    assert_eq!(Blob::load(&"none".to_string(), &store).unwrap_err(), Fatal::Missing);
}

#[test]
fn test_blob_restore() {
    let mut store = Store::new();
    let mut tree = WorkTree::new();
    let blob = Blob::new("content".to_string(), &mut store);
    let file = path("/work/dir/a.txt");
    Blob::restore(&blob.hash, &file, &store, &mut tree, at(5)).unwrap();
    let state = tree.file(&file).unwrap();
    assert_eq!(state.content, "content");
    assert_eq!(state.created, at(5));
    assert_eq!(state.modified, at(5));
    assert!(tree.dir_exists(&path("/work/dir")));
    let missing = Blob::restore(&"none".to_string(), &path("/work/b.txt"), &store, &mut tree, at(6));
    assert_eq!(missing, Err(Fatal::Missing));
    assert!(!tree.file_exists(&path("/work/b.txt")));
}

#[test]
fn commit_test_commit() {
    let mut store = Store::new();
    let index = Index::new(dirs());
    let mut commit = Commit::new(
        &index,
        vec!["123".to_string(), "456".to_string()],
        "test".to_string(),
        &mut store,
    )
    .unwrap();
    assert!(commit.hash.len() == 0);

    let hash = commit.save(&mut store).unwrap();
    assert!(commit.hash == hash, "commit hash not equal");

    let commit = Commit::load(&hash, &store).unwrap();
    assert!(commit.hash == hash);
    assert!(commit.hash.len() != 0);
    assert!(commit.parent.len() == 2);
    assert_eq!(commit.get_parent_hash(), vec!["123".to_string(), "456".to_string()]);
    assert_eq!(commit.get_message(), "test");
    assert_eq!(commit.get_author(), "mit");
    assert_eq!(commit.get_committer(), "mit-author");
    println!("{:?}", commit)
}

#[test]
fn test_commit_text_is_pretty_json() {
    let mut store = Store::new();
    let mut commit = Commit {
        hash: String::new(),
        author: "a".to_string(),
        committer: "c".to_string(),
        message: "m \"quoted\"".to_string(),
        parent: vec!["p".to_string()],
        tree: "t".to_string(),
    };
    let hash = commit.save(&mut store).unwrap();
    let text = store.load(&hash).unwrap();
    assert_eq!(
        text,
        "{\n  \"author\": \"a\",\n  \"committer\": \"c\",\n  \"message\": \"m \\\"quoted\\\"\",\n  \"parent\": [\n    \"p\"\n  ],\n  \"tree\": \"t\"\n}"
    );
    assert_eq!(hash, calc_hash(&text));
    let loaded = Commit::load(&hash, &store).unwrap();
    assert_eq!(loaded.message, "m \"quoted\"");
}

#[test]
fn test_commit_load_rejects_other_objects() {
    let mut store = Store::new();
    let blob = store.save(&"just text".to_string());
    assert_eq!(Commit::load(&blob, &store).unwrap_err(), Fatal::Malformed);
    let number = store.save(&"42".to_string());
    assert_eq!(Commit::load(&number, &store).unwrap_err(), Fatal::Malformed);
    assert_eq!(Commit::load(&"none".to_string(), &store).unwrap_err(), Fatal::Missing);
    let mut tree = Tree { hash: String::new(), entries: vec![] };
    let tree_hash = tree.save(&mut store).unwrap();
    assert_eq!(Commit::load(&tree_hash, &store).unwrap_err(), Fatal::Malformed);
    assert_eq!(Tree::load(&blob, &store).unwrap_err(), Fatal::Malformed);
    assert_eq!(Tree::load(&"none".to_string(), &store).unwrap_err(), Fatal::Missing);
}

#[test]
fn test_commit_save_refuses_a_taken_name() {
    let mut commit = Commit {
        hash: String::new(),
        author: "a".to_string(),
        committer: "c".to_string(),
        message: "m".to_string(),
        parent: vec![],
        tree: "t".to_string(),
    };
    let mut spare = Store::new();
    let hash = commit.clone().save(&mut spare).unwrap();
    let mut store = Store::new();
    store.put(hash.clone(), "something else".to_string());
    assert_eq!(commit.save(&mut store), Err(Fatal::Malformed));
    assert_eq!(commit.hash, "");
    assert_eq!(store.load(&hash).unwrap(), "something else");
}

#[test]
fn test_tree_save_refuses_a_taken_name() {
    let entry = TreeEntry {
        kind: EntryKind::Blob,
        mode: "100644".to_string(),
        object_hash: "h".to_string(),
        name: "a.txt".to_string(),
    };
    let mut spare = Store::new();
    let mut tree = Tree { hash: String::new(), entries: vec![entry.clone()] };
    let hash = tree.save(&mut spare).unwrap();
    assert_eq!(tree.hash, hash);
    // saving again changes nothing and succeeds
    assert_eq!(tree.save(&mut spare), Ok(hash.clone()));
    assert_eq!(spare.objects.entries.len(), 1);
    let mut store = Store::new();
    store.put(hash.clone(), "something else".to_string());
    let mut tree = Tree { hash: String::new(), entries: vec![entry] };
    assert_eq!(tree.save(&mut store), Err(Fatal::Malformed));
    assert_eq!(tree.hash, "");
    assert_eq!(store.load(&hash).unwrap(), "something else");
}

#[test]
fn test_json_render_and_parse() {
    let doc = Json::Object(vec![
        Member { name: "a".to_string(), value: Json::Text("x".to_string()) },
        Member {
            name: "b".to_string(),
            value: Json::Array(vec![Json::Text("y".to_string()), Json::Other]),
        },
    ]);
    let text = doc.render().unwrap();
    assert_eq!(text, "{\n  \"a\": \"x\",\n  \"b\": [\n    \"y\",\n    null\n  ]\n}");
    let back = Json::parse(&text).unwrap();
    assert!(same_json(&back, &doc));
    assert!(!same_json(&back, &Json::Other));
    assert!(Json::parse(&"{ not json".to_string()).is_none());
    let scalar = Json::parse(&"12.5".to_string()).unwrap();
    assert!(same_json(&scalar, &Json::Other));
}

#[test]
fn test_json_confirm() {
    let doc = Json::Array(vec![Json::Text("a".to_string())]);
    let same = Json::Array(vec![Json::Text("a".to_string())]);
    let other = Json::Array(vec![Json::Text("b".to_string())]);
    assert_eq!(doc.confirm("text".to_string(), Some(same)), Some("text".to_string()));
    assert_eq!(doc.confirm("text".to_string(), Some(other)), None);
    assert_eq!(doc.confirm("text".to_string(), None), None);
}

#[test]
fn test_json_render_refuses_what_does_not_read_back() {
    // Members that are not in the order in which they are read back.
    let doc = Json::Object(vec![
        Member { name: "b".to_string(), value: Json::Other },
        Member { name: "a".to_string(), value: Json::Other },
    ]);
    assert!(doc.render().is_none());
}

#[test]
fn test_new() {
    let mut store = Store::new();
    let mut tree = WorkTree::new();
    let mut index = Index::new(dirs());
    for test_file in ["b.txt", "mit_src/a.txt", "test/test.txt"] {
        stage(&mut index, &mut tree, &mut store, test_file);
        stage(&mut index, &mut tree, &mut store, test_file);
    }

    let tree = Tree::new(&index, &mut store).unwrap();
    assert!(tree.entries.len() == 3);
    assert!(tree.hash.len() != 0);
    assert_eq!(tree.entries[0].name, "b.txt");
    assert_eq!(tree.entries[0].kind, EntryKind::Blob);
    assert_eq!(tree.entries[0].mode, "100644");
    assert_eq!(tree.entries[0].object_hash, calc_hash(&"b.txt".to_string()));
    assert_eq!(tree.entries[1].name, "mit_src");
    assert_eq!(tree.entries[1].kind, EntryKind::Tree);
    assert_eq!(tree.entries[1].mode, "40000");
    assert_eq!(tree.entries[2].name, "test");
}

#[test]
fn tree_test_load() {
    let mut store = Store::new();
    let mut work = WorkTree::new();
    let mut index = Index::new(dirs());
    for test_file in ["b.txt", "mit_src/a.txt"] {
        stage(&mut index, &mut work, &mut store, test_file);
    }

    let tree = Tree::new(&index, &mut store).unwrap();
    let tree_hash = tree.get_hash();

    let loaded_tree = Tree::load(&tree_hash, &store).unwrap();
    assert!(loaded_tree.entries.len() == tree.entries.len());
    assert!(tree.entries[0].name == loaded_tree.entries[0].name);
    assert!(tree.entries[1].name == loaded_tree.entries[1].name);
    assert_eq!(loaded_tree.hash, tree_hash);
}

#[test]
fn test_get_recursive_file_entries() {
    let mut store = Store::new();
    let mut work = WorkTree::new();
    let mut index = Index::new(dirs());
    let mut test_files = vec![path("b.txt"), path("mit_src/a.txt")];
    for test_file in ["b.txt", "mit_src/a.txt"] {
        stage(&mut index, &mut work, &mut store, test_file);
    }

    let tree = Tree::new(&index, &mut store).unwrap();
    let loaded_tree = Tree::load(&tree.get_hash(), &store).unwrap();
    let mut files = loaded_tree.get_recursive_file_entries(&store).unwrap();
    files.sort_by(|a, b| a.parts.cmp(&b.parts));
    test_files.sort_by(|a, b| a.parts.cmp(&b.parts));
    assert_eq!(files.len(), test_files.len());
    assert_eq!(files[0], test_files[0]);
    assert_eq!(files[1], test_files[1]);
}

#[test]
fn test_get_recursive_blobs() {
    let mut store = Store::new();
    let mut work = WorkTree::new();
    let mut index = Index::new(dirs());
    let test_files = ["b.txt", "mit_src/a.txt"];
    let mut test_blobs = vec![];
    for test_file in test_files {
        test_blobs.push(stage(&mut index, &mut work, &mut store, test_file));
    }

    let tree = Tree::new(&index, &mut store).unwrap();
    let loaded_tree = Tree::load(&tree.get_hash(), &store).unwrap();
    let blobs = loaded_tree.get_recursive_blobs(&store).unwrap();
    assert!(blobs.len() == test_files.len());
    for (file, blob) in test_files.iter().zip(test_blobs.iter()) {
        assert!(blobs.iter().any(|b| b.path == path(file) && b.hash == blob.get_hash()));
    }
}

#[test]
fn test_tree_is_the_same_when_built_again() {
    let mut store = Store::new();
    let mut work = WorkTree::new();
    let mut index = Index::new(dirs());
    for test_file in ["b.txt", "d/a.txt", "d/e/f.txt", "d/g.txt"] {
        stage(&mut index, &mut work, &mut store, test_file);
    }
    let first = Tree::new(&index, &mut store).unwrap();
    let objects = store.objects.entries.len();
    let first_blobs = first.get_recursive_blobs(&store).unwrap();
    let second = Tree::new(&index, &mut store).unwrap();
    let second_blobs = second.get_recursive_blobs(&store).unwrap();
    assert_eq!(first.hash, second.hash);
    assert_eq!(store.objects.entries.len(), objects);
    assert_eq!(first_blobs.len(), 4);
    assert_eq!(first_blobs.len(), second_blobs.len());
    for (a, b) in first_blobs.iter().zip(second_blobs.iter()) {
        assert_eq!(a.path, b.path);
        assert_eq!(a.hash, b.hash);
    }
    let paths: Vec<Path> = first_blobs.into_iter().map(|b| b.path).collect();
    assert_eq!(paths, vec![path("b.txt"), path("d/a.txt"), path("d/e/f.txt"), path("d/g.txt")]);
}

#[test]
fn test_flatten_rejects_dot_names_and_circles() {
    let mut store = Store::new();
    let mut bad = Tree {
        hash: String::new(),
        entries: vec![TreeEntry {
            kind: EntryKind::Blob,
            mode: "100644".to_string(),
            object_hash: "h".to_string(),
            name: "..".to_string(),
        }],
    };
    bad.save(&mut store).unwrap();
    assert_eq!(bad.get_recursive_blobs(&store).unwrap_err(), Fatal::Malformed);

    // A tree that is stored under a name it refers to itself.
    let text = "{\n  \"entries\": [\n    {\n      \"filemode\": [\n        \"tree\",\n        \"40000\"\n      ],\n      \"name\": \"loop\",\n      \"object_hash\": \"self\"\n    }\n  ]\n}";
    store.put("self".to_string(), text.to_string());
    let circle = Tree::load(&"self".to_string(), &store).unwrap();
    assert_eq!(circle.get_recursive_blobs(&store).unwrap_err(), Fatal::Cyclic);

    let dangling = Tree {
        hash: String::new(),
        entries: vec![TreeEntry {
            kind: EntryKind::Tree,
            mode: "40000".to_string(),
            object_hash: "nowhere".to_string(),
            name: "d".to_string(),
        }],
    };
    assert_eq!(dangling.get_recursive_blobs(&store).unwrap_err(), Fatal::Missing);
}

#[test]
fn test_check_object_type() {
    let mut store = Store::new();
    let mut work = WorkTree::new();
    let mut index = Index::new(dirs());
    assert_eq!(check_object_type(&"123".to_string(), &store), ObjectType::Invalid);
    let blob = stage(&mut index, &mut work, &mut store, "test.txt");
    assert_eq!(check_object_type(&blob.get_hash(), &store), ObjectType::Blob);
    let mut commit = Commit::new(&index, vec![], "test".to_string(), &mut store).unwrap();
    assert_eq!(check_object_type(&commit.get_tree_hash(), &store), ObjectType::Tree);
    commit.save(&mut store).unwrap();
    assert_eq!(check_object_type(&commit.get_hash(), &store), ObjectType::Commit);
    assert!(is_typeof_commit(&commit.get_hash(), &store));
    assert!(!is_typeof_commit(&commit.get_tree_hash(), &store));
    assert_eq!(commit.get_tree(&store).unwrap().hash, commit.get_tree_hash());
}

#[test]
fn test_string() {
    let mut s = String::from("Hello");
    s.push_str(", world!");
    s += "2";
    s.push('!');
    println!("{}", s);
}
