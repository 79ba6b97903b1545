use qop::hash::{content_hash, is_modified, same_text, text_hash};
use qop::ignore::{components, has_prefix, list_leaves_out, scoped, IgnoreStack, QopFile};
use qop::index::{find_path, Index, IndexEntry};
use qop::snapshot::{child_path, plan_directory, store_path, DirEntry};

fn strings(items: &[&str]) -> Vec<String> {
    items.iter().map(|s| s.to_string()).collect()
}

#[test]
fn content_hash_of_known_inputs() {
    assert_eq!(
        content_hash(b""),
        "e3b0c44298fc1c149afbf4c8996fb92427ae41e4649b934ca495991b7852b855"
    );
    assert_eq!(
        content_hash(b"abc"),
        "ba7816bf8f01cfea414140de5dae2223b00361a396177a9cb410ff61f20015ad"
    );
}

#[test]
fn text_hash_is_the_hash_of_the_bytes() {
    assert_eq!(text_hash("abc"), content_hash(b"abc"));
    assert_eq!(text_hash("päivää"), content_hash("päivää".as_bytes()));
    assert_eq!(text_hash("abc").len(), 64);
}

#[test]
fn is_modified_compares_hashes() {
    let stored = text_hash("one\n");
    assert!(!is_modified("one\n", &stored));
    assert!(is_modified("one", &stored));
    assert!(is_modified("one\n", "not a hash"));
}

#[test]
fn same_text_compares_characters() {
    assert!(same_text("", ""));
    assert!(same_text("abc", "abc"));
    assert!(!same_text("abc", "abd"));
    assert!(!same_text("abc", "ab"));
    assert!(!same_text("é", "e"));
}

#[test]
fn components_are_the_parts_between_slashes() {
    assert_eq!(components("./a/b"), strings(&["a", "b"]));
    assert_eq!(components("a/b"), strings(&["a", "b"]));
    assert_eq!(components("a//b/"), strings(&["a", "b"]));
    assert_eq!(components("a/./b/."), strings(&["a", "b"]));
    assert_eq!(components("."), Vec::<String>::new());
    assert_eq!(components(""), Vec::<String>::new());
    assert_eq!(components("../a"), strings(&["..", "a"]));
    assert_eq!(components("a/.b/c.d"), strings(&["a", ".b", "c.d"]));
}

#[test]
fn components_of_a_rooted_path_begin_at_the_root() {
    assert_eq!(components("/a/b"), strings(&["/", "a", "b"]));
    assert_eq!(components("/"), strings(&["/"]));
    assert_eq!(components("//a"), strings(&["/", "a"]));
}

#[test]
fn scoped_reads_a_pattern_from_its_directory() {
    let dir = components("./src");
    assert_eq!(scoped(&dir, "target"), strings(&["src", "target"]));
    assert_eq!(scoped(&dir, "./a/b/"), strings(&["src", "a", "b"]));
    assert_eq!(scoped(&dir, ""), strings(&["src"]));
    assert_eq!(scoped(&dir, "/abs/x"), strings(&["/", "abs", "x"]));
    assert_eq!(scoped(&components("."), "target"), strings(&["target"]));
}

#[test]
fn has_prefix_goes_by_whole_components() {
    let target = components("./target");
    assert!(has_prefix(&components("./target"), &target));
    assert!(has_prefix(&components("./target/debug/x"), &target));
    assert!(!has_prefix(&components("./target2"), &target));
    assert!(!has_prefix(&components("./tar"), &target));
    assert!(!has_prefix(&components("./src/target"), &target));
    assert!(has_prefix(&components("./anything"), &Vec::new()));
}

#[test]
fn list_leaves_out_what_some_pattern_names() {
    let manifest = QopFile { ignore: strings(&["target", ".git", "docs/build"]) };
    let list = manifest.patterns_in(&components("."));
    assert_eq!(list, vec![strings(&["target"]), strings(&[".git"]), strings(&["docs", "build"])]);
    assert!(list_leaves_out(&list, &components("./.git/config")));
    assert!(list_leaves_out(&list, &components("./docs/build")));
    assert!(!list_leaves_out(&list, &components("./docs/src")));
    assert!(!list_leaves_out(&Vec::new(), &components("./target")));
}

#[test]
fn patterns_are_read_from_the_manifests_directory() {
    let manifest = QopFile { ignore: strings(&["gen"]) };
    let list = manifest.patterns_in(&components("./src"));
    assert!(list_leaves_out(&list, &components("./src/gen/x.rs")));
    assert!(!list_leaves_out(&list, &components("./gen/x.rs")));
}

#[test]
fn ignore_stack_composes_down_the_tree() {
    let mut stack = IgnoreStack::new();
    assert!(!stack.excludes(&components("./target")));
    stack.enter(QopFile { ignore: strings(&["target"]) }.patterns_in(&components(".")));
    stack.enter(QopFile { ignore: strings(&["gen"]) }.patterns_in(&components("./src")));
    stack.enter(Vec::new());
    // An ancestor's pattern holds at any depth, whatever the lists between.
    assert!(stack.excludes(&components("./target/a/b/c")));
    assert!(stack.excludes(&components("./src/gen")));
    assert!(!stack.excludes(&components("./src/main.rs")));
    stack.leave();
    stack.leave();
    assert!(stack.excludes(&components("./target")));
    assert!(!stack.excludes(&components("./src/gen")));
    stack.leave();
    assert!(!stack.excludes(&components("./target")));
    stack.leave();
    assert!(stack.lists.is_empty());
}

#[test]
fn child_path_joins_with_one_slash() {
    assert_eq!(child_path(".", "a.txt"), "./a.txt");
    assert_eq!(child_path("./src", "main.rs"), "./src/main.rs");
    assert_eq!(child_path("./src/", "main.rs"), "./src/main.rs");
    assert_eq!(child_path("", "a"), "a");
    assert_eq!(child_path("./src", "/abs"), "/abs");
    assert_eq!(child_path("./src", ""), "./src/");
}

#[test]
fn store_path_lies_in_the_store() {
    assert_eq!(store_path("./a/b.txt"), "./.qop/store/./a/b.txt");
    assert_eq!(store_path("a"), "./.qop/store/a");
}

#[test]
fn plan_directory_leaves_out_what_is_ignored() {
    let mut stack = IgnoreStack::new();
    stack.enter(QopFile { ignore: strings(&["target", ".qop"]) }.patterns_in(&components(".")));
    let entries = vec![
        DirEntry { name: "src".to_string(), is_dir: true },
        DirEntry { name: "target".to_string(), is_dir: true },
        DirEntry { name: "target.txt".to_string(), is_dir: false },
        DirEntry { name: ".qop".to_string(), is_dir: true },
        DirEntry { name: "a.txt".to_string(), is_dir: false },
    ];
    let visits = plan_directory(".", &entries, &stack);
    let seen: Vec<(&str, bool)> = visits.iter().map(|v| (v.path.as_str(), v.is_dir)).collect();
    assert_eq!(seen, vec![("./src", true), ("./target.txt", false), ("./a.txt", false)]);
}

#[test]
fn plan_directory_below_an_ignored_directory_is_empty() {
    let mut stack = IgnoreStack::new();
    stack.enter(QopFile { ignore: strings(&["target"]) }.patterns_in(&components(".")));
    stack.enter(Vec::new());
    stack.enter(QopFile { ignore: strings(&["other"]) }.patterns_in(&components("./target/debug")));
    let entries = vec![
        DirEntry { name: "x".to_string(), is_dir: false },
        DirEntry { name: "y".to_string(), is_dir: true },
    ];
    assert!(plan_directory("./target/debug", &entries, &stack).is_empty());
}

#[test]
fn plan_directory_without_patterns_takes_everything() {
    let entries = vec![
        DirEntry { name: "b".to_string(), is_dir: false },
        DirEntry { name: "a".to_string(), is_dir: true },
    ];
    let visits = plan_directory("./d", &entries, &IgnoreStack::new());
    let seen: Vec<(&str, bool)> = visits.iter().map(|v| (v.path.as_str(), v.is_dir)).collect();
    assert_eq!(seen, vec![("./d/b", false), ("./d/a", true)]);
}

#[test]
fn new_index_is_empty() {
    let index = Index::new();
    assert!(index.latest.is_none());
    assert!(index.entries.is_empty());
    assert!(index.files.is_empty());
    assert!(index.hash_of("./a").is_none());
}

#[test]
fn index_records_and_replaces() {
    let mut index = Index::new();
    index.record("./a".to_string(), "1".to_string());
    index.record("./b".to_string(), "2".to_string());
    index.record("./a".to_string(), "3".to_string());
    assert_eq!(index.files, vec![("./a".to_string(), "3".to_string()), ("./b".to_string(), "2".to_string())]);
    assert_eq!(index.hash_of("./a"), Some(&"3".to_string()));
    assert_eq!(index.hash_of("./b"), Some(&"2".to_string()));
    assert_eq!(index.hash_of("./c"), None);
    assert_eq!(find_path(&index.files, "./b"), Some(1));
    assert_eq!(find_path(&index.files, "./c"), None);
}

#[test]
fn index_record_file_records_the_hash_of_the_content() {
    let mut index = Index::new();
    index.record_file("./a".to_string(), b"abc");
    assert_eq!(index.hash_of("./a"), Some(&content_hash(b"abc")));
}

#[test]
fn snapshot_twice_gives_the_same_files() {
    let seen: Vec<(&str, &[u8])> = vec![("./a", b"one"), ("./d/b", b"two"), ("./c", b"")];
    let mut first = Index::new();
    for (path, content) in seen.iter() {
        first.record_file(path.to_string(), content);
    }
    // The second walk lists the directories in another order.
    let mut second = Index::new();
    for (path, content) in seen.iter().rev() {
        second.record_file(path.to_string(), content);
    }
    let mut a = first.files.clone();
    let mut b = second.files.clone();
    a.sort();
    b.sort();
    assert_eq!(a, b);
    for (path, _) in seen.iter() {
        assert_eq!(first.hash_of(path), second.hash_of(path));
    }
}

#[test]
fn index_entry_holds_its_instant() {
    let entry = IndexEntry { instant: 1_700_000_000 };
    assert_eq!(entry.instant, 1_700_000_000);
}

#[test]
fn index_snapshot_records_each_file_seen() {
    let seen = vec![
        ("./a".to_string(), b"one".to_vec()),
        ("./d/b".to_string(), b"two".to_vec()),
        ("./c".to_string(), Vec::new()),
    ];
    let index = Index::snapshot(&seen);
    assert!(index.latest.is_none());
    assert!(index.entries.is_empty());
    assert_eq!(
        index.files,
        vec![
            ("./a".to_string(), content_hash(b"one")),
            ("./d/b".to_string(), content_hash(b"two")),
            ("./c".to_string(), content_hash(b"")),
        ]
    );
}

#[test]
fn index_snapshot_of_nothing_is_the_new_index() {
    let index = Index::snapshot(&Vec::new());
    assert!(index.latest.is_none());
    assert!(index.entries.is_empty());
    assert!(index.files.is_empty());
}

#[test]
fn index_snapshot_keeps_what_it_saw_last_of_a_path() {
    let seen = vec![
        ("./a".to_string(), b"one".to_vec()),
        ("./b".to_string(), b"two".to_vec()),
        ("./a".to_string(), b"three".to_vec()),
    ];
    let index = Index::snapshot(&seen);
    assert_eq!(
        index.files,
        vec![("./a".to_string(), content_hash(b"three")), ("./b".to_string(), content_hash(b"two"))]
    );
}

#[test]
fn index_snapshot_in_another_order_maps_the_same() {
    let seen = vec![
        ("./a".to_string(), b"one".to_vec()),
        ("./d/b".to_string(), b"two".to_vec()),
        ("./c".to_string(), Vec::new()),
    ];
    let mut turned = seen.clone();
    turned.reverse();
    let first = Index::snapshot(&seen);
    let second = Index::snapshot(&turned);
    assert_eq!(first.files.len(), second.files.len());
    for (path, hash) in first.files.iter() {
        assert_eq!(second.hash_of(path), Some(hash));
    }
}
