use repoyank::paths::{PathPart, SplitPath};
use repoyank::tree_builder::{build_tree_labels, labels_for_entries, TreeEntry};

fn listing(paths: &[(&str, bool)]) -> Vec<(String, bool)> {
    paths.iter().map(|(p, d)| (p.to_string(), *d)).collect()
}

fn named(names: &[&str]) -> SplitPath {
    SplitPath { parts: names.iter().map(|n| PathPart::Name(n.to_string())).collect() }
}

#[test]
fn labels_of_small_tree() {
    let paths = listing(&[
        ("./", true),
        ("./src", true),
        ("./src/a.txt", false),
        ("./src/b.txt", false),
        ("./docs", true),
    ]);
    let labels = build_tree_labels(&paths, ".");
    assert_eq!(labels, vec!["./", "├─ src/", "│  ├─ a.txt", "│  └─ b.txt", "└─ docs/"]);
}

#[test]
fn labels_are_repeatable() {
    let paths = listing(&[
        ("/r", true),
        ("/r/a", true),
        ("/r/a/x.rs", false),
        ("/r/b", true),
        ("/r/b/c", true),
        ("/r/b/c/y.rs", false),
        ("/r/z.md", false),
    ]);
    let first = build_tree_labels(&paths, "/r");
    let second = build_tree_labels(&paths, "/r");
    assert_eq!(first, second);
    assert_eq!(
        first,
        vec![
            "./",
            "├─ a/",
            "│  └─ x.rs",
            "├─ b/",
            "│  └─ c/",
            "│     └─ y.rs",
            "└─ z.md",
        ]
    );
}

#[test]
fn corner_marks_only_the_last_sibling() {
    let paths = listing(&[
        ("/r", true),
        ("/r/a", false),
        ("/r/b", false),
        ("/r/c", false),
    ]);
    let labels = build_tree_labels(&paths, "/r");
    assert_eq!(labels, vec!["./", "├─ a", "├─ b", "└─ c"]);
    let corners = labels.iter().filter(|l| l.contains("└─")).count();
    assert_eq!(corners, 1);
}

#[test]
fn entry_without_parent_hangs_under_base() {
    let paths = listing(&[("/r", true), ("/r/a", true), ("/r/lost/deep.txt", false)]);
    let labels = build_tree_labels(&paths, "/r");
    assert_eq!(labels, vec!["./", "├─ a/", "└─ deep.txt"]);
}

#[test]
fn children_of_entry_without_parent_are_drawn_under_it() {
    let paths = listing(&[
        ("/r", true),
        ("/r/x/y", true),
        ("/r/x/y/z.txt", false),
        ("/r/w.txt", false),
    ]);
    let labels = build_tree_labels(&paths, "/r");
    assert_eq!(labels, vec!["./", "├─ y/", "│  └─ z.txt", "└─ w.txt"]);
}

#[test]
fn list_without_base_entry() {
    let paths = listing(&[("/r/a", true), ("/r/a/f", false), ("/r/b", false)]);
    let labels = build_tree_labels(&paths, "/r");
    assert_eq!(labels, vec!["├─ a/", "│  └─ f", "└─ b"]);
}

#[test]
fn empty_list_gives_no_labels() {
    let labels = build_tree_labels(&[], ".");
    assert!(labels.is_empty());
}

#[test]
fn labels_from_hand_made_entries() {
    let entries = vec![
        TreeEntry { rel: SplitPath { parts: vec![] }, is_dir: true },
        TreeEntry { rel: named(&["src"]), is_dir: true },
        TreeEntry { rel: named(&["src", "lib.rs"]), is_dir: false },
        TreeEntry { rel: SplitPath { parts: vec![PathPart::Parent] }, is_dir: true },
    ];
    let labels = labels_for_entries(&entries);
    assert_eq!(labels, vec!["./", "├─ src/", "│  └─ lib.rs", "└─ ./"]);
}

#[test]
fn split_path_reads_components() {
    let split = SplitPath::new("./src//lib.rs");
    assert_eq!(split.parts.len(), 3);
    assert!(matches!(split.parts[0], PathPart::Current));
    assert!(matches!(&split.parts[1], PathPart::Name(n) if n == "src"));
    assert!(matches!(&split.parts[2], PathPart::Name(n) if n == "lib.rs"));
    assert!(SplitPath::new("").parts.is_empty());
    assert!(matches!(SplitPath::new("/").parts[0], PathPart::Root));
}
