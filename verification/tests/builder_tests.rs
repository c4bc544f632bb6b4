use arbor::config::WalkOptions;
use arbor::node::{Kind, Node};
use arbor::walk::{build_tree, keep_entry, Entry};

fn dir_entry(segs: &[&str]) -> Entry {
    Entry {
        path: segs.iter().map(|s| s.to_string()).collect(),
        kind: Kind::Dir,
        size: 0,
    }
}

fn file_entry(segs: &[&str], size: u64) -> Entry {
    Entry {
        path: segs.iter().map(|s| s.to_string()).collect(),
        kind: Kind::File,
        size,
    }
}

fn opts(include_hidden: bool, depth: Option<usize>) -> WalkOptions {
    WalkOptions { follow_gitignore: true, include_hidden, depth }
}

fn find_child<'a>(node: &'a Node, name: &str) -> Option<&'a Node> {
    let children = node.children.as_deref().unwrap_or(&[]);
    children.iter().find(|n| n.name == name)
}

fn top_names(node: &Node) -> Vec<String> {
    node.children
        .as_deref()
        .unwrap_or(&[])
        .iter()
        .map(|n| n.name.clone())
        .collect()
}

#[test]
fn builds_simple_tree_in_discovery_order() {
    let entries = vec![
        dir_entry(&["src"]),
        file_entry(&["src", "main.x"], 1),
        file_entry(&["src", "lib.x"], 2),
        file_entry(&["README.md"], 3),
    ];
    let tree = build_tree("root", &entries, &opts(false, None));
    assert_eq!(tree.name, "root");
    assert_eq!(tree.meta.kind, Kind::Dir);
    assert_eq!(top_names(&tree), vec!["src".to_string(), "README.md".to_string()]);
    let src = find_child(&tree, "src").unwrap();
    assert_eq!(top_names(src), vec!["main.x".to_string(), "lib.x".to_string()]);
    let main = find_child(src, "main.x").unwrap();
    assert_eq!(main.meta.kind, Kind::File);
    assert_eq!(main.meta.size, Some(1));
}

#[test]
fn creates_missing_ancestors_for_out_of_order_entries() {
    // the only entry is a deep file: both ancestor directories must
    // still appear, in the right nesting
    let entries = vec![file_entry(&["dir", "sub", "file.txt"], 5)];
    let tree = build_tree("walk", &entries, &opts(false, None));
    let dir = find_child(&tree, "dir").expect("dir");
    let sub = find_child(dir, "sub").expect("sub under dir");
    let file = find_child(sub, "file.txt").expect("file.txt must exist under dir/sub");
    assert_eq!(file.meta.size, Some(5));
}

#[test]
fn ancestor_created_once_even_when_delivered_late() {
    let entries = vec![
        file_entry(&["a", "one.txt"], 1),
        dir_entry(&["a"]),
        file_entry(&["a", "two.txt"], 2),
    ];
    let tree = build_tree("root", &entries, &opts(false, None));
    let names = top_names(&tree);
    assert_eq!(names, vec!["a".to_string()]);
    let a = find_child(&tree, "a").unwrap();
    assert_eq!(top_names(a), vec!["one.txt".to_string(), "two.txt".to_string()]);
}

#[test]
fn depth_bound_prunes_deeper_entries() {
    // depth bound 1: level1 appears under root, level2 does not
    let entries = vec![
        dir_entry(&["level1"]),
        dir_entry(&["level1", "level2"]),
        file_entry(&["level1", "level2", "file.txt"], 1),
    ];
    let tree = build_tree("root", &entries, &opts(false, Some(1)));
    let level1 = find_child(&tree, "level1").expect("level1 kept");
    assert_eq!(level1.meta.kind, Kind::Dir);
    assert!(
        find_child(level1, "level2").is_none(),
        "level2 should be skipped due to depth limit"
    );
}

#[test]
fn surviving_ancestor_kept_even_with_no_children_shown() {
    // at depth bound 2 the directory a/b survives, with its deeper
    // contents pruned away
    let entries = vec![
        dir_entry(&["a", "b"]),
        file_entry(&["a", "b", "c.txt"], 1),
    ];
    let tree = build_tree("root", &entries, &opts(false, Some(2)));
    let a = find_child(&tree, "a").expect("a is created as an ancestor");
    let b = find_child(a, "b").expect("b survives at the bound");
    assert!(b.children.as_deref().unwrap_or(&[]).is_empty());
}

#[test]
fn no_depth_bound_keeps_everything() {
    let entries = vec![
        dir_entry(&["level1"]),
        dir_entry(&["level1", "level2"]),
        file_entry(&["level1", "level2", "file.txt"], 1),
    ];
    let tree = build_tree("root", &entries, &opts(false, None));
    let level1 = find_child(&tree, "level1").unwrap();
    let level2 = find_child(level1, "level2").unwrap();
    assert!(find_child(level2, "file.txt").is_some());
}

#[test]
fn vcs_dir_is_leaf_when_hidden_shown() {
    let entries = vec![
        dir_entry(&[".git"]),
        dir_entry(&[".git", "objects"]),
        file_entry(&[".git", "HEAD"], 9),
        file_entry(&["kept.txt"], 1),
    ];
    let tree = build_tree("root", &entries, &opts(true, None));
    let git = find_child(&tree, ".git").expect(".git should exist");
    assert!(
        git.children.as_deref().unwrap_or(&[]).is_empty(),
        ".git must stay a leaf"
    );
    assert!(find_child(&tree, "kept.txt").is_some());
}

#[test]
fn hidden_entries_dropped_unless_requested() {
    let entries = vec![
        file_entry(&[".hidden"], 1),
        file_entry(&["shown.txt"], 2),
    ];
    let tree = build_tree("root", &entries, &opts(false, None));
    assert!(find_child(&tree, ".hidden").is_none());
    assert!(find_child(&tree, "shown.txt").is_some());

    let tree2 = build_tree("root", &entries, &opts(true, None));
    assert!(find_child(&tree2, ".hidden").is_some());
}

#[test]
fn keep_entry_applies_each_rule() {
    let o = opts(false, Some(2));
    assert!(keep_entry(&file_entry(&["a.txt"], 1), &o));
    assert!(keep_entry(&file_entry(&["a", "b.txt"], 1), &o));
    assert!(!keep_entry(&file_entry(&["a", "b", "c.txt"], 1), &o), "too deep");
    assert!(!keep_entry(&file_entry(&[".h"], 1), &o), "hidden");
    assert!(!keep_entry(&file_entry(&[".git", "HEAD"], 1), &opts(true, None)), "inside .git");
    assert!(keep_entry(&dir_entry(&[".git"]), &opts(true, None)), ".git itself survives");
    let empty = Entry { path: Vec::new(), kind: Kind::File, size: 0 };
    assert!(!keep_entry(&empty, &o), "nameless entry");
}

#[test]
fn repeated_directory_entry_creates_one_node() {
    let entries = vec![
        dir_entry(&["a"]),
        dir_entry(&["a"]),
        file_entry(&["a", "x.txt"], 1),
    ];
    let tree = build_tree("root", &entries, &opts(false, None));
    assert_eq!(top_names(&tree), vec!["a".to_string()]);
    let a = find_child(&tree, "a").unwrap();
    assert_eq!(top_names(a), vec!["x.txt".to_string()]);
}

#[test]
fn built_tree_carries_no_annotation() {
    let entries = vec![dir_entry(&["d"]), file_entry(&["d", "f.txt"], 1)];
    let tree = build_tree("root", &entries, &opts(false, None));
    assert!(tree.meta.git.is_none());
    let d = find_child(&tree, "d").unwrap();
    assert!(d.meta.git.is_none());
    let f = find_child(d, "f.txt").unwrap();
    assert!(f.meta.git.is_none());
}

#[test]
fn empty_entry_list_yields_bare_root() {
    let entries: Vec<Entry> = Vec::new();
    let tree = build_tree("root", &entries, &opts(false, None));
    assert_eq!(tree.name, "root");
    assert_eq!(tree.meta.kind, Kind::Dir);
    assert!(tree.children.as_deref().unwrap_or(&[]).is_empty());
    let line = arbor::count::render(&tree);
    let expected = format!("\u{f115} Directories: {} | \u{f016} Files: {}\n", 1, 0);
    assert_eq!(line, expected);
}

#[test]
fn built_tree_renders_like_the_example() {
    let entries = vec![
        dir_entry(&["src"]),
        file_entry(&["src", "main.x"], 1),
        file_entry(&["src", "lib.x"], 1),
        file_entry(&["README.md"], 1),
    ];
    let tree = build_tree("root", &entries, &opts(false, None));
    let o = arbor::config::RenderOptions {
        color: arbor::args::ColorMode::Never,
        icons: false,
        git: false,
    };
    let got = arbor::text::render(&tree, &o);
    let expected = "\
root/
├── src/
│   ├── main.x
│   └── lib.x
└── README.md
";
    assert_eq!(got, expected);
}
