use arbor::count::render;
use arbor::node::Node;

#[test]
fn counts_on_empty_dir() {
    let root = Node::new_dir("root", vec![]);
    let out = render(&root);
    let expected = format!("\u{f115} Directories: {} | \u{f016} Files: {}\n", 1, 0);
    assert_eq!(out, expected);
}

#[test]
fn counts_on_mixed_tree() {
    // root
    // ├── a.txt
    // ├── b.txt
    // └── sub/
    //     └── c.txt
    let sub = Node::new_dir("sub", vec![Node::new_file("c.txt", 3)]);
    let root = Node::new_dir(
        "root",
        vec![Node::new_file("a.txt", 1), Node::new_file("b.txt", 2), sub],
    );
    let out = render(&root);
    let expected = format!("\u{f115} Directories: {} | \u{f016} Files: {}\n", 2, 3);
    assert_eq!(out, expected);
}

#[test]
fn counts_when_root_is_file() {
    let root = Node::new_file("lonely.txt", 1);
    let out = render(&root);
    let expected = format!("\u{f115} Directories: {} | \u{f016} Files: {}\n", 0, 1);
    assert_eq!(out, expected);
}

#[test]
fn walk_accumulates_into_counters() {
    let root = Node::new_dir("root", vec![Node::new_file("a", 1)]);
    let mut files: usize = 0;
    let mut dirs: usize = 0;
    arbor::count::walk(&root, &mut files, &mut dirs);
    arbor::count::walk(&root, &mut files, &mut dirs);
    assert_eq!(files, 2);
    assert_eq!(dirs, 2);
}
