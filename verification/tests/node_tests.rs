use arbor::node::{Kind, Node};

#[test]
fn test_new_file() {
    let node = Node::new_file("file.txt", 42);
    assert_eq!(node.name, "file.txt");
    assert_eq!(node.meta.kind, Kind::File);
    assert_eq!(node.meta.size, Some(42));
    assert!(node.children.is_none());
}

#[test]
fn test_new_dir() {
    let child = Node::new_file("main.rs", 100);
    let dir = Node::new_dir("src", vec![child.clone()]);
    assert_eq!(dir.name, "src");
    assert_eq!(dir.meta.kind, Kind::Dir);
    assert!(dir.meta.size.is_none());
    assert_eq!(dir.children.unwrap(), vec![child]);
}
