use arbor::json::render;
use arbor::node::{GitState, Node};

#[test]
fn render_single_file() {
    let root = Node::new_file("file.txt", 42);
    let out = render(&root);

    assert!(out.contains("\"name\": \"file.txt\""));
    assert!(out.contains("\"kind\": \"file\""));
    assert!(out.contains("\"size\": 42"));
    assert!(!out.contains("\"git\""));
    assert!(!out.contains("\"children\""));
}

#[test]
fn render_directory_with_children() {
    let root = Node::new_dir(
        "root",
        vec![
            Node::new_file("a.txt", 1),
            Node::new_dir("src", vec![Node::new_file("main.rs", 10)]),
        ],
    );

    let out = render(&root);

    assert!(out.contains("\"name\": \"root\""));
    assert!(out.contains("\"name\": \"a.txt\""));
    assert!(out.contains("\"name\": \"src\""));
    assert!(out.contains("\"name\": \"main.rs\""));
    assert!(out.contains("\"kind\": \"dir\""));
}

#[test]
fn render_with_git_state() {
    let mut file = Node::new_file("foo.rs", 0);
    file.meta.git = Some(GitState::Modified);
    let out = render(&file);

    assert!(out.contains("\"git\": \"modified\""));
}

#[test]
fn render_nested_empty_children_skipped() {
    let root = Node::new_dir("root", vec![Node::new_dir("empty", vec![])]);
    let out = render(&root);

    assert!(out.contains("\"name\": \"empty\""));
    assert!(!out.contains("\"children\": []"));
}

#[test]
fn render_valid_json_output() {
    let root = Node::new_dir("r", vec![Node::new_file("a", 1)]);
    let text = render(&root);
    let parsed: serde_json::Value = serde_json::from_str(&text).unwrap();
    assert_eq!(parsed["name"], "r");
    assert_eq!(parsed["children"][0]["name"], "a");
    assert_eq!(parsed["children"][0]["kind"], "file");
}

#[test]
fn parse_back_reproduces_every_node() {
    let mut annotated = Node::new_file("b.rs", 7);
    annotated.meta.git = Some(GitState::Staged);
    let root = Node::new_dir(
        "top",
        vec![
            Node::new_file("a.txt", 3),
            Node::new_dir("sub", vec![annotated, Node::new_dir("leafdir", vec![])]),
        ],
    );
    let text = render(&root);
    let parsed: serde_json::Value = serde_json::from_str(&text).unwrap();

    assert_eq!(parsed["name"], "top");
    assert_eq!(parsed["kind"], "dir");
    assert!(parsed.get("size").is_none());
    let kids = parsed["children"].as_array().unwrap();
    assert_eq!(kids.len(), 2);
    assert_eq!(kids[0]["name"], "a.txt");
    assert_eq!(kids[0]["kind"], "file");
    assert_eq!(kids[0]["size"], 3);
    assert_eq!(kids[1]["name"], "sub");
    assert_eq!(kids[1]["kind"], "dir");
    let sub_kids = kids[1]["children"].as_array().unwrap();
    assert_eq!(sub_kids.len(), 2);
    assert_eq!(sub_kids[0]["name"], "b.rs");
    assert_eq!(sub_kids[0]["size"], 7);
    assert_eq!(sub_kids[0]["git"], "staged");
    assert_eq!(sub_kids[1]["name"], "leafdir");
    assert!(sub_kids[1].get("children").is_none());
}

#[test]
fn render_escapes_special_characters() {
    let root = Node::new_file("a\"b\\c\nd\tz", 1);
    let text = render(&root);
    assert!(text.contains("a\\\"b\\\\c\\nd\\tz"));
    let parsed: serde_json::Value = serde_json::from_str(&text).unwrap();
    assert_eq!(parsed["name"], "a\"b\\c\nd\tz");
}

#[test]
fn render_escapes_control_characters_as_hex() {
    let root = Node::new_file("a\u{1}b", 1);
    let text = render(&root);
    assert!(text.contains("a\\u0001b"));
    let parsed: serde_json::Value = serde_json::from_str(&text).unwrap();
    assert_eq!(parsed["name"], "a\u{1}b");
}
