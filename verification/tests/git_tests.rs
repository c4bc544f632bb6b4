use arbor::git::{
    branch_display_name, branch_line, classify_status, enrich_with_git, GitMap, RawStatus,
};
use arbor::node::{GitState, Node};

fn raw() -> RawStatus {
    RawStatus {
        wt_modified: false,
        wt_new: false,
        wt_deleted: false,
        index_new: false,
        index_modified: false,
        index_renamed: false,
        ignored: false,
    }
}

#[test]
fn staged_and_then_modified_reports_modified() {
    // staged in the index and modified again in the working tree
    let mut s = raw();
    s.index_modified = true;
    s.wt_modified = true;
    assert_eq!(classify_status(s), GitState::Modified);

    let mut s2 = raw();
    s2.index_new = true;
    s2.wt_modified = true;
    assert_eq!(classify_status(s2), GitState::Modified);
}

#[test]
fn classify_covers_every_state() {
    assert_eq!(classify_status(raw()), GitState::Clean);

    let mut s = raw();
    s.index_renamed = true;
    assert_eq!(classify_status(s), GitState::Staged);

    let mut s = raw();
    s.wt_new = true;
    assert_eq!(classify_status(s), GitState::Untracked);

    let mut s = raw();
    s.ignored = true;
    assert_eq!(classify_status(s), GitState::Ignored);

    let mut s = raw();
    s.wt_deleted = true;
    assert_eq!(classify_status(s), GitState::Deleted);

    // precedence below the working-tree modification
    let mut s = raw();
    s.wt_new = true;
    s.ignored = true;
    s.wt_deleted = true;
    assert_eq!(classify_status(s), GitState::Untracked);
}

#[test]
fn map_lookup_returns_latest_insertion() {
    let mut m = GitMap::new();
    assert!(m.get("a.txt").is_none());
    m.insert("a.txt".to_string(), GitState::Untracked);
    m.insert("b.txt".to_string(), GitState::Staged);
    m.insert("a.txt".to_string(), GitState::Modified);
    assert_eq!(m.get("a.txt"), Some(GitState::Modified));
    assert_eq!(m.get("b.txt"), Some(GitState::Staged));
    assert!(m.get("c.txt").is_none());
}

#[test]
fn enrich_annotates_files_by_relative_path() {
    // the walked root is `.`, so lookup keys lose the leading `./`
    let mut tree = Node::new_dir(
        ".",
        vec![
            Node::new_file("a.txt", 1),
            Node::new_dir("src", vec![Node::new_file("main.rs", 2)]),
        ],
    );
    let mut m = GitMap::new();
    m.insert("a.txt".to_string(), GitState::Modified);
    m.insert("src/main.rs".to_string(), GitState::Untracked);
    m.insert("src".to_string(), GitState::Staged);

    let mut buf = String::new();
    enrich_with_git(&mut tree, &m, &mut buf);
    assert_eq!(buf, "");

    let kids = tree.children.as_deref().unwrap();
    assert_eq!(kids[0].meta.git, Some(GitState::Modified));
    let src = &kids[1];
    assert!(src.meta.git.is_none(), "directories are never annotated");
    assert_eq!(
        src.children.as_deref().unwrap()[0].meta.git,
        Some(GitState::Untracked)
    );
}

#[test]
fn enrich_leaves_unknown_paths_unannotated() {
    let mut tree = Node::new_dir(".", vec![Node::new_file("a.txt", 1)]);
    let m = GitMap::new();
    let mut buf = String::new();
    enrich_with_git(&mut tree, &m, &mut buf);
    assert!(tree.children.as_deref().unwrap()[0].meta.git.is_none());
}

#[test]
fn branch_name_selection() {
    assert_eq!(branch_display_name(true, Some("main".to_string())), "main");
    assert_eq!(branch_display_name(true, None), "unknown");
    assert_eq!(branch_display_name(false, Some("main".to_string())), "HEAD");
}

#[test]
fn branch_line_format() {
    assert_eq!(branch_line("main"), "(\u{2387} main)\n");
    assert_eq!(branch_line("HEAD"), "(\u{2387} HEAD)\n");
}
