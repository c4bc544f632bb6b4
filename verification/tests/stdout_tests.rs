use arbor::args::ColorMode;
use arbor::config::RenderOptions;
use arbor::node::{GitState, Node};
use arbor::text::render;

fn opts(icons: bool, color: ColorMode) -> RenderOptions {
    RenderOptions { icons, color, git: false }
}

#[test]
fn classic_single_dir() {
    let root = Node::new_dir("root", vec![]);
    let o = opts(false, ColorMode::Never);
    assert_eq!(render(&root, &o), "root/\n");
}

#[test]
fn classic_tree() {
    let root = Node::new_dir(
        "root",
        vec![
            Node::new_dir(
                "src",
                vec![Node::new_file("main.rs", 1), Node::new_file("lib.rs", 1)],
            ),
            Node::new_file("README.md", 1),
        ],
    );
    let o = opts(false, ColorMode::Never);
    let got = render(&root, &o);
    let expected = "\
root/
├── src/
│   ├── main.rs
│   └── lib.rs
└── README.md
";
    assert_eq!(got, expected);
}

#[test]
fn icons_single_dir() {
    let root = Node::new_dir("root", vec![]);
    let o = opts(true, ColorMode::Never);
    let got = render(&root, &o);
    let expected = format!("{} root/\n", '\u{f115}');
    assert_eq!(got, expected);
}

#[test]
fn icons_tree() {
    let root = Node::new_dir(
        "root",
        vec![
            Node::new_dir(
                "src",
                vec![Node::new_file("main.rs", 1), Node::new_file("lib.rs", 1)],
            ),
            Node::new_file("README.md", 1),
        ],
    );
    let o = opts(true, ColorMode::Never);
    let got = render(&root, &o);
    let expected = "\
\u{f115} root/
├── \u{f08de} src/
│   ├── \u{e7a8} main.rs
│   └── \u{e7a8} lib.rs
└── \u{f00ba} README.md
";
    assert_eq!(got, expected);
}

#[test]
fn auto_git_only_colors_when_git_present() {
    let mut f = Node::new_file("a.txt", 1);
    f.meta.git = Some(GitState::Modified);
    let o = opts(false, ColorMode::Auto);
    let s = render(&f, &o);
    assert!(s.starts_with("a.txt"));
    assert!(s.contains('\u{1b}'));
}

#[test]
fn auto_no_git_means_no_color() {
    let f = Node::new_file("a.txt", 1);
    let o = opts(false, ColorMode::Auto);
    let s = render(&f, &o);
    assert_eq!(s, "a.txt\n");
    assert!(!s.contains('\u{1b}'));
}

#[test]
fn always_colors_names() {
    let f = Node::new_file("a.txt", 1);
    let o = opts(false, ColorMode::Always);
    let s = render(&f, &o);
    assert!(s.contains('\u{1b}'));
}

#[test]
fn always_colors_with_icons() {
    let f = Node::new_file("main.rs", 1);
    let o = opts(true, ColorMode::Always);
    let s = render(&f, &o);
    assert!(s.contains('\u{e7a8}'));
    assert!(s.contains('\u{1b}'));
}
