use arbor::colors::{color_for_name, git_idx, git_marker};
use arbor::node::GitState;

#[test]
fn color_for_name_uses_extension_table() {
    assert_eq!(color_for_name("main.rs", false), "\x1b[38;5;216m");
    assert_eq!(color_for_name("notes.md", false), "\x1b[38;5;182m");
    assert_eq!(color_for_name("archive.tar.gz", false), "\x1b[38;5;252m");
    assert_eq!(color_for_name("no_extension", false), "\x1b[38;5;252m");
    assert_eq!(color_for_name("whatever", true), "\x1b[38;5;110m");
}

#[test]
fn git_marker_is_empty_only_for_clean() {
    assert!(git_marker(GitState::Clean).is_none());
    assert_eq!(
        git_marker(GitState::Modified),
        Some(("\x1b[33m", " \x1b[1m~\x1b[0m"))
    );
    assert_eq!(
        git_marker(GitState::Staged),
        Some(("\x1b[32m", " \x1b[1m+\x1b[0m"))
    );
    assert_eq!(
        git_marker(GitState::Untracked),
        Some(("\x1b[31m", " \x1b[1m?\x1b[0m"))
    );
    assert!(git_marker(GitState::Ignored).is_some());
    assert!(git_marker(GitState::Renamed).is_some());
    assert!(git_marker(GitState::Deleted).is_some());
}

#[test]
fn git_idx_enumerates_states_in_order() {
    assert_eq!(git_idx(GitState::Clean), 0);
    assert_eq!(git_idx(GitState::Modified), 1);
    assert_eq!(git_idx(GitState::Staged), 2);
    assert_eq!(git_idx(GitState::Untracked), 3);
    assert_eq!(git_idx(GitState::Ignored), 4);
    assert_eq!(git_idx(GitState::Renamed), 5);
    assert_eq!(git_idx(GitState::Deleted), 6);
}

#[test]
fn icons_for_known_names() {
    assert_eq!(arbor::icons::dir_icon("src"), "\u{f08de}");
    assert_eq!(arbor::icons::dir_icon("root"), "\u{f115}");
    assert_eq!(arbor::icons::file_icon("main.rs"), "\u{e7a8}");
    assert_eq!(arbor::icons::file_icon("README.md"), "\u{f00ba}");
    assert_eq!(arbor::icons::file_icon("data.bin"), "\u{f016}");
}
