//! Terminal color selection for node names and git-status markers.

use vstd::prelude::*;
use crate::node::GitState;
use crate::strutil::{ext_of, extension, str_eq};

verus! {

/// The color chosen for a file of the given extension.
pub open spec fn ext_color(e: Seq<char>) -> Seq<char> {
    if e == "rs"@ {
        "\x1b[38;5;216m"@
    } else if e == "c"@ {
        "\x1b[38;5;110m"@
    } else if e == "h"@ {
        "\x1b[38;5;110m"@
    } else if e == "cpp"@ {
        "\x1b[38;5;109m"@
    } else if e == "hpp"@ {
        "\x1b[38;5;109m"@
    } else if e == "cc"@ {
        "\x1b[38;5;109m"@
    } else if e == "go"@ {
        "\x1b[38;5;115m"@
    } else if e == "py"@ {
        "\x1b[38;5;186m"@
    } else if e == "js"@ {
        "\x1b[38;5;187m"@
    } else if e == "jsx"@ {
        "\x1b[38;5;110m"@
    } else if e == "ts"@ {
        "\x1b[38;5;110m"@
    } else if e == "tsx"@ {
        "\x1b[38;5;111m"@
    } else if e == "json"@ {
        "\x1b[38;5;180m"@
    } else if e == "toml"@ {
        "\x1b[38;5;144m"@
    } else if e == "yaml"@ {
        "\x1b[38;5;187m"@
    } else if e == "yml"@ {
        "\x1b[38;5;187m"@
    } else if e == "ini"@ {
        "\x1b[38;5;144m"@
    } else if e == "md"@ {
        "\x1b[38;5;182m"@
    } else if e == "mdx"@ {
        "\x1b[38;5;182m"@
    } else if e == "txt"@ {
        "\x1b[38;5;250m"@
    } else if e == "png"@ {
        "\x1b[38;5;183m"@
    } else if e == "jpg"@ {
        "\x1b[38;5;183m"@
    } else if e == "jpeg"@ {
        "\x1b[38;5;183m"@
    } else if e == "gif"@ {
        "\x1b[38;5;183m"@
    } else if e == "svg"@ {
        "\x1b[38;5;183m"@
    } else if e == "pdf"@ {
        "\x1b[38;5;174m"@
    } else {
        "\x1b[38;5;252m"@
    }
}

/// The color chosen for a name: one fixed color for directories, an
/// extension-keyed color (with a fallback) for files.
pub open spec fn name_color(name: Seq<char>, is_dir: bool) -> Seq<char> {
    if is_dir {
        "\x1b[38;5;110m"@
    } else {
        ext_color(ext_of(name))
    }
}

/// The escape sequence that switches the color back off.
pub fn reset_color() -> (r: &'static str)
    ensures
        r@ == "\x1b[0m"@,
{
    "\x1b[0m"
}

/// Picks the color for a node name, matching `name_color`.
pub fn color_for_name(name: &str, is_dir: bool) -> (r: &'static str)
    ensures
        r@ == name_color(name@, is_dir),
{
    if is_dir {
        return "\x1b[38;5;110m";
    }
    let e = extension(name);
    if str_eq(e, "rs") {
        "\x1b[38;5;216m"
    } else if str_eq(e, "c") {
        "\x1b[38;5;110m"
    } else if str_eq(e, "h") {
        "\x1b[38;5;110m"
    } else if str_eq(e, "cpp") {
        "\x1b[38;5;109m"
    } else if str_eq(e, "hpp") {
        "\x1b[38;5;109m"
    } else if str_eq(e, "cc") {
        "\x1b[38;5;109m"
    } else if str_eq(e, "go") {
        "\x1b[38;5;115m"
    } else if str_eq(e, "py") {
        "\x1b[38;5;186m"
    } else if str_eq(e, "js") {
        "\x1b[38;5;187m"
    } else if str_eq(e, "jsx") {
        "\x1b[38;5;110m"
    } else if str_eq(e, "ts") {
        "\x1b[38;5;110m"
    } else if str_eq(e, "tsx") {
        "\x1b[38;5;111m"
    } else if str_eq(e, "json") {
        "\x1b[38;5;180m"
    } else if str_eq(e, "toml") {
        "\x1b[38;5;144m"
    } else if str_eq(e, "yaml") {
        "\x1b[38;5;187m"
    } else if str_eq(e, "yml") {
        "\x1b[38;5;187m"
    } else if str_eq(e, "ini") {
        "\x1b[38;5;144m"
    } else if str_eq(e, "md") {
        "\x1b[38;5;182m"
    } else if str_eq(e, "mdx") {
        "\x1b[38;5;182m"
    } else if str_eq(e, "txt") {
        "\x1b[38;5;250m"
    } else if str_eq(e, "png") {
        "\x1b[38;5;183m"
    } else if str_eq(e, "jpg") {
        "\x1b[38;5;183m"
    } else if str_eq(e, "jpeg") {
        "\x1b[38;5;183m"
    } else if str_eq(e, "gif") {
        "\x1b[38;5;183m"
    } else if str_eq(e, "svg") {
        "\x1b[38;5;183m"
    } else if str_eq(e, "pdf") {
        "\x1b[38;5;174m"
    } else {
        "\x1b[38;5;252m"
    }
}

/// The position a state occupies in the fixed marker table.
pub open spec fn git_index(g: GitState) -> int {
    match g {
        GitState::Clean => 0,
        GitState::Modified => 1,
        GitState::Staged => 2,
        GitState::Untracked => 3,
        GitState::Ignored => 4,
        GitState::Renamed => 5,
        GitState::Deleted => 6,
    }
}

/// Index of a state in the marker table.
pub fn git_idx(g: GitState) -> (r: usize)
    ensures
        r == git_index(g),
{
    match g {
        GitState::Clean => 0,
        GitState::Modified => 1,
        GitState::Staged => 2,
        GitState::Untracked => 3,
        GitState::Ignored => 4,
        GitState::Renamed => 5,
        GitState::Deleted => 6,
    }
}

/// The color that introduces the trailing status marker of a state.
pub open spec fn marker_color(g: GitState) -> Seq<char> {
    match g {
        GitState::Clean => ""@,
        GitState::Modified => "\x1b[33m"@,
        GitState::Staged => "\x1b[32m"@,
        GitState::Untracked => "\x1b[31m"@,
        GitState::Ignored => "\x1b[38;5;244m"@,
        GitState::Renamed => "\x1b[36m"@,
        GitState::Deleted => "\x1b[31m"@,
    }
}

/// The trailing status marker text of a state.
pub open spec fn marker_text(g: GitState) -> Seq<char> {
    match g {
        GitState::Clean => ""@,
        GitState::Modified => " \x1b[1m~\x1b[0m"@,
        GitState::Staged => " \x1b[1m+\x1b[0m"@,
        GitState::Untracked => " \x1b[1m?\x1b[0m"@,
        GitState::Ignored => " \x1b[1m(i)\x1b[0m"@,
        GitState::Renamed => " \x1b[1m\u{2192}\x1b[0m"@,
        GitState::Deleted => " \x1b[1m\u{2716}\x1b[0m"@,
    }
}

/// The colored trailing marker for a state; `Clean` has none.
pub fn git_marker(g: GitState) -> (r: Option<(&'static str, &'static str)>)
    ensures
        (r is None) <==> (g == GitState::Clean),
        r is Some ==> (r->0).0@ == marker_color(g) && (r->0).1@ == marker_text(g),
{
    match g {
        GitState::Clean => None,
        GitState::Modified => Some(("\x1b[33m", " \x1b[1m~\x1b[0m")),
        GitState::Staged => Some(("\x1b[32m", " \x1b[1m+\x1b[0m")),
        GitState::Untracked => Some(("\x1b[31m", " \x1b[1m?\x1b[0m")),
        GitState::Ignored => Some(("\x1b[38;5;244m", " \x1b[1m(i)\x1b[0m")),
        GitState::Renamed => Some(("\x1b[36m", " \x1b[1m\u{2192}\x1b[0m")),
        GitState::Deleted => Some(("\x1b[31m", " \x1b[1m\u{2716}\x1b[0m")),
    }
}

} // verus!
