//! Glyph selection for directories and known file types.

use vstd::prelude::*;
use crate::strutil::{ext_of, extension, str_eq};

verus! {

/// The glyph shown before a directory name.
pub open spec fn dir_icon_of(name: Seq<char>) -> Seq<char> {
    if name == "src"@ {
        "\u{f08de}"@
    } else {
        "\u{f115}"@
    }
}

/// The glyph shown before a file name, keyed by its extension.
pub open spec fn file_icon_of(name: Seq<char>) -> Seq<char> {
    if ext_of(name) == "rs"@ {
        "\u{e7a8}"@
    } else if ext_of(name) == "md"@ {
        "\u{f00ba}"@
    } else {
        "\u{f016}"@
    }
}

/// Picks the directory glyph, matching `dir_icon_of`.
pub fn dir_icon(name: &str) -> (r: &'static str)
    ensures
        r@ == dir_icon_of(name@),
{
    if str_eq(name, "src") {
        "\u{f08de}"
    } else {
        "\u{f115}"
    }
}

/// Picks the file glyph, matching `file_icon_of`.
pub fn file_icon(name: &str) -> (r: &'static str)
    ensures
        r@ == file_icon_of(name@),
{
    let e = extension(name);
    if str_eq(e, "rs") {
        "\u{e7a8}"
    } else if str_eq(e, "md") {
        "\u{f00ba}"
    } else {
        "\u{f016}"
    }
}

} // verus!
