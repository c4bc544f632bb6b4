//! The text renderer: box-drawing guides, optional icons and colors.

use vstd::prelude::*;
use crate::args::ColorMode;
use crate::colors::{color_for_name, git_marker, marker_color, marker_text, name_color, reset_color};
use crate::config::RenderOptions;
use crate::icons::{dir_icon, dir_icon_of, file_icon, file_icon_of};
use crate::node::{node_view, Kind, Node, NodeView};

verus! {

/// One of the six fixed name-formatting strategies, chosen once per
/// render call from the icon flag and the color mode.
#[derive(Clone, Copy, Debug, PartialEq, Eq, Structural)]
pub enum NameStyle {
    PlainNever,
    PlainAuto,
    PlainAlways,
    IconNever,
    IconAuto,
    IconAlways,
}

/// The strategy that a pair of render settings selects.
pub open spec fn style_of(icons: bool, color: ColorMode) -> NameStyle {
    match (icons, color) {
        (false, ColorMode::Never) => NameStyle::PlainNever,
        (false, ColorMode::Auto) => NameStyle::PlainAuto,
        (false, ColorMode::Always) => NameStyle::PlainAlways,
        (true, ColorMode::Never) => NameStyle::IconNever,
        (true, ColorMode::Auto) => NameStyle::IconAuto,
        (true, ColorMode::Always) => NameStyle::IconAlways,
    }
}

/// The bare name, with a trailing `/` on directories.
pub open spec fn plain_name(v: NodeView) -> Seq<char> {
    v.name + if v.kind == Kind::Dir {
        "/"@
    } else {
        Seq::<char>::empty()
    }
}

/// The colored status marker appended after the name; empty without a
/// status, and for `Clean`.
pub open spec fn marker_suffix(v: NodeView) -> Seq<char> {
    match v.git {
        Some(g) => if g == crate::node::GitState::Clean {
            Seq::<char>::empty()
        } else {
            marker_color(g) + marker_text(g) + "\x1b[0m"@
        },
        None => Seq::<char>::empty(),
    }
}

/// The icon glyph of a node, directory or file, with its separator.
pub open spec fn icon_prefix(v: NodeView) -> Seq<char> {
    (if v.kind == Kind::Dir {
        dir_icon_of(v.name)
    } else {
        file_icon_of(v.name)
    }) + " "@
}

/// What one node's name renders to under a strategy.
pub open spec fn name_str(v: NodeView, style: NameStyle) -> Seq<char> {
    match style {
        NameStyle::PlainNever => plain_name(v),
        NameStyle::PlainAuto => plain_name(v) + marker_suffix(v),
        NameStyle::PlainAlways => name_color(v.name, v.kind == Kind::Dir) + plain_name(v)
            + "\x1b[0m"@ + marker_suffix(v),
        NameStyle::IconNever => icon_prefix(v) + plain_name(v),
        NameStyle::IconAuto => icon_prefix(v) + plain_name(v) + marker_suffix(v),
        NameStyle::IconAlways => icon_prefix(v) + name_color(v.name, v.kind == Kind::Dir)
            + plain_name(v) + "\x1b[0m"@ + marker_suffix(v),
    }
}

/// What a non-root node renders to: its guide prefix, a branch or
/// corner glyph, its name line, and all of its children under an
/// extended prefix.
pub open spec fn render_node_str(v: NodeView, prefix: Seq<char>, is_last: bool, style: NameStyle)
    -> Seq<char>
    decreases v, 0int,
{
    prefix + (if is_last {
        "\u{2514}\u{2500}\u{2500} "@
    } else {
        "\u{251c}\u{2500}\u{2500} "@
    }) + name_str(v, style) + "\n"@ + render_children_str(
        v.children,
        prefix + (if is_last {
            "    "@
        } else {
            "\u{2502}   "@
        }),
        style,
    )
}

/// What a child list renders to; only the last child gets the corner
/// glyph.
pub open spec fn render_children_str(cs: Seq<NodeView>, prefix: Seq<char>, style: NameStyle)
    -> Seq<char>
    decreases cs, 1int,
{
    if cs.len() == 0 {
        Seq::<char>::empty()
    } else if cs.len() == 1 {
        render_node_str(cs[0], prefix, true, style)
    } else {
        render_node_str(cs[0], prefix, false, style) + render_children_str(
            cs.drop_first(),
            prefix,
            style,
        )
    }
}

/// What a whole tree renders to: the root name line, then the children
/// with an empty guide prefix.
pub open spec fn render_tree_str(v: NodeView, style: NameStyle) -> Seq<char> {
    name_str(v, style) + "\n"@ + render_children_str(v.children, Seq::<char>::empty(), style)
}

/// The name alone, uncolored.
pub fn write_plain(n: &Node) -> (r: String)
    ensures
        r@ == name_str(node_view(*n), NameStyle::PlainNever),
{
    let mut out = n.name.clone();
    if n.is_dir() {
        out.append("/");
    }
    out
}

/// Appends the status marker of `n`, if any, to `out`.
fn push_marker(out: &mut String, n: &Node)
    ensures
        final(out)@ == old(out)@ + marker_suffix(node_view(*n)),
{
    if let Some(g) = n.meta.git {
        if let Some((c, s)) = git_marker(g) {
            out.append(c);
            out.append(s);
            out.append(reset_color());
            return ;
        }
    }
}

/// The name, with the status marker colored when a state is present.
pub fn write_plain_gitonly(n: &Node) -> (r: String)
    ensures
        r@ == name_str(node_view(*n), NameStyle::PlainAuto),
{
    let mut out = write_plain(n);
    push_marker(&mut out, n);
    out
}

/// The name colored by kind and extension, plus the status marker.
pub fn write_plain_full(n: &Node) -> (r: String)
    ensures
        r@ == name_str(node_view(*n), NameStyle::PlainAlways),
{
    let mut out = color_for_name(n.name.as_str(), n.is_dir()).to_owned();
    let plain = write_plain(n);
    out.append(plain.as_str());
    out.append(reset_color());
    push_marker(&mut out, n);
    out
}

/// Appends the icon glyph of `n` and a space to `out`.
fn push_icon(out: &mut String, n: &Node)
    ensures
        final(out)@ == old(out)@ + icon_prefix(node_view(*n)),
{
    if n.is_dir() {
        out.append(dir_icon(n.name.as_str()));
    } else {
        out.append(file_icon(n.name.as_str()));
    }
    out.append(" ");
}

/// Icon and name, uncolored.
pub fn write_icon_plain(n: &Node) -> (r: String)
    ensures
        r@ == name_str(node_view(*n), NameStyle::IconNever),
{
    let mut out = String::new();
    push_icon(&mut out, n);
    let plain = write_plain(n);
    out.append(plain.as_str());
    out
}

/// Icon and name, with the status marker colored when present.
pub fn write_icon_gitonly(n: &Node) -> (r: String)
    ensures
        r@ == name_str(node_view(*n), NameStyle::IconAuto),
{
    let mut out = write_icon_plain(n);
    push_marker(&mut out, n);
    out
}

/// Icon, colored name, and status marker.
pub fn write_icon_full(n: &Node) -> (r: String)
    ensures
        r@ == name_str(node_view(*n), NameStyle::IconAlways),
{
    let mut out = String::new();
    push_icon(&mut out, n);
    out.append(color_for_name(n.name.as_str(), n.is_dir()));
    let plain = write_plain(n);
    out.append(plain.as_str());
    out.append(reset_color());
    push_marker(&mut out, n);
    out
}

/// Renders the name of `n` under the chosen strategy.
fn write_name(n: &Node, style: NameStyle) -> (r: String)
    ensures
        r@ == name_str(node_view(*n), style),
{
    match style {
        NameStyle::PlainNever => write_plain(n),
        NameStyle::PlainAuto => write_plain_gitonly(n),
        NameStyle::PlainAlways => write_plain_full(n),
        NameStyle::IconNever => write_icon_plain(n),
        NameStyle::IconAuto => write_icon_gitonly(n),
        NameStyle::IconAlways => write_icon_full(n),
    }
}

/// Renders one non-root node and its subtree, matching
/// `render_node_str`.
#[verifier::loop_isolation(false)]
pub fn render_node(n: &Node, prefix: &str, is_last: bool, style: NameStyle) -> (r: String)
    ensures
        r@ == render_node_str(node_view(*n), prefix@, is_last, style),
    decreases *n,
{
    let mut out = prefix.to_owned();
    if is_last {
        out.append("\u{2514}\u{2500}\u{2500} ");
    } else {
        out.append("\u{251c}\u{2500}\u{2500} ");
    }
    let name = write_name(n, style);
    out.append(name.as_str());
    out.append("\n");
    let mut child_prefix = prefix.to_owned();
    if is_last {
        child_prefix.append("    ");
    } else {
        child_prefix.append("\u{2502}   ");
    }
    let ghost v = node_view(*n);
    let ghost whole = render_node_str(v, prefix@, is_last, style);
    if let Some(cs) = &n.children {
        let ghost cv = crate::node::nodes_view(cs@);
        proof {
            crate::node::lemma_nodes_view_index(cs@);
            assert(cv.skip(0) =~= cv);
        }
        let len = cs.len();
        let mut i: usize = 0;
        while i < len
            invariant
                i <= len,
                len == cs@.len(),
                cs@.len() == cv.len(),
                forall|j: int| 0 <= j < cv.len() ==> cv[j] == node_view(cs@[j]),
                out@ + render_children_str(cv.skip(i as int), child_prefix@, style) == whole,
            decreases len - i,
        {
            proof {
                assert(cv.skip(i as int)[0] == cv[i as int]);
                if i + 1 < len {
                    assert(cv.skip(i as int).drop_first() =~= cv.skip(i as int + 1));
                }
            }
            let piece = render_node(&cs[i], child_prefix.as_str(), i == len - 1, style);
            out.append(piece.as_str());
            i += 1;
            proof {
                if i == len {
                    assert(cv.skip(i as int) =~= Seq::<NodeView>::empty());
                    assert(out@ + render_children_str(
                        cv.skip(i as int),
                        child_prefix@,
                        style,
                    ) =~= out@);
                }
            }
        }
        proof {
            assert(cv.skip(len as int) =~= Seq::<NodeView>::empty());
        }
    }
    out
}

/// Renders the whole tree: the root line, then each child with the
/// proper guide glyphs, matching `render_tree_str`.
#[verifier::loop_isolation(false)]
pub fn render(root: &Node, opts: &RenderOptions) -> (r: String)
    ensures
        r@ == render_tree_str(node_view(*root), style_of(opts.icons, opts.color)),
{
    let style = match (opts.icons, opts.color) {
        (false, ColorMode::Never) => NameStyle::PlainNever,
        (false, ColorMode::Auto) => NameStyle::PlainAuto,
        (false, ColorMode::Always) => NameStyle::PlainAlways,
        (true, ColorMode::Never) => NameStyle::IconNever,
        (true, ColorMode::Auto) => NameStyle::IconAuto,
        (true, ColorMode::Always) => NameStyle::IconAlways,
    };
    let mut out = write_name(root, style);
    out.append("\n");
    proof {
        reveal_strlit("");
        assert(""@ =~= Seq::<char>::empty());
    }
    let ghost v = node_view(*root);
    let ghost whole = render_tree_str(v, style);
    if let Some(cs) = &root.children {
        let ghost cv = crate::node::nodes_view(cs@);
        proof {
            crate::node::lemma_nodes_view_index(cs@);
            assert(cv.skip(0) =~= cv);
        }
        let len = cs.len();
        let mut i: usize = 0;
        while i < len
            invariant
                i <= len,
                len == cs@.len(),
                cs@.len() == cv.len(),
                forall|j: int| 0 <= j < cv.len() ==> cv[j] == node_view(cs@[j]),
                out@ + render_children_str(cv.skip(i as int), Seq::<char>::empty(), style)
                    == whole,
            decreases len - i,
        {
            proof {
                assert(cv.skip(i as int)[0] == cv[i as int]);
                if i + 1 < len {
                    assert(cv.skip(i as int).drop_first() =~= cv.skip(i as int + 1));
                }
            }
            let piece = render_node(&cs[i], "", i == len - 1, style);
            out.append(piece.as_str());
            i += 1;
            proof {
                if i == len {
                    assert(cv.skip(i as int) =~= Seq::<NodeView>::empty());
                    assert(out@ + render_children_str(
                        cv.skip(i as int),
                        Seq::<char>::empty(),
                        style,
                    ) =~= out@);
                }
            }
        }
        proof {
            assert(cv.skip(len as int) =~= Seq::<NodeView>::empty());
        }
    }
    out
}

} // verus!
