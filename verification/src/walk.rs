//! Building the tree from a stream of walker entries: visibility
//! filtering, the index-addressed node store, lazy creation of
//! ancestor directories, and materialization into the final tree.

use vstd::prelude::*;
use crate::config::WalkOptions;
use crate::node::{node_view, nodes_view, Kind, Node, NodeView};
use crate::strutil::str_eq;

verus! {

/// One entry delivered by the filesystem walker: its path as segments
/// relative to the walked root (never empty for a real entry), its
/// kind, and its size in bytes (files only; zero for directories).
#[derive(Debug)]
pub struct Entry {
    pub path: Vec<String>,
    pub kind: Kind,
    pub size: u64,
}

/// A path as a sequence of segment views.
pub open spec fn path_view(p: Seq<String>) -> Seq<Seq<char>> {
    p.map_values(|s: String| s@)
}

/// A name the hidden filter applies to: one starting with a dot.
pub open spec fn hidden_name(s: Seq<char>) -> bool {
    s.len() > 0 && s[0] == '.'
}

/// Whether some strict ancestor segment of the path is the
/// version-control metadata directory.
pub open spec fn has_vcs_ancestor(p: Seq<Seq<char>>) -> bool {
    exists|i: int| 0 <= i < p.len() - 1 && p[i] == ".git"@
}

/// Whether the path respects the optional depth bound (the root is at
/// depth zero; an entry's depth is its number of segments).
pub open spec fn within_depth(p: Seq<Seq<char>>, depth: Option<usize>) -> bool {
    match depth {
        Some(d) => p.len() <= d,
        None => true,
    }
}

/// Whether the path passes the hidden filter.
pub open spec fn hidden_ok(p: Seq<Seq<char>>, include_hidden: bool) -> bool {
    include_hidden || (forall|i: int| 0 <= i < p.len() ==> !hidden_name(#[trigger] p[i]))
}

/// Whether an entry survives the visibility rules: it has a name, it
/// is within the depth bound, it passes the hidden filter, and it is
/// not inside the version-control metadata directory (that directory
/// itself may survive, but is never descended into).
pub open spec fn entry_kept(e: Entry, opts: WalkOptions) -> bool {
    &&& e.path@.len() >= 1
    &&& within_depth(path_view(e.path@), opts.depth)
    &&& hidden_ok(path_view(e.path@), opts.include_hidden)
    &&& !has_vcs_ancestor(path_view(e.path@))
}

/// Decides whether an entry survives, matching `entry_kept`.
pub fn keep_entry(e: &Entry, opts: &WalkOptions) -> (r: bool)
    ensures
        r == entry_kept(*e, *opts),
{
    let len = e.path.len();
    if len == 0 {
        return false;
    }
    if let Some(d) = opts.depth {
        if len > d {
            assert(!within_depth(path_view(e.path@), opts.depth));
            return false;
        }
    }
    if !opts.include_hidden {
        let mut i: usize = 0;
        while i < len
            invariant
                !opts.include_hidden,
                i <= len,
                len == e.path@.len(),
                forall|j: int| 0 <= j < i ==> !hidden_name(#[trigger] path_view(e.path@)[j]),
            decreases len - i,
        {
            let seg = &e.path[i];
            let hidden = seg.as_str().unicode_len() > 0 && seg.as_str().get_char(0) == '.';
            if hidden {
                assert(path_view(e.path@)[i as int] == e.path@[i as int]@);
                assert(hidden_name(path_view(e.path@)[i as int]));
                assert(!hidden_ok(path_view(e.path@), opts.include_hidden));
                return false;
            }
            i += 1;
        }
    }
    let mut i: usize = 0;
    while i < len - 1
        invariant
            1 <= len,
            i <= len,
            len == e.path@.len(),
            forall|j: int| 0 <= j < i ==> path_view(e.path@)[j] != ".git"@,
        decreases len - i,
    {
        if str_eq(e.path[i].as_str(), ".git") {
            assert(path_view(e.path@)[i as int] == e.path@[i as int]@);
            assert(path_view(e.path@)[i as int] == ".git"@);
            assert(has_vcs_ancestor(path_view(e.path@)));
            return false;
        }
        i += 1;
    }
    assert(!has_vcs_ancestor(path_view(e.path@)));
    true
}

/// Segment-wise path equality, equivalent to equality of the views.
pub fn path_eq(a: &Vec<String>, b: &Vec<String>) -> (r: bool)
    ensures
        r == (path_view(a@) == path_view(b@)),
{
    if a.len() != b.len() {
        assert(path_view(a@).len() != path_view(b@).len());
        return false;
    }
    let len = a.len();
    let mut i: usize = 0;
    while i < len
        invariant
            i <= len,
            len == a@.len() == b@.len(),
            forall|j: int| 0 <= j < i ==> path_view(a@)[j] == path_view(b@)[j],
        decreases len - i,
    {
        if !str_eq(a[i].as_str(), b[i].as_str()) {
            assert(path_view(a@)[i as int] != path_view(b@)[i as int]);
            return false;
        }
        i += 1;
    }
    proof {
        assert(path_view(a@) =~= path_view(b@));
    }
    true
}

/// A value-equal copy of a path.
pub fn clone_path(p: &Vec<String>) -> (r: Vec<String>)
    ensures
        r@ == p@,
{
    let mut r: Vec<String> = Vec::new();
    let len = p.len();
    let mut i: usize = 0;
    while i < len
        invariant
            i <= len,
            len == p@.len(),
            r@.len() == i,
            forall|j: int| 0 <= j < i ==> r@[j] == p@[j],
        decreases len - i,
    {
        r.push(p[i].clone());
        i += 1;
    }
    proof {
        assert(r@ =~= p@);
    }
    r
}

/// The parent path: everything but the last segment.
pub fn parent_path(p: &Vec<String>) -> (r: Vec<String>)
    requires
        p@.len() >= 1,
    ensures
        r@ == p@.drop_last(),
{
    let mut r: Vec<String> = Vec::new();
    let len = p.len() - 1;
    let mut i: usize = 0;
    while i < len
        invariant
            i <= len,
            len == p@.len() - 1,
            r@.len() == i,
            forall|j: int| 0 <= j < i ==> r@[j] == p@[j],
        decreases len - i,
    {
        r.push(p[i].clone());
        i += 1;
    }
    proof {
        assert(r@ =~= p@.drop_last());
    }
    r
}

/// The base name of a path: its last segment, or the empty string for
/// the empty path.
pub fn file_name_str(path: &Vec<String>) -> (r: String)
    ensures
        path@.len() == 0 ==> r@ == Seq::<char>::empty(),
        path@.len() > 0 ==> r@ == path_view(path@).last(),
{
    if path.len() == 0 {
        String::new()
    } else {
        path[path.len() - 1].clone()
    }
}

/// One node of the intermediate index-addressed store.
#[derive(Debug)]
pub struct TmpNode {
    pub name: String,
    pub size: u64,
    pub is_dir: bool,
    pub children: Vec<usize>,
}

/// Every child link points forward: strictly past its parent and into
/// the store. This is what makes the store acyclic.
pub open spec fn arena_wf(arena: Seq<TmpNode>) -> bool {
    forall|i: int, j: int|
        #![trigger arena[i].children@[j]]
        0 <= i < arena.len() && 0 <= j < arena[i].children@.len() ==> i < arena[i].children@[j]
            < arena.len()
}

/// The tree that materializing the store at index `i` yields.
pub open spec fn mat_spec(arena: Seq<TmpNode>, i: int) -> NodeView
    decreases arena.len() - i, 0int,
        when 0 <= i < arena.len() && arena_wf(arena)
{
    if arena[i].is_dir {
        NodeView {
            name: arena[i].name@,
            kind: Kind::Dir,
            size: None,
            git: None,
            children: mat_children(arena, arena[i].children@, i),
        }
    } else {
        NodeView {
            name: arena[i].name@,
            kind: Kind::File,
            size: Some(arena[i].size),
            git: None,
            children: Seq::<NodeView>::empty(),
        }
    }
}

/// The subtrees of the child indices `cs`, all past position `i`.
pub open spec fn mat_children(arena: Seq<TmpNode>, cs: Seq<usize>, i: int) -> Seq<NodeView>
    decreases arena.len() - i - 1, cs.len(),
        when 0 <= i && arena_wf(arena) && (forall|k: int|
            0 <= k < cs.len() ==> i < #[trigger] cs[k] < arena.len())
{
    if cs.len() == 0 {
        Seq::<NodeView>::empty()
    } else {
        seq![mat_spec(arena, cs[0] as int)] + mat_children(arena, cs.drop_first(), i)
    }
}

/// `mat_children` maps the index list element by element.
pub proof fn lemma_mat_children_index(arena: Seq<TmpNode>, cs: Seq<usize>, i: int)
    requires
        0 <= i,
        arena_wf(arena),
        forall|k: int| 0 <= k < cs.len() ==> i < #[trigger] cs[k] < arena.len(),
    ensures
        mat_children(arena, cs, i).len() == cs.len(),
        forall|k: int|
            0 <= k < cs.len() ==> mat_children(arena, cs, i)[k] == mat_spec(
                arena,
                #[trigger] cs[k] as int,
            ),
    decreases cs.len(),
{
    if cs.len() > 0 {
        assert forall|k: int| 0 <= k < cs.drop_first().len() implies i < #[trigger] cs.drop_first()[k]
            < arena.len() by {
            assert(cs.drop_first()[k] == cs[k + 1]);
        }
        lemma_mat_children_index(arena, cs.drop_first(), i);
        assert forall|k: int| 0 <= k < cs.len() implies mat_children(arena, cs, i)[k] == mat_spec(
            arena,
            #[trigger] cs[k] as int,
        ) by {
            if k > 0 {
                assert(cs.drop_first()[k - 1] == cs[k]);
                assert(mat_children(arena, cs, i)[k] == mat_children(arena, cs.drop_first(), i)[k
                    - 1]);
            }
        }
    }
}

/// Appends a fresh directory node and hands back its index.
pub fn push_dir(arena: &mut Vec<TmpNode>, name: &str) -> (idx: usize)
    ensures
        idx == old(arena)@.len(),
        final(arena)@.len() == old(arena)@.len() + 1,
        forall|i: int| 0 <= i < old(arena)@.len() ==> final(arena)@[i] == old(arena)@[i],
        final(arena)@[idx as int].name@ == name@,
        final(arena)@[idx as int].is_dir,
        final(arena)@[idx as int].size == 0,
        final(arena)@[idx as int].children@.len() == 0,
{
    let idx = arena.len();
    arena.push(TmpNode { name: name.to_owned(), size: 0, is_dir: true, children: Vec::new() });
    idx
}

/// Appends a fresh file node and hands back its index.
pub fn push_file(arena: &mut Vec<TmpNode>, name: &str, size: u64) -> (idx: usize)
    ensures
        idx == old(arena)@.len(),
        final(arena)@.len() == old(arena)@.len() + 1,
        forall|i: int| 0 <= i < old(arena)@.len() ==> final(arena)@[i] == old(arena)@[i],
        final(arena)@[idx as int].name@ == name@,
        !final(arena)@[idx as int].is_dir,
        final(arena)@[idx as int].size == size,
        final(arena)@[idx as int].children@.len() == 0,
{
    let idx = arena.len();
    arena.push(TmpNode { name: name.to_owned(), size, is_dir: false, children: Vec::new() });
    idx
}

/// Links `child_idx` as the next child of `parent_idx`; out-of-range
/// parents are ignored.
pub fn push_child(parent_idx: usize, child_idx: usize, arena: &mut Vec<TmpNode>)
    ensures
        parent_idx < old(arena)@.len() ==> {
            &&& final(arena)@.len() == old(arena)@.len()
            &&& forall|i: int|
                0 <= i < old(arena)@.len() && i != parent_idx ==> final(arena)@[i] == old(
                    arena,
                )@[i]
            &&& final(arena)@[parent_idx as int].name == old(arena)@[parent_idx as int].name
            &&& final(arena)@[parent_idx as int].size == old(arena)@[parent_idx as int].size
            &&& final(arena)@[parent_idx as int].is_dir == old(arena)@[parent_idx as int].is_dir
            &&& final(arena)@[parent_idx as int].children@ == old(
                arena,
            )@[parent_idx as int].children@.push(child_idx)
        },
        parent_idx >= old(arena)@.len() ==> final(arena)@ == old(arena)@,
{
    if parent_idx < arena.len() {
        let mut node = arena.remove(parent_idx);
        node.children.push(child_idx);
        arena.insert(parent_idx, node);
        proof {
            assert forall|i: int|
                0 <= i < old(arena)@.len() && i != parent_idx implies arena@[i] == old(
                arena,
            )@[i] by {}
        }
    }
}

/// Converts the store into the final owned tree, rooted at `idx`,
/// matching `mat_spec`.
#[verifier::loop_isolation(false)]
pub fn materialize(idx: usize, arena: &Vec<TmpNode>) -> (r: Node)
    requires
        arena_wf(arena@),
        idx < arena@.len(),
    ensures
        node_view(r) == mat_spec(arena@, idx as int),
        r.children is Some <==> arena@[idx as int].is_dir,
        crate::node::tree_shape_ok(r),
    decreases arena@.len() - idx,
{
    let tmp = &arena[idx];
    if tmp.is_dir {
        let mut kids: Vec<Node> = Vec::new();
        let len = tmp.children.len();
        let mut j: usize = 0;
        while j < len
            invariant
                j <= len,
                len == tmp.children@.len(),
                kids@.len() == j,
                forall|k: int|
                    0 <= k < j ==> node_view(#[trigger] kids@[k]) == mat_spec(
                        arena@,
                        tmp.children@[k] as int,
                    ),
                forall|k: int| 0 <= k < j ==> crate::node::tree_shape_ok(#[trigger] kids@[k]),
            decreases len - j,
        {
            let c = tmp.children[j];
            proof {
                assert(arena@[idx as int].children@[j as int] == c);
                assert(idx < c < arena@.len());
            }
            kids.push(materialize(c, arena));
            j += 1;
        }
        proof {
            assert forall|k: int| 0 <= k < tmp.children@.len() implies idx
                < #[trigger] tmp.children@[k] < arena@.len() by {
                assert(arena@[idx as int].children@[k] == tmp.children@[k]);
            }
            lemma_mat_children_index(arena@, tmp.children@, idx as int);
            crate::node::lemma_nodes_view_index(kids@);
            assert(nodes_view(kids@) =~= mat_children(arena@, tmp.children@, idx as int));
            crate::node::lemma_shape_seq_iff(kids@);
        }
        let r = Node::new_dir(tmp.name.as_str(), kids);
        proof {
            assert(node_view(r) =~= mat_spec(arena@, idx as int));
            assert(crate::node::tree_shape_ok(r));
        }
        r
    } else {
        let r = Node::new_file(tmp.name.as_str(), tmp.size);
        proof {
            assert(node_view(r) =~= mat_spec(arena@, idx as int));
            assert(crate::node::tree_shape_ok(r));
        }
        r
    }
}

/// One record of the path-to-index mapping used during construction.
#[derive(Debug)]
pub struct PathIndex {
    pub path: Vec<String>,
    pub idx: usize,
}

/// Whether the mapping knows the given path.
pub open spec fn map_has_path(map: Seq<PathIndex>, p: Seq<Seq<char>>) -> bool {
    exists|k: int| 0 <= k < map.len() && path_view(#[trigger] map[k].path@) == p
}

/// Whether the mapping records exactly index `i` for path `p`.
pub open spec fn map_maps_to(map: Seq<PathIndex>, p: Seq<Seq<char>>, i: int) -> bool {
    exists|k: int|
        0 <= k < map.len() && path_view(#[trigger] map[k].path@) == p && map[k].idx == i
}

/// No two mapping records share a path.
pub open spec fn map_distinct(map: Seq<PathIndex>) -> bool {
    forall|k1: int, k2: int|
        0 <= k1 < k2 < map.len() ==> path_view(#[trigger] map[k1].path@) != path_view(
            #[trigger] map[k2].path@,
        )
}

/// Every directory node of the store has a mapping record.
pub open spec fn dirs_recorded(arena: Seq<TmpNode>, map: Seq<PathIndex>) -> bool {
    forall|i: int|
        0 <= i < arena.len() && (#[trigger] arena[i].is_dir) ==> exists|k: int|
            0 <= k < map.len() && (#[trigger] map[k].idx) == i
}

/// No node lists the same child twice.
pub open spec fn children_distinct(arena: Seq<TmpNode>) -> bool {
    forall|i: int, j1: int, j2: int|
        #![trigger arena[i].children@[j1], arena[i].children@[j2]]
        0 <= i < arena.len() && 0 <= j1 < j2 < arena[i].children@.len() ==> arena[i].children@[j1]
            != arena[i].children@[j2]
}

/// Every child link points forward and extends its parent's path by
/// exactly the child's own name.
pub open spec fn links_ok(arena: Seq<TmpNode>, paths: Seq<Seq<Seq<char>>>) -> bool {
    forall|i: int, j: int|
        #![trigger arena[i].children@[j]]
        0 <= i < arena.len() && 0 <= j < arena[i].children@.len() ==> {
            let c = arena[i].children@[j] as int;
            &&& i < c < arena.len()
            &&& arena[i].is_dir
            &&& paths[c] == paths[i].push(arena[c].name@)
        }
}

/// Whether some parent in the store links to `c`.
pub open spec fn is_linked(arena: Seq<TmpNode>, c: int) -> bool {
    exists|i: int, j: int|
        #![trigger arena[i].children@[j]]
        0 <= i < arena.len() && 0 <= j < arena[i].children@.len() && arena[i].children@[j] == c
}

/// One mapping record is consistent with the store.
pub open spec fn map_entry_ok(arena: Seq<TmpNode>, paths: Seq<Seq<Seq<char>>>, pe: PathIndex)
    -> bool {
    &&& pe.idx < arena.len()
    &&& arena[pe.idx as int].is_dir
    &&& paths[pe.idx as int] == path_view(pe.path@)
}

/// The construction invariant: one root at index zero with the empty
/// path, forward links that extend paths segment by segment, every
/// non-root node linked from somewhere, and a mapping whose records
/// are consistent, closed under parents, and know the root.
pub open spec fn builder_inv(
    arena: Seq<TmpNode>,
    map: Seq<PathIndex>,
    paths: Seq<Seq<Seq<char>>>,
) -> bool {
    &&& paths.len() == arena.len()
    &&& arena.len() >= 1
    &&& paths[0].len() == 0
    &&& arena[0].is_dir
    &&& links_ok(arena, paths)
    &&& forall|c: int| 1 <= c < arena.len() ==> #[trigger] is_linked(arena, c)
    &&& forall|k: int| 0 <= k < map.len() ==> map_entry_ok(arena, paths, #[trigger] map[k])
    &&& map_has_path(map, Seq::<Seq<char>>::empty())
    &&& forall|k: int|
        0 <= k < map.len() && path_view(#[trigger] map[k].path@).len() > 0 ==> map_has_path(
            map,
            path_view(map[k].path@).drop_last(),
        )
    &&& map_distinct(map)
    &&& dirs_recorded(arena, map)
    &&& children_distinct(arena)
}

/// Forward links with path extension imply plain forward links.
pub proof fn lemma_links_ok_arena_wf(arena: Seq<TmpNode>, paths: Seq<Seq<Seq<char>>>)
    requires
        links_ok(arena, paths),
    ensures
        arena_wf(arena),
{
}

/// `a` is an initial run of `b`.
pub open spec fn is_path_prefix(a: Seq<Seq<char>>, b: Seq<Seq<char>>) -> bool {
    a.len() <= b.len() && a == b.take(a.len() as int)
}

/// One store node extends another: same payload, children only
/// appended.
pub open spec fn node_extends(x: TmpNode, y: TmpNode) -> bool {
    &&& y.name == x.name
    &&& y.size == x.size
    &&& y.is_dir == x.is_dir
    &&& x.children@.len() <= y.children@.len()
    &&& y.children@.take(x.children@.len() as int) == x.children@
}

/// The store only grows: old nodes keep their payload and their
/// existing child links.
pub open spec fn arena_extends(a: Seq<TmpNode>, b: Seq<TmpNode>) -> bool {
    &&& a.len() <= b.len()
    &&& forall|i: int| 0 <= i < a.len() ==> node_extends(#[trigger] a[i], b[i])
}

/// Looks a path up in the mapping.
pub fn find_path(map: &Vec<PathIndex>, dir: &Vec<String>) -> (r: Option<usize>)
    ensures
        match r {
            Some(i) => exists|k: int|
                0 <= k < map@.len() && path_view(#[trigger] map@[k].path@) == path_view(dir@)
                    && map@[k].idx == i,
            None => !map_has_path(map@, path_view(dir@)),
        },
{
    let len = map.len();
    let mut k: usize = 0;
    while k < len
        invariant
            k <= len,
            len == map@.len(),
            forall|j: int| 0 <= j < k ==> path_view(#[trigger] map@[j].path@) != path_view(dir@),
        decreases len - k,
    {
        if path_eq(&map[k].path, dir) {
            return Some(map[k].idx);
        }
        k += 1;
    }
    None
}

/// Paths of segment sequences: dropping the last segment commutes
/// with taking views.
pub proof fn lemma_path_view_drop_last(p: Seq<String>)
    requires
        p.len() >= 1,
    ensures
        path_view(p.drop_last()) == path_view(p).drop_last(),
        path_view(p) == path_view(p).drop_last().push(path_view(p).last()),
{
    assert(path_view(p.drop_last()) =~= path_view(p).drop_last());
    assert(path_view(p) =~= path_view(p).drop_last().push(path_view(p).last()));
}

/// Resolves the index of the directory at `dir` (segments relative to
/// the root), creating it and any missing ancestors first: idempotent,
/// and never reaching above the root.
pub fn ensure_dir_idx(
    dir: &Vec<String>,
    nodes_by_path: &mut Vec<PathIndex>,
    arena: &mut Vec<TmpNode>,
    paths_in: Ghost<Seq<Seq<Seq<char>>>>,
) -> (res: (usize, Ghost<Seq<Seq<Seq<char>>>>))
    requires
        builder_inv(old(arena)@, old(nodes_by_path)@, paths_in@),
    ensures
        builder_inv(final(arena)@, final(nodes_by_path)@, res.1@),
        res.0 < final(arena)@.len(),
        final(arena)@[res.0 as int].is_dir,
        res.1@[res.0 as int] == path_view(dir@),
        map_has_path(final(nodes_by_path)@, path_view(dir@)),
        res.1@.len() == final(arena)@.len(),
        arena_extends(old(arena)@, final(arena)@),
        forall|i: int| 0 <= i < old(arena)@.len() ==> res.1@[i] == paths_in@[i],
        final(nodes_by_path)@.len() >= old(nodes_by_path)@.len(),
        forall|k: int|
            0 <= k < old(nodes_by_path)@.len() ==> final(nodes_by_path)@[k] == old(
                nodes_by_path,
            )@[k],
        forall|i: int|
            old(arena)@.len() <= i < final(arena)@.len() ==> is_path_prefix(
                #[trigger] res.1@[i],
                path_view(dir@),
            ) && res.1@[i].len() >= 1,
        map_maps_to(final(nodes_by_path)@, path_view(dir@), res.0 as int),
        dir@.len() > 0 ==> final(arena)@[res.0 as int].name@ == path_view(dir@).last(),
        map_has_path(old(nodes_by_path)@, path_view(dir@)) ==> final(arena)@ == old(arena)@
            && final(nodes_by_path)@ == old(nodes_by_path)@ && res.1@ == paths_in@
            && map_maps_to(old(nodes_by_path)@, path_view(dir@), res.0 as int),
        !map_has_path(old(nodes_by_path)@, path_view(dir@)) ==> res.0 >= old(arena)@.len()
            && final(arena)@[res.0 as int].children@.len() == 0,
        forall|i: int|
            old(arena)@.len() <= i < final(arena)@.len() ==> !map_has_path(
                old(nodes_by_path)@,
                #[trigger] res.1@[i],
            ) && map_maps_to(final(nodes_by_path)@, res.1@[i], i),
    decreases dir@.len(),
{
    let ghost paths = paths_in@;
    let found = find_path(nodes_by_path, dir);
    if let Some(i) = found {
        proof {
            let k = choose|k: int|
                0 <= k < nodes_by_path@.len() && path_view(#[trigger] nodes_by_path@[k].path@)
                    == path_view(dir@) && nodes_by_path@[k].idx == i;
            assert(map_entry_ok(arena@, paths, nodes_by_path@[k]));
            assert(map_maps_to(nodes_by_path@, path_view(dir@), i as int));
            lemma_arena_extends_refl(arena@);
            if dir@.len() > 0 {
                assert(paths[i as int].len() > 0);
                assert(i as int != 0);
                assert(is_linked(arena@, i as int));
                let (li, lj): (int, int) = choose|li: int, lj: int|
                    #![trigger arena@[li].children@[lj]]
                    0 <= li < arena@.len() && 0 <= lj < arena@[li].children@.len()
                        && arena@[li].children@[lj] == i as int;
                assert(paths[i as int] == paths[li].push(arena@[i as int].name@));
                assert(arena@[i as int].name@ == path_view(dir@).last());
            }
        }
        return (i, Ghost(paths));
    }
    if dir.len() == 0 {
        proof {
            // the root path is always recorded, so this lookup cannot
            // have missed it
            assert(path_view(dir@) =~= Seq::<Seq<char>>::empty());
            assert(false);
        }
        return (0, Ghost(paths));
    }
    let parent = parent_path(dir);
    proof {
        lemma_path_view_drop_last(dir@);
    }
    let r = ensure_dir_idx(&parent, nodes_by_path, arena, Ghost(paths));
    let p_idx = r.0;
    let ghost paths1 = r.1@;
    let ghost arena1 = arena@;
    let ghost map1 = nodes_by_path@;
    let name = file_name_str(dir);
    let idx = push_dir(arena, name.as_str());
    let ghost paths2 = paths1.push(path_view(dir@));
    let pe = PathIndex { path: clone_path(dir), idx };
    nodes_by_path.push(pe);
    push_child(p_idx, idx, arena);
    proof {
        let dirp = path_view(dir@);
        assert(!map_has_path(map1, dirp)) by {
            if map_has_path(map1, dirp) {
                let k = choose|k: int|
                    0 <= k < map1.len() && path_view(#[trigger] map1[k].path@) == dirp;
                assert(map_entry_ok(arena1, paths1, map1[k]));
                let ix = map1[k].idx as int;
                assert(paths1[ix] == dirp);
                if ix < old(arena)@.len() {
                    assert(paths1[ix] == paths_in@[ix]);
                    assert(node_extends(old(arena)@[ix], arena1[ix]));
                    assert(old(arena)@[ix].is_dir);
                    let k0 = choose|k0: int|
                        0 <= k0 < old(nodes_by_path)@.len() && (#[trigger] old(
                            nodes_by_path,
                        )@[k0].idx) == ix;
                    assert(map_entry_ok(old(arena)@, paths_in@, old(nodes_by_path)@[k0]));
                    assert(path_view(old(nodes_by_path)@[k0].path@) == dirp);
                    assert(map_has_path(old(nodes_by_path)@, dirp));
                } else {
                    assert(is_path_prefix(paths1[ix], path_view(parent@)));
                    assert(paths1[ix].len() < dirp.len());
                }
            }
        }
        lemma_ensure_post(
            arena1,
            map1,
            paths1,
            arena@,
            nodes_by_path@,
            paths2,
            p_idx as int,
            idx as int,
            dirp,
        );
        lemma_arena_extends_trans(old(arena)@, arena1, arena@);
        assert forall|i: int|
            old(arena)@.len() <= i < arena@.len() implies is_path_prefix(
            #[trigger] paths2[i],
            dirp,
        ) && paths2[i].len() >= 1 by {
            if i < arena1.len() {
                assert(is_path_prefix(paths1[i], path_view(parent@)));
                lemma_prefix_through_parent(paths1[i], dirp);
            } else {
                assert(paths2[i] == dirp);
                assert(dirp.take(dirp.len() as int) =~= dirp);
            }
        }
        assert forall|i: int|
            old(arena)@.len() <= i < arena@.len() implies !map_has_path(
            old(nodes_by_path)@,
            #[trigger] paths2[i],
        ) && map_maps_to(nodes_by_path@, paths2[i], i) by {
            if i < arena1.len() {
                assert(map_maps_to(map1, paths1[i], i));
                let k = choose|k: int|
                    0 <= k < map1.len() && path_view(#[trigger] map1[k].path@) == paths1[i]
                        && map1[k].idx == i;
                assert(nodes_by_path@[k] == map1[k]);
                assert(map_maps_to(nodes_by_path@, paths2[i], i));
            } else {
                assert(paths2[i] == dirp);
            }
        }
    }
    (idx, Ghost(paths2))
}

/// A store extends itself.
pub proof fn lemma_arena_extends_refl(a: Seq<TmpNode>)
    ensures
        arena_extends(a, a),
{
    assert forall|i: int| 0 <= i < a.len() implies node_extends(#[trigger] a[i], a[i]) by {
        assert(a[i].children@.take(a[i].children@.len() as int) =~= a[i].children@);
    }
}

/// Extension of store nodes composes.
pub proof fn lemma_arena_extends_trans(a: Seq<TmpNode>, b: Seq<TmpNode>, c: Seq<TmpNode>)
    requires
        arena_extends(a, b),
        arena_extends(b, c),
    ensures
        arena_extends(a, c),
{
    assert forall|i: int| 0 <= i < a.len() implies node_extends(#[trigger] a[i], c[i]) by {
        assert(node_extends(a[i], b[i]));
        assert(node_extends(b[i], c[i]));
        assert(c[i].children@.take(a[i].children@.len() as int) =~= b[i].children@.take(
            a[i].children@.len() as int,
        ));
    }
}

/// A prefix of a parent path is a prefix of the full path.
pub proof fn lemma_prefix_through_parent(a: Seq<Seq<char>>, b: Seq<Seq<char>>)
    requires
        b.len() >= 1,
        is_path_prefix(a, b.drop_last()),
    ensures
        is_path_prefix(a, b),
{
    assert(b.take(a.len() as int) =~= b.drop_last().take(a.len() as int));
}

/// Re-establishes the invariant and the growth facts after a new
/// directory node has been created, recorded, and linked under its
/// resolved parent: `arena1`/`map1`/`paths1` are the state the parent
/// resolution left behind, `arena2`/`map2`/`paths2` the state after
/// the new node at `idx` was pushed, recorded, and linked.
proof fn lemma_ensure_post(
    arena1: Seq<TmpNode>,
    map1: Seq<PathIndex>,
    paths1: Seq<Seq<Seq<char>>>,
    arena2: Seq<TmpNode>,
    map2: Seq<PathIndex>,
    paths2: Seq<Seq<Seq<char>>>,
    p_idx: int,
    idx: int,
    dirp: Seq<Seq<char>>,
)
    requires
        builder_inv(arena1, map1, paths1),
        dirp.len() >= 1,
        0 <= p_idx < arena1.len(),
        arena1[p_idx].is_dir,
        paths1[p_idx] == dirp.drop_last(),
        idx == arena1.len(),
        paths2 == paths1.push(dirp),
        arena2.len() == arena1.len() + 1,
        forall|i: int| 0 <= i < arena1.len() && i != p_idx ==> arena2[i] == arena1[i],
        arena2[p_idx].name == arena1[p_idx].name,
        arena2[p_idx].size == arena1[p_idx].size,
        arena2[p_idx].is_dir == arena1[p_idx].is_dir,
        arena2[p_idx].children@ == arena1[p_idx].children@.push(idx as usize),
        arena2[idx].is_dir,
        arena2[idx].name@ == dirp.last(),
        arena2[idx].children@.len() == 0,
        map2.len() == map1.len() + 1,
        forall|k: int| 0 <= k < map1.len() ==> map2[k] == map1[k],
        path_view(map2[map1.len() as int].path@) == dirp,
        map2[map1.len() as int].idx == idx,
        map_has_path(map1, dirp.drop_last()),
        !map_has_path(map1, dirp),
    ensures
        builder_inv(arena2, map2, paths2),
        arena_extends(arena1, arena2),
        map_has_path(map2, dirp),
        map_maps_to(map2, dirp, idx),
        paths2[idx] == dirp,
{
    // the new record does not clash with any earlier one
    assert forall|k1: int, k2: int|
        0 <= k1 < k2 < map2.len() implies path_view(#[trigger] map2[k1].path@) != path_view(
        #[trigger] map2[k2].path@,
    ) by {
        if k2 == map1.len() {
            if path_view(map2[k1].path@) == dirp {
                assert(map_has_path(map1, dirp));
            }
        }
    }
    // every directory keeps (or gains) its record
    assert forall|i: int|
        0 <= i < arena2.len() && (#[trigger] arena2[i].is_dir) implies exists|k: int|
        0 <= k < map2.len() && (#[trigger] map2[k].idx) == i by {
        if i == idx {
            assert(map2[map1.len() as int].idx == i);
        } else {
            assert(arena1[i].is_dir);
            let k = choose|k: int| 0 <= k < map1.len() && (#[trigger] map1[k].idx) == i;
            assert(map2[k].idx == i);
        }
    }
    // the appended link is fresh, so child lists stay duplicate-free
    assert forall|i: int, j1: int, j2: int|
        #![trigger arena2[i].children@[j1], arena2[i].children@[j2]]
        0 <= i < arena2.len() && 0 <= j1 < j2 < arena2[i].children@.len()
        implies arena2[i].children@[j1] != arena2[i].children@[j2] by {
        if i == p_idx {
            if j2 == arena1[p_idx].children@.len() {
                assert(arena2[i].children@[j1] == arena1[i].children@[j1]);
                assert((arena1[i].children@[j1] as int) < arena1.len());
            } else {
                assert(arena2[i].children@[j1] == arena1[i].children@[j1]);
                assert(arena2[i].children@[j2] == arena1[i].children@[j2]);
            }
        } else if i == idx {
            assert(false);
        } else {
            assert(arena2[i] == arena1[i]);
        }
    }
    assert(map_maps_to(map2, dirp, idx));
    // links stay forward and path-extending
    assert forall|i: int, j: int|
        #![trigger arena2[i].children@[j]]
        0 <= i < arena2.len() && 0 <= j < arena2[i].children@.len() implies {
        let c = arena2[i].children@[j] as int;
        &&& i < c < arena2.len()
        &&& paths2[c] == paths2[i].push(arena2[c].name@)
    } by {
        let c = arena2[i].children@[j] as int;
        if i == p_idx && j == arena1[p_idx].children@.len() {
            assert(c == idx);
            assert(paths2[idx] == dirp);
            assert(paths2[p_idx] == dirp.drop_last());
            assert(dirp =~= dirp.drop_last().push(dirp.last()));
        } else if i == idx {
            assert(false);
        } else if i == p_idx {
            assert(arena2[i].children@[j] == arena1[i].children@[j]);
            let c1 = arena1[i].children@[j] as int;
            assert(i < c1 < arena1.len());
            assert(paths1[c1] == paths1[i].push(arena1[c1].name@));
            assert(c1 != idx);
            if c1 == p_idx {
                assert(false);
            }
            assert(arena2[c1].name == arena1[c1].name);
        } else {
            assert(arena2[i] == arena1[i]);
            let c1 = arena1[i].children@[j] as int;
            assert(i < c1 < arena1.len());
            assert(paths1[c1] == paths1[i].push(arena1[c1].name@));
            if c1 == p_idx {
            } else {
                assert(arena2[c1] == arena1[c1]);
            }
        }
    }
    // every non-root node is linked from somewhere
    assert forall|c: int| 1 <= c < arena2.len() implies #[trigger] is_linked(arena2, c) by {
        if c == idx {
            assert(arena2[p_idx].children@[arena1[p_idx].children@.len() as int] == idx as usize);
            assert(is_linked(arena2, c));
        } else {
            assert(is_linked(arena1, c));
            let (i, j): (int, int) = choose|i: int, j: int|
                #![trigger arena1[i].children@[j]]
                0 <= i < arena1.len() && 0 <= j < arena1[i].children@.len()
                    && arena1[i].children@[j] == c;
            if i == p_idx {
                assert(arena2[i].children@[j] == arena1[i].children@[j]);
                assert(is_linked(arena2, c));
            } else {
                assert(arena2[i] == arena1[i]);
                assert(arena2[i].children@[j] == c);
                assert(is_linked(arena2, c));
            }
        }
    }
    // mapping records stay consistent
    assert forall|k: int| 0 <= k < map2.len() implies map_entry_ok(arena2, paths2, #[trigger] map2[k]) by {
        if k < map1.len() {
            assert(map_entry_ok(arena1, paths1, map1[k]));
            let pi = map1[k].idx as int;
            if pi == p_idx {
            } else {
                assert(arena2[pi] == arena1[pi]);
            }
        } else {
            assert(map2[k].idx == idx);
        }
    }
    // the mapping still knows the root
    let k0 = choose|k: int|
        0 <= k < map1.len() && path_view(#[trigger] map1[k].path@) == Seq::<Seq<char>>::empty();
    assert(path_view(map2[k0].path@) == Seq::<Seq<char>>::empty());
    assert(map_has_path(map2, Seq::<Seq<char>>::empty()));
    // the mapping stays closed under parents
    assert forall|k: int|
        0 <= k < map2.len() && path_view(#[trigger] map2[k].path@).len() > 0 implies map_has_path(
        map2,
        path_view(map2[k].path@).drop_last(),
    ) by {
        if k < map1.len() {
            assert(map_has_path(map1, path_view(map1[k].path@).drop_last()));
            let k2 = choose|k2: int|
                0 <= k2 < map1.len() && path_view(#[trigger] map1[k2].path@) == path_view(
                    map1[k].path@,
                ).drop_last();
            assert(path_view(map2[k2].path@) == path_view(map2[k].path@).drop_last());
            assert(map_has_path(map2, path_view(map2[k].path@).drop_last()));
        } else {
            // the new record: its parent is the resolved parent path
            assert(path_view(map2[k].path@) == dirp);
            assert(map_has_path(map1, dirp.drop_last()));
            let k2 = choose|k2: int|
                0 <= k2 < map1.len() && path_view(#[trigger] map1[k2].path@) == dirp.drop_last();
            assert(path_view(map2[k2].path@) == dirp.drop_last());
            assert(map_has_path(map2, path_view(map2[k].path@).drop_last()));
        }
    }
    // the old store is extended, not rewritten
    assert forall|i: int| 0 <= i < arena1.len() implies node_extends(#[trigger] arena1[i], arena2[i]) by {
        if i == p_idx {
            assert(arena2[i].children@.take(arena1[i].children@.len() as int)
                =~= arena1[i].children@);
        } else {
            assert(arena2[i] == arena1[i]);
            assert(arena2[i].children@.take(arena1[i].children@.len() as int)
                =~= arena1[i].children@);
        }
    }
    assert(map_has_path(map2, dirp));
}

/// No node of the subtree hangs more than `d` levels below its root.
pub open spec fn depth_bounded(v: NodeView, d: int) -> bool
    decreases v, 0int,
{
    depth_bounded_seq(v.children, d)
}

/// All subtrees of the list fit within `d` levels, themselves
/// included.
pub open spec fn depth_bounded_seq(cs: Seq<NodeView>, d: int) -> bool
    decreases cs, 1int,
{
    if cs.len() == 0 {
        true
    } else {
        &&& d >= 1
        &&& depth_bounded(cs[0], d - 1)
        &&& depth_bounded_seq(cs.drop_first(), d)
    }
}

/// Every non-root node named after the version-control metadata
/// directory is a leaf.
pub open spec fn vcs_childless(v: NodeView) -> bool
    decreases v, 0int,
{
    vcs_childless_seq(v.children)
}

/// The same, over a list of sibling subtrees.
pub open spec fn vcs_childless_seq(cs: Seq<NodeView>) -> bool
    decreases cs, 1int,
{
    if cs.len() == 0 {
        true
    } else {
        &&& (cs[0].name == ".git"@ ==> cs[0].children.len() == 0)
        &&& vcs_childless(cs[0])
        &&& vcs_childless_seq(cs.drop_first())
    }
}

/// Following the names of `p` from `t` downward ends at subtree `s`.
pub open spec fn reaches(t: NodeView, p: Seq<Seq<char>>, s: NodeView) -> bool
    decreases p.len(),
{
    if p.len() == 0 {
        s == t
    } else {
        exists|k: int|
            0 <= k < t.children.len() && (#[trigger] t.children[k]).name == p[0] && reaches(
                t.children[k],
                p.drop_first(),
                s,
            )
    }
}

/// A directory node stands at path `p` of the tree.
pub open spec fn has_dir_at(t: NodeView, p: Seq<Seq<char>>) -> bool {
    exists|s: NodeView| #[trigger] reaches(t, p, s) && s.kind == Kind::Dir
}

/// A file node of the given size stands at path `p` of the tree.
pub open spec fn has_file_at(t: NodeView, p: Seq<Seq<char>>, size: u64) -> bool {
    exists|s: NodeView| #[trigger] reaches(t, p, s) && s.kind == Kind::File && s.size == Some(
        size,
    )
}

/// Pointwise bounds over a child list give the list-wide bound.
proof fn lemma_depth_seq_pointwise(cs: Seq<NodeView>, d: int)
    requires
        forall|k: int| 0 <= k < cs.len() ==> depth_bounded(#[trigger] cs[k], d - 1),
        cs.len() > 0 ==> d >= 1,
    ensures
        depth_bounded_seq(cs, d),
    decreases cs.len(),
{
    if cs.len() > 0 {
        assert forall|k: int| 0 <= k < cs.drop_first().len() implies depth_bounded(
            #[trigger] cs.drop_first()[k],
            d - 1,
        ) by {
            assert(cs.drop_first()[k] == cs[k + 1]);
        }
        lemma_depth_seq_pointwise(cs.drop_first(), d);
    }
}

/// Pointwise leaf-ness and recursion over a child list give the
/// list-wide property.
proof fn lemma_vcs_seq_pointwise(cs: Seq<NodeView>)
    requires
        forall|k: int| 0 <= k < cs.len() ==> ((#[trigger] cs[k]).name == ".git"@ ==> cs[k].children.len() == 0),
        forall|k: int| 0 <= k < cs.len() ==> vcs_childless(#[trigger] cs[k]),
    ensures
        vcs_childless_seq(cs),
    decreases cs.len(),
{
    if cs.len() > 0 {
        assert forall|k: int| 0 <= k < cs.drop_first().len() implies vcs_childless(
            #[trigger] cs.drop_first()[k],
        ) && (cs.drop_first()[k].name == ".git"@ ==> cs.drop_first()[k].children.len() == 0) by {
            assert(cs.drop_first()[k] == cs[k + 1]);
        }
        lemma_vcs_seq_pointwise(cs.drop_first());
    }
}

/// The core store consistency that the transfer lemmas rest on.
pub open spec fn store_ok(arena: Seq<TmpNode>, paths: Seq<Seq<Seq<char>>>) -> bool {
    &&& paths.len() == arena.len()
    &&& arena.len() >= 1
    &&& paths[0].len() == 0
    &&& arena[0].is_dir
    &&& links_ok(arena, paths)
    &&& forall|c: int| 1 <= c < arena.len() ==> #[trigger] is_linked(arena, c)
}

/// The children of node `c` all satisfy the preconditions of the
/// child-list spec.
proof fn lemma_children_in_range(arena: Seq<TmpNode>, paths: Seq<Seq<Seq<char>>>, c: int)
    requires
        store_ok(arena, paths),
        0 <= c < arena.len(),
    ensures
        forall|k: int|
            0 <= k < arena[c].children@.len() ==> c < #[trigger] arena[c].children@[k]
                < arena.len(),
{
    assert forall|k: int| 0 <= k < arena[c].children@.len() implies c
        < #[trigger] arena[c].children@[k] < arena.len() by {
        assert(0 <= c < arena.len() && 0 <= k < arena[c].children@.len());
    }
}

/// Materialization respects a uniform bound on path depths.
proof fn lemma_mat_depth(arena: Seq<TmpNode>, paths: Seq<Seq<Seq<char>>>, c: int, dmax: int)
    requires
        store_ok(arena, paths),
        0 <= c < arena.len(),
        forall|i: int| 0 <= i < paths.len() ==> (#[trigger] paths[i]).len() <= dmax,
    ensures
        depth_bounded(mat_spec(arena, c), dmax - paths[c].len()),
    decreases arena.len() - c,
{
    lemma_links_ok_arena_wf(arena, paths);
    let v = mat_spec(arena, c);
    if arena[c].is_dir {
        let cs = arena[c].children@;
        lemma_children_in_range(arena, paths, c);
        lemma_mat_children_index(arena, cs, c);
        assert forall|k: int| 0 <= k < v.children.len() implies depth_bounded(
            #[trigger] v.children[k],
            dmax - paths[c].len() - 1,
        ) by {
            let x = cs[k] as int;
            assert(paths[x] == paths[c].push(arena[x].name@));
            lemma_mat_depth(arena, paths, x, dmax);
        }
        if v.children.len() > 0 {
            let x = cs[0] as int;
            assert(paths[x] == paths[c].push(arena[x].name@));
            assert(paths[x].len() <= dmax);
        }
        lemma_depth_seq_pointwise(v.children, dmax - paths[c].len());
    }
}

/// Whether a path has no proper segment equal to the metadata
/// directory name.
pub open spec fn vcs_prefix_free(p: Seq<Seq<char>>) -> bool {
    forall|k: int| 0 <= k < p.len() - 1 ==> #[trigger] p[k] != ".git"@
}

/// Materialization keeps metadata-directory nodes childless when no
/// stored path passes through one.
proof fn lemma_mat_vcs(arena: Seq<TmpNode>, paths: Seq<Seq<Seq<char>>>, c: int)
    requires
        store_ok(arena, paths),
        0 <= c < arena.len(),
        forall|i: int| 0 <= i < paths.len() ==> vcs_prefix_free(#[trigger] paths[i]),
    ensures
        vcs_childless(mat_spec(arena, c)),
    decreases arena.len() - c,
{
    lemma_links_ok_arena_wf(arena, paths);
    let v = mat_spec(arena, c);
    if arena[c].is_dir {
        let cs = arena[c].children@;
        lemma_children_in_range(arena, paths, c);
        lemma_mat_children_index(arena, cs, c);
        assert forall|k: int| 0 <= k < v.children.len() implies vcs_childless(
            #[trigger] v.children[k],
        ) && (v.children[k].name == ".git"@ ==> v.children[k].children.len() == 0) by {
            let x = cs[k] as int;
            lemma_mat_vcs(arena, paths, x);
            if v.children[k].name == ".git"@ {
                // a child of `x` would put `.git` at a proper position
                assert(paths[x] == paths[c].push(arena[x].name@));
                if arena[x].children@.len() > 0 {
                    let y = arena[x].children@[0] as int;
                    assert(paths[y] == paths[x].push(arena[y].name@));
                    assert(paths[y][paths[x].len() - 1] == ".git"@);
                    assert(false);
                }
                if arena[x].is_dir {
                    lemma_mat_children_index(arena, arena[x].children@, x);
                }
            }
        }
        lemma_vcs_seq_pointwise(v.children);
    }
}

/// Materialized trees are well formed: directories carry children
/// and no size, files carry a size and no children, and nothing is
/// annotated yet.
proof fn lemma_mat_wf(arena: Seq<TmpNode>, paths: Seq<Seq<Seq<char>>>, c: int)
    requires
        store_ok(arena, paths),
        0 <= c < arena.len(),
    ensures
        crate::node::wf_node(mat_spec(arena, c)),
    decreases arena.len() - c,
{
    lemma_links_ok_arena_wf(arena, paths);
    let v = mat_spec(arena, c);
    crate::node::lemma_wf_nodes_iff(v.children);
    if arena[c].is_dir {
        let cs = arena[c].children@;
        lemma_children_in_range(arena, paths, c);
        lemma_mat_children_index(arena, cs, c);
        assert forall|k: int| 0 <= k < v.children.len() implies crate::node::wf_node(
            #[trigger] v.children[k],
        ) by {
            lemma_mat_wf(arena, paths, cs[k] as int);
        }
    }
}

/// Materialized trees carry no version-control annotation yet.
proof fn lemma_mat_unannotated(arena: Seq<TmpNode>, paths: Seq<Seq<Seq<char>>>, c: int)
    requires
        store_ok(arena, paths),
        0 <= c < arena.len(),
    ensures
        crate::node::unannotated(mat_spec(arena, c)),
    decreases arena.len() - c,
{
    lemma_links_ok_arena_wf(arena, paths);
    let v = mat_spec(arena, c);
    crate::node::lemma_unannotated_seq_iff(v.children);
    if arena[c].is_dir {
        let cs = arena[c].children@;
        lemma_children_in_range(arena, paths, c);
        lemma_mat_children_index(arena, cs, c);
        assert forall|k: int| 0 <= k < v.children.len() implies crate::node::unannotated(
            #[trigger] v.children[k],
        ) by {
            lemma_mat_unannotated(arena, paths, cs[k] as int);
        }
    }
}

/// Every subtree of the materialized root is itself a materialized
/// store node, sitting at its own recorded path.
proof fn lemma_mat_reach_converse(
    arena: Seq<TmpNode>,
    paths: Seq<Seq<Seq<char>>>,
    i: int,
    p: Seq<Seq<char>>,
    s: NodeView,
)
    requires
        store_ok(arena, paths),
        0 <= i < arena.len(),
        reaches(mat_spec(arena, i), p, s),
    ensures
        exists|c: int|
            0 <= c < arena.len() && #[trigger] paths[c] == paths[i] + p && s == mat_spec(
                arena,
                c,
            ),
    decreases p.len(),
{
    lemma_links_ok_arena_wf(arena, paths);
    if p.len() == 0 {
        assert(s == mat_spec(arena, i));
        assert(paths[i] + p =~= paths[i]);
        assert(paths[i] == paths[i] + p && s == mat_spec(arena, i));
    } else {
        let t = mat_spec(arena, i);
        let k = choose|k: int|
            0 <= k < t.children.len() && (#[trigger] t.children[k]).name == p[0] && reaches(
                t.children[k],
                p.drop_first(),
                s,
            );
        assert(arena[i].is_dir);
        let cs = arena[i].children@;
        lemma_children_in_range(arena, paths, i);
        lemma_mat_children_index(arena, cs, i);
        let x = cs[k] as int;
        assert(t.children[k] == mat_spec(arena, x));
        lemma_mat_reach_converse(arena, paths, x, p.drop_first(), s);
        let c = choose|c: int|
            0 <= c < arena.len() && #[trigger] paths[c] == paths[x] + p.drop_first() && s
                == mat_spec(arena, c);
        assert(paths[x] == paths[i].push(arena[x].name@));
        assert(arena[x].name@ == mat_spec(arena, x).name);
        assert(mat_spec(arena, x).name == p[0]);
        assert(paths[c] =~= paths[i] + p) by {
            assert(paths[c] == paths[i].push(p[0]) + p.drop_first());
        }
    }
}

/// A reached subtree extends by one named child.
proof fn lemma_reach_extend(t: NodeView, p: Seq<Seq<char>>, s: NodeView, k: int, x: Seq<char>)
    requires
        reaches(t, p, s),
        0 <= k < s.children.len(),
        s.children[k].name == x,
    ensures
        reaches(t, p.push(x), s.children[k]),
    decreases p.len(),
{
    if p.len() == 0 {
        assert(s == t);
        assert(p.push(x)[0] == x);
        assert(p.push(x).drop_first() =~= p);
        assert(reaches(t.children[k], p.push(x).drop_first(), s.children[k]));
    } else {
        let k0 = choose|k0: int|
            0 <= k0 < t.children.len() && (#[trigger] t.children[k0]).name == p[0] && reaches(
                t.children[k0],
                p.drop_first(),
                s,
            );
        lemma_reach_extend(t.children[k0], p.drop_first(), s, k, x);
        assert(p.push(x).drop_first() =~= p.drop_first().push(x));
        assert(p.push(x)[0] == p[0]);
        assert(reaches(t.children[k0], p.push(x).drop_first(), s.children[k]));
    }
}

/// Every stored node is reached from the materialized root along its
/// own path.
proof fn lemma_mat_reach(arena: Seq<TmpNode>, paths: Seq<Seq<Seq<char>>>, c: int)
    requires
        store_ok(arena, paths),
        0 <= c < arena.len(),
    ensures
        reaches(mat_spec(arena, 0), paths[c], mat_spec(arena, c)),
    decreases paths[c].len(),
{
    lemma_links_ok_arena_wf(arena, paths);
    if paths[c].len() == 0 {
        if c != 0 {
            assert(is_linked(arena, c));
            let (i, j): (int, int) = choose|i: int, j: int|
                #![trigger arena[i].children@[j]]
                0 <= i < arena.len() && 0 <= j < arena[i].children@.len()
                    && arena[i].children@[j] == c;
            assert(paths[c] == paths[i].push(arena[c].name@));
            assert(false);
        }
    } else {
        assert(c != 0);
        assert(is_linked(arena, c));
        let (i, j): (int, int) = choose|i: int, j: int|
            #![trigger arena[i].children@[j]]
            0 <= i < arena.len() && 0 <= j < arena[i].children@.len() && arena[i].children@[j]
                == c;
        assert(paths[c] == paths[i].push(arena[c].name@));
        assert(paths[i] =~= paths[c].drop_last());
        lemma_mat_reach(arena, paths, i);
        lemma_children_in_range(arena, paths, i);
        lemma_mat_children_index(arena, arena[i].children@, i);
        let s = mat_spec(arena, i);
        assert(arena[i].is_dir);
        assert(s.children[j] == mat_spec(arena, c));
        assert(s.children[j].name == arena[c].name@);
        lemma_reach_extend(mat_spec(arena, 0), paths[i], s, j, arena[c].name@);
        assert(paths[i].push(arena[c].name@) == paths[c]);
    }
}

/// The path `p` is a prefix of the path of some entry that survived
/// among the first `bound` entries.
pub open spec fn path_from_entries_at(
    p: Seq<Seq<char>>,
    entries: Seq<Entry>,
    opts: WalkOptions,
    bound: int,
) -> bool {
    exists|j: int|
        0 <= j < bound && entry_kept(#[trigger] entries[j], opts) && is_path_prefix(
            p,
            path_view(entries[j].path@),
        )
}

/// Every recorded non-root path is a prefix of the path of some
/// entry that survived among the first `bound` entries.
pub open spec fn paths_from_entries(
    paths: Seq<Seq<Seq<char>>>,
    entries: Seq<Entry>,
    opts: WalkOptions,
    bound: int,
) -> bool {
    forall|ix: int|
        1 <= ix < paths.len() ==> #[trigger] path_from_entries_at(paths[ix], entries, opts, bound)
}

/// Every non-root node of the tree sits on the path of some surviving
/// entry (as a prefix of it): the builder invents nothing beyond the
/// needed ancestors.
pub open spec fn nodes_from_entries(t: NodeView, entries: Seq<Entry>, opts: WalkOptions) -> bool {
    forall|p: Seq<Seq<char>>, s: NodeView|
        #![trigger reaches(t, p, s)]
        reaches(t, p, s) && p.len() > 0 ==> exists|ei: int|
            0 <= ei < entries.len() && entry_kept(#[trigger] entries[ei], opts) && is_path_prefix(
                p,
                path_view(entries[ei].path@),
            )
}

/// At most one directory node stands at any path of the tree.
pub open spec fn dirs_unique(t: NodeView) -> bool {
    forall|p: Seq<Seq<char>>, s1: NodeView, s2: NodeView|
        #![trigger reaches(t, p, s1), reaches(t, p, s2)]
        reaches(t, p, s1) && reaches(t, p, s2) && s1.kind == Kind::Dir && s2.kind == Kind::Dir
            ==> s1 == s2
}

/// No node holds two directory children of the same name.
pub open spec fn dir_siblings_distinct(t: NodeView) -> bool {
    forall|p: Seq<Seq<char>>, s: NodeView, j1: int, j2: int|
        #![trigger reaches(t, p, s), s.children[j1], s.children[j2]]
        reaches(t, p, s) && 0 <= j1 < j2 < s.children.len() && s.children[j1].kind == Kind::Dir
            && s.children[j2].kind == Kind::Dir ==> s.children[j1].name != s.children[j2].name
}

/// With every directory recorded once and no duplicate child links,
/// the materialized tree holds no duplicate directory nodes.
proof fn lemma_mat_dirs_unique(
    arena: Seq<TmpNode>,
    paths: Seq<Seq<Seq<char>>>,
    map: Seq<PathIndex>,
    t: NodeView,
)
    requires
        store_ok(arena, paths),
        t == mat_spec(arena, 0),
        forall|k: int| 0 <= k < map.len() ==> map_entry_ok(arena, paths, #[trigger] map[k]),
        map_distinct(map),
        dirs_recorded(arena, map),
        children_distinct(arena),
    ensures
        dirs_unique(t),
        dir_siblings_distinct(t),
{
    lemma_links_ok_arena_wf(arena, paths);
    assert forall|p: Seq<Seq<char>>, s1: NodeView, s2: NodeView|
        reaches(t, p, s1) && reaches(t, p, s2) && s1.kind == Kind::Dir && s2.kind
            == Kind::Dir implies s1 == s2 by {
        lemma_mat_reach_converse(arena, paths, 0, p, s1);
        lemma_mat_reach_converse(arena, paths, 0, p, s2);
        let c1 = choose|c: int|
            0 <= c < arena.len() && #[trigger] paths[c] == paths[0] + p && s1 == mat_spec(
                arena,
                c,
            );
        let c2 = choose|c: int|
            0 <= c < arena.len() && #[trigger] paths[c] == paths[0] + p && s2 == mat_spec(
                arena,
                c,
            );
        assert(arena[c1].is_dir && arena[c2].is_dir);
        lemma_recorded_dir_unique(arena, paths, map, c1, c2);
    }
    assert forall|p: Seq<Seq<char>>, s: NodeView, j1: int, j2: int|
        reaches(t, p, s) && 0 <= j1 < j2 < s.children.len() && s.children[j1].kind == Kind::Dir
            && s.children[j2].kind == Kind::Dir implies s.children[j1].name != s.children[j2].name by {
        lemma_mat_reach_converse(arena, paths, 0, p, s);
        let c = choose|c: int|
            0 <= c < arena.len() && #[trigger] paths[c] == paths[0] + p && s == mat_spec(arena, c);
        assert(arena[c].is_dir);
        let cs = arena[c].children@;
        lemma_children_in_range(arena, paths, c);
        lemma_mat_children_index(arena, cs, c);
        if s.children[j1].name == s.children[j2].name {
            let x1 = cs[j1] as int;
            let x2 = cs[j2] as int;
            assert(s.children[j1] == mat_spec(arena, x1));
            assert(s.children[j2] == mat_spec(arena, x2));
            assert(arena[x1].is_dir && arena[x2].is_dir);
            assert(arena[x1].name@ == arena[x2].name@);
            assert(paths[x1] == paths[c].push(arena[x1].name@));
            assert(paths[x2] == paths[c].push(arena[x2].name@));
            lemma_recorded_dir_unique(arena, paths, map, x1, x2);
            assert(cs[j1] != cs[j2]);
        }
    }
}

/// Two directory nodes with one path are the same node: each is
/// recorded, and records have distinct paths.
proof fn lemma_recorded_dir_unique(
    arena: Seq<TmpNode>,
    paths: Seq<Seq<Seq<char>>>,
    map: Seq<PathIndex>,
    c1: int,
    c2: int,
)
    requires
        0 <= c1 < arena.len(),
        0 <= c2 < arena.len(),
        paths.len() == arena.len(),
        arena[c1].is_dir,
        arena[c2].is_dir,
        paths[c1] == paths[c2],
        forall|k: int| 0 <= k < map.len() ==> map_entry_ok(arena, paths, #[trigger] map[k]),
        map_distinct(map),
        dirs_recorded(arena, map),
    ensures
        c1 == c2,
{
    let k1 = choose|k: int| 0 <= k < map.len() && (#[trigger] map[k].idx) == c1;
    let k2 = choose|k: int| 0 <= k < map.len() && (#[trigger] map[k].idx) == c2;
    assert(map_entry_ok(arena, paths, map[k1]));
    assert(map_entry_ok(arena, paths, map[k2]));
    assert(path_view(map[k1].path@) == paths[c1]);
    assert(path_view(map[k2].path@) == paths[c2]);
    if k1 != k2 {
        assert(path_view(map[k1].path@) != path_view(map[k2].path@));
    }
}

/// What the finished tree owes one surviving entry: every ancestor
/// directory present, and the entry itself present with its kind (and
/// size, for files).
pub open spec fn kept_entry_in_tree(t: NodeView, e: Entry) -> bool {
    let p = path_view(e.path@);
    &&& forall|k: int| 0 <= k < p.len() ==> has_dir_at(t, #[trigger] p.take(k))
    &&& (e.kind == Kind::Dir ==> has_dir_at(t, p))
    &&& (e.kind == Kind::File ==> has_file_at(t, p, e.size))
}

/// What the store owes one surviving entry while construction is
/// under way.
pub open spec fn realized_in_store(
    arena: Seq<TmpNode>,
    map: Seq<PathIndex>,
    paths: Seq<Seq<Seq<char>>>,
    e: Entry,
) -> bool {
    let p = path_view(e.path@);
    &&& (e.kind == Kind::Dir ==> map_has_path(map, p))
    &&& (e.kind == Kind::File ==> map_has_path(map, p.drop_last()) && (exists|c: int|
        0 <= c < arena.len() && !(#[trigger] arena[c]).is_dir && paths[c] == p
            && arena[c].size == e.size))
}

/// Store growth keeps every realized entry realized.
proof fn lemma_realized_monotone(
    arena1: Seq<TmpNode>,
    map1: Seq<PathIndex>,
    paths1: Seq<Seq<Seq<char>>>,
    arena2: Seq<TmpNode>,
    map2: Seq<PathIndex>,
    paths2: Seq<Seq<Seq<char>>>,
    e: Entry,
)
    requires
        realized_in_store(arena1, map1, paths1, e),
        arena_extends(arena1, arena2),
        forall|i: int| 0 <= i < arena1.len() ==> paths2[i] == paths1[i],
        map2.len() >= map1.len(),
        forall|k: int| 0 <= k < map1.len() ==> map2[k] == map1[k],
    ensures
        realized_in_store(arena2, map2, paths2, e),
{
    let p = path_view(e.path@);
    if e.kind == Kind::Dir {
        let k = choose|k: int|
            0 <= k < map1.len() && path_view(#[trigger] map1[k].path@) == p;
        assert(path_view(map2[k].path@) == p);
        assert(map_has_path(map2, p));
    }
    if e.kind == Kind::File {
        let k = choose|k: int|
            0 <= k < map1.len() && path_view(#[trigger] map1[k].path@) == p.drop_last();
        assert(path_view(map2[k].path@) == p.drop_last());
        assert(map_has_path(map2, p.drop_last()));
        let c = choose|c: int|
            0 <= c < arena1.len() && !(#[trigger] arena1[c]).is_dir && paths1[c] == p
                && arena1[c].size == e.size;
        assert(node_extends(arena1[c], arena2[c]));
        assert(!arena2[c].is_dir && paths2[c] == p && arena2[c].size == e.size);
    }
}

/// Re-establishes the invariant after a new file node is pushed and
/// linked under its resolved parent (the mapping is untouched).
proof fn lemma_file_post(
    arena1: Seq<TmpNode>,
    map1: Seq<PathIndex>,
    paths1: Seq<Seq<Seq<char>>>,
    arena2: Seq<TmpNode>,
    paths2: Seq<Seq<Seq<char>>>,
    p_idx: int,
    idx: int,
    filep: Seq<Seq<char>>,
)
    requires
        builder_inv(arena1, map1, paths1),
        arena1.len() <= usize::MAX,
        filep.len() >= 1,
        0 <= p_idx < arena1.len(),
        arena1[p_idx].is_dir,
        paths1[p_idx] == filep.drop_last(),
        idx == arena1.len(),
        paths2 == paths1.push(filep),
        arena2.len() == arena1.len() + 1,
        forall|i: int| 0 <= i < arena1.len() && i != p_idx ==> arena2[i] == arena1[i],
        arena2[p_idx].name == arena1[p_idx].name,
        arena2[p_idx].size == arena1[p_idx].size,
        arena2[p_idx].is_dir == arena1[p_idx].is_dir,
        arena2[p_idx].children@ == arena1[p_idx].children@.push(idx as usize),
        !arena2[idx].is_dir,
        arena2[idx].name@ == filep.last(),
        arena2[idx].children@.len() == 0,
    ensures
        builder_inv(arena2, map1, paths2),
        arena_extends(arena1, arena2),
        paths2[idx] == filep,
    decreases 0int,
{
    // directory records are untouched: the new node is a file
    assert forall|i: int|
        0 <= i < arena2.len() && (#[trigger] arena2[i].is_dir) implies exists|k: int|
        0 <= k < map1.len() && (#[trigger] map1[k].idx) == i by {
        assert(i != idx);
        assert(arena1[i].is_dir);
    }
    // the appended link is fresh, so child lists stay duplicate-free
    assert forall|i: int, j1: int, j2: int|
        #![trigger arena2[i].children@[j1], arena2[i].children@[j2]]
        0 <= i < arena2.len() && 0 <= j1 < j2 < arena2[i].children@.len()
        implies arena2[i].children@[j1] != arena2[i].children@[j2] by {
        if i == p_idx {
            if j2 == arena1[p_idx].children@.len() {
                assert(arena2[i].children@[j1] == arena1[i].children@[j1]);
                assert((arena1[i].children@[j1] as int) < arena1.len());
            } else {
                assert(arena2[i].children@[j1] == arena1[i].children@[j1]);
                assert(arena2[i].children@[j2] == arena1[i].children@[j2]);
            }
        } else if i == idx {
            assert(false);
        } else {
            assert(arena2[i] == arena1[i]);
        }
    }
    assert forall|i: int, j: int|
        #![trigger arena2[i].children@[j]]
        0 <= i < arena2.len() && 0 <= j < arena2[i].children@.len() implies {
        let c = arena2[i].children@[j] as int;
        &&& i < c < arena2.len()
        &&& arena2[i].is_dir
        &&& paths2[c] == paths2[i].push(arena2[c].name@)
    } by {
        let c = arena2[i].children@[j] as int;
        if i == p_idx && j == arena1[p_idx].children@.len() {
            assert(c == idx);
            assert(paths2[idx] == filep);
            assert(paths2[p_idx] == filep.drop_last());
            assert(filep =~= filep.drop_last().push(filep.last()));
        } else if i == idx {
            assert(false);
        } else if i == p_idx {
            assert(arena2[i].children@[j] == arena1[i].children@[j]);
            let c1 = arena1[i].children@[j] as int;
            assert(i < c1 < arena1.len());
            assert(paths1[c1] == paths1[i].push(arena1[c1].name@));
            if c1 == p_idx {
                assert(false);
            }
            assert(arena2[c1].name == arena1[c1].name);
        } else {
            assert(arena2[i] == arena1[i]);
            let c1 = arena1[i].children@[j] as int;
            assert(i < c1 < arena1.len());
            assert(paths1[c1] == paths1[i].push(arena1[c1].name@));
            if c1 == p_idx {
            } else {
                assert(arena2[c1] == arena1[c1]);
            }
        }
    }
    assert forall|c: int| 1 <= c < arena2.len() implies #[trigger] is_linked(arena2, c) by {
        if c == idx {
            assert(arena2[p_idx].children@[arena1[p_idx].children@.len() as int] == idx as usize);
            assert(is_linked(arena2, c));
        } else {
            assert(is_linked(arena1, c));
            let (i, j): (int, int) = choose|i: int, j: int|
                #![trigger arena1[i].children@[j]]
                0 <= i < arena1.len() && 0 <= j < arena1[i].children@.len()
                    && arena1[i].children@[j] == c;
            if i == p_idx {
                assert(arena2[i].children@[j] == arena1[i].children@[j]);
                assert(is_linked(arena2, c));
            } else {
                assert(arena2[i] == arena1[i]);
                assert(arena2[i].children@[j] == c);
                assert(is_linked(arena2, c));
            }
        }
    }
    assert forall|k: int| 0 <= k < map1.len() implies map_entry_ok(arena2, paths2, #[trigger] map1[k]) by {
        assert(map_entry_ok(arena1, paths1, map1[k]));
        let pi = map1[k].idx as int;
        if pi == p_idx {
        } else {
            assert(arena2[pi] == arena1[pi]);
        }
    }
    assert forall|i: int| 0 <= i < arena1.len() implies node_extends(#[trigger] arena1[i], arena2[i]) by {
        if i == p_idx {
            assert(arena2[i].children@.take(arena1[i].children@.len() as int)
                =~= arena1[i].children@);
        } else {
            assert(arena2[i] == arena1[i]);
            assert(arena2[i].children@.take(arena1[i].children@.len() as int)
                =~= arena1[i].children@);
        }
    }
}

/// A mapping that is closed under parents knows every prefix of a
/// path it knows.
proof fn lemma_map_prefixes(map: Seq<PathIndex>, p: Seq<Seq<char>>)
    requires
        forall|k: int|
            0 <= k < map.len() && path_view(#[trigger] map[k].path@).len() > 0 ==> map_has_path(
                map,
                path_view(map[k].path@).drop_last(),
            ),
        map_has_path(map, p),
    ensures
        forall|k: int| 0 <= k <= p.len() ==> map_has_path(map, #[trigger] p.take(k)),
    decreases p.len(),
{
    if p.len() == 0 {
        assert(p.take(0) =~= p);
    } else {
        let k0 = choose|k0: int| 0 <= k0 < map.len() && path_view(#[trigger] map[k0].path@) == p;
        assert(map_has_path(map, p.drop_last()));
        lemma_map_prefixes(map, p.drop_last());
        assert forall|k: int| 0 <= k <= p.len() implies map_has_path(map, #[trigger] p.take(k)) by {
            if k < p.len() {
                assert(p.drop_last().take(k) =~= p.take(k));
                assert(map_has_path(map, p.drop_last().take(k)));
            } else {
                assert(p.take(k) =~= p);
            }
        }
    }
}

/// Builds the final tree from the walker's entries: the root always
/// exists; each surviving entry is placed at its path, with every
/// ancestor directory created on demand, in first-discovery order; the
/// depth bound is respected; and a surviving metadata directory stays
/// a leaf.
#[verifier::rlimit(100)]
pub fn build_tree(root_name: &str, entries: &Vec<Entry>, opts: &WalkOptions) -> (t: Node)
    ensures
        node_view(t).name == root_name@,
        node_view(t).kind == Kind::Dir,
        t.children is Some,
        crate::node::wf_node(node_view(t)),
        match opts.depth {
            Some(d) => depth_bounded(node_view(t), d as int),
            None => true,
        },
        vcs_childless(node_view(t)),
        crate::node::unannotated(node_view(t)),
        crate::node::tree_shape_ok(t),
        nodes_from_entries(node_view(t), entries@, *opts),
        dirs_unique(node_view(t)),
        dir_siblings_distinct(node_view(t)),
        forall|ei: int|
            0 <= ei < entries@.len() && entry_kept(#[trigger] entries@[ei], *opts)
                ==> kept_entry_in_tree(node_view(t), entries@[ei]),
{
    let mut arena: Vec<TmpNode> = Vec::new();
    let mut nodes_by_path: Vec<PathIndex> = Vec::new();
    let root_idx = push_dir(&mut arena, root_name);
    nodes_by_path.push(PathIndex { path: Vec::new(), idx: root_idx });
    let ghost mut paths: Seq<Seq<Seq<char>>> = seq![Seq::<Seq<char>>::empty()];
    proof {
        assert(path_view(nodes_by_path@[0].path@) =~= Seq::<Seq<char>>::empty());
        assert(map_has_path(nodes_by_path@, Seq::<Seq<char>>::empty()));
        assert forall|i: int|
            0 <= i < arena@.len() && (#[trigger] arena@[i].is_dir) implies exists|k: int|
            0 <= k < nodes_by_path@.len() && (#[trigger] nodes_by_path@[k].idx) == i by {
            assert(nodes_by_path@[0].idx == 0);
        }
        assert(builder_inv(arena@, nodes_by_path@, paths));
    }
    let n_entries = entries.len();
    let mut ei: usize = 0;
    while ei < n_entries
        invariant
            n_entries == entries@.len(),
            ei <= n_entries,
            builder_inv(arena@, nodes_by_path@, paths),
            arena@[0].name@ == root_name@,
            forall|ix: int| 0 <= ix < paths.len() ==> within_depth(#[trigger] paths[ix], opts.depth),
            forall|ix: int| 0 <= ix < paths.len() ==> vcs_prefix_free(#[trigger] paths[ix]),
            paths_from_entries(paths, entries@, *opts, ei as int),
            forall|j: int|
                0 <= j < ei && entry_kept(#[trigger] entries@[j], *opts) ==> realized_in_store(
                    arena@,
                    nodes_by_path@,
                    paths,
                    entries@[j],
                ),
        decreases n_entries - ei,
    {
        let ghost arena_a = arena@;
        let ghost map_a = nodes_by_path@;
        let ghost paths_a = paths;
        let e = &entries[ei];
        if keep_entry(e, opts) {
            let ghost ep = path_view(e.path@);
            proof {
                lemma_path_view_drop_last(e.path@);
            }
            match e.kind {
                Kind::Dir => {
                    let r = ensure_dir_idx(&e.path, &mut nodes_by_path, &mut arena, Ghost(paths));
                    proof {
                        paths = r.1@;
                        assert forall|ix: int|
                            arena_a.len() <= ix < paths.len() implies is_path_prefix(
                            #[trigger] paths[ix],
                            ep,
                        ) || paths[ix] == ep by {}
                    }
                },
                Kind::File => {
                    let parent = parent_path(&e.path);
                    let r = ensure_dir_idx(&parent, &mut nodes_by_path, &mut arena, Ghost(paths));
                    let p_idx = r.0;
                    let ghost paths_b = r.1@;
                    let ghost arena_b = arena@;
                    let ghost map_b = nodes_by_path@;
                    let name = file_name_str(&e.path);
                    let idx = push_file(&mut arena, name.as_str(), e.size);
                    proof {
                        paths = paths_b.push(ep);
                    }
                    push_child(p_idx, idx, &mut arena);
                    proof {
                        lemma_file_post(
                            arena_b,
                            map_b,
                            paths_b,
                            arena@,
                            paths,
                            p_idx as int,
                            idx as int,
                            ep,
                        );
                        lemma_arena_extends_trans(arena_a, arena_b, arena@);
                        assert(realized_in_store(arena@, nodes_by_path@, paths, entries@[ei as int]));
                        assert forall|ix: int|
                            arena_a.len() <= ix < paths.len() implies is_path_prefix(
                            #[trigger] paths[ix],
                            ep,
                        ) || paths[ix] == ep by {
                            if ix < arena_b.len() {
                                assert(paths[ix] == paths_b[ix]);
                                assert(is_path_prefix(paths_b[ix], ep.drop_last()));
                                lemma_prefix_through_parent(paths_b[ix], ep);
                            } else {
                                assert(paths[ix] == ep);
                            }
                        }
                    }
                },
            }
            proof {
                assert(arena_extends(arena_a, arena@));
                assert forall|i: int| 0 <= i < arena_a.len() implies #[trigger] paths[i]
                    == paths_a[i] by {}
                assert(realized_in_store(arena@, nodes_by_path@, paths, entries@[ei as int]));
                lemma_build_step(
                    arena_a,
                    map_a,
                    paths_a,
                    arena@,
                    nodes_by_path@,
                    paths,
                    entries@,
                    *opts,
                    ei as int,
                );
            }
        } else {
            proof {
                lemma_paths_from_entries_grow(paths, entries@, *opts, ei as int);
            }
        }
        ei += 1;
    }
    let root = materialize(root_idx, &arena);
    proof {
        lemma_build_final(arena@, nodes_by_path@, paths, entries@, *opts, node_view(root));
    }
    root
}

/// A larger bound keeps the origin of every recorded path.
proof fn lemma_paths_from_entries_grow(
    paths: Seq<Seq<Seq<char>>>,
    entries: Seq<Entry>,
    opts: WalkOptions,
    bound: int,
)
    requires
        paths_from_entries(paths, entries, opts, bound),
    ensures
        paths_from_entries(paths, entries, opts, bound + 1),
{
    assert forall|ix: int|
        1 <= ix < paths.len() implies #[trigger] path_from_entries_at(
        paths[ix],
        entries,
        opts,
        bound + 1,
    ) by {
        assert(path_from_entries_at(paths[ix], entries, opts, bound));
        let j0 = choose|j: int|
            0 <= j < bound && entry_kept(#[trigger] entries[j], opts) && is_path_prefix(
                paths[ix],
                path_view(entries[j].path@),
            );
        assert(0 <= j0 < bound + 1 && entry_kept(entries[j0], opts) && is_path_prefix(
            paths[ix],
            path_view(entries[j0].path@),
        ));
    }
}

/// Carries the per-step facts of the construction loop across the
/// processing of one surviving entry: path bounds, the origin of
/// every store node, and the placement of earlier entries.
proof fn lemma_build_step(
    arena_a: Seq<TmpNode>,
    map_a: Seq<PathIndex>,
    paths_a: Seq<Seq<Seq<char>>>,
    arena2: Seq<TmpNode>,
    map2: Seq<PathIndex>,
    paths2: Seq<Seq<Seq<char>>>,
    entries: Seq<Entry>,
    opts: WalkOptions,
    ei: int,
)
    requires
        0 <= ei < entries.len(),
        entry_kept(entries[ei], opts),
        paths_a.len() == arena_a.len(),
        paths2.len() == arena2.len(),
        arena_extends(arena_a, arena2),
        forall|i: int| 0 <= i < arena_a.len() ==> #[trigger] paths2[i] == paths_a[i],
        map2.len() >= map_a.len(),
        forall|k: int| 0 <= k < map_a.len() ==> #[trigger] map2[k] == map_a[k],
        forall|ix: int|
            arena_a.len() <= ix < paths2.len() ==> is_path_prefix(
                #[trigger] paths2[ix],
                path_view(entries[ei].path@),
            ) || paths2[ix] == path_view(entries[ei].path@),
        forall|ix: int| 0 <= ix < paths_a.len() ==> within_depth(#[trigger] paths_a[ix], opts.depth),
        forall|ix: int| 0 <= ix < paths_a.len() ==> vcs_prefix_free(#[trigger] paths_a[ix]),
        paths_from_entries(paths_a, entries, opts, ei),
        forall|j: int|
            0 <= j < ei && entry_kept(#[trigger] entries[j], opts) ==> realized_in_store(
                arena_a,
                map_a,
                paths_a,
                entries[j],
            ),
        realized_in_store(arena2, map2, paths2, entries[ei]),
    ensures
        forall|ix: int| 0 <= ix < paths2.len() ==> within_depth(#[trigger] paths2[ix], opts.depth),
        forall|ix: int| 0 <= ix < paths2.len() ==> vcs_prefix_free(#[trigger] paths2[ix]),
        paths_from_entries(paths2, entries, opts, ei + 1),
        forall|j: int|
            0 <= j < ei + 1 && entry_kept(#[trigger] entries[j], opts) ==> realized_in_store(
                arena2,
                map2,
                paths2,
                entries[j],
            ),
{
    let ep = path_view(entries[ei].path@);
    assert forall|ix: int| 0 <= ix < paths2.len() implies within_depth(
        #[trigger] paths2[ix],
        opts.depth,
    ) && vcs_prefix_free(paths2[ix]) by {
        if ix < arena_a.len() {
            assert(paths2[ix] == paths_a[ix]);
        } else {
            assert(is_path_prefix(paths2[ix], ep) || paths2[ix] == ep);
            if paths2[ix] == ep {
                assert(within_depth(paths2[ix], opts.depth));
                assert forall|k: int| 0 <= k < paths2[ix].len() - 1 implies #[trigger] paths2[ix][k]
                    != ".git"@ by {
                    assert(!has_vcs_ancestor(ep));
                }
            } else {
                let pr = paths2[ix];
                assert(pr.len() <= ep.len() && pr == ep.take(pr.len() as int));
                match opts.depth {
                    Some(d) => {
                        assert(ep.len() <= d);
                    },
                    None => {},
                }
                assert forall|k: int| 0 <= k < pr.len() - 1 implies #[trigger] pr[k] != ".git"@ by {
                    assert(pr[k] == ep[k]);
                    assert(k < ep.len() - 1);
                    assert(!has_vcs_ancestor(ep));
                }
            }
        }
    }
    assert forall|ix: int|
        1 <= ix < paths2.len() implies #[trigger] path_from_entries_at(
        paths2[ix],
        entries,
        opts,
        ei + 1,
    ) by {
        if ix < arena_a.len() {
            assert(paths2[ix] == paths_a[ix]);
            assert(path_from_entries_at(paths_a[ix], entries, opts, ei));
            let j0 = choose|j: int|
                0 <= j < ei && entry_kept(#[trigger] entries[j], opts) && is_path_prefix(
                    paths_a[ix],
                    path_view(entries[j].path@),
                );
            assert(0 <= j0 < ei + 1 && entry_kept(entries[j0], opts) && is_path_prefix(
                paths2[ix],
                path_view(entries[j0].path@),
            ));
        } else {
            assert(is_path_prefix(paths2[ix], ep) || paths2[ix] == ep);
            if paths2[ix] == ep {
                assert(ep.take(ep.len() as int) =~= ep);
            }
            assert(entry_kept(entries[ei], opts));
            assert(is_path_prefix(paths2[ix], path_view(entries[ei].path@)));
        }
    }
    assert forall|j: int|
        0 <= j < ei + 1 && entry_kept(#[trigger] entries[j], opts) implies realized_in_store(
        arena2,
        map2,
        paths2,
        entries[j],
    ) by {
        if j < ei {
            lemma_realized_monotone(
                arena_a,
                map_a,
                paths_a,
                arena2,
                map2,
                paths2,
                entries[j],
            );
        }
    }
}

/// Gathers every tree-level guarantee from the finished store: the
/// laws proved over materialization, the placement of each surviving
/// entry, and the two uniqueness properties.
proof fn lemma_build_final(
    arena: Seq<TmpNode>,
    map: Seq<PathIndex>,
    paths: Seq<Seq<Seq<char>>>,
    entries: Seq<Entry>,
    opts: WalkOptions,
    t: NodeView,
)
    requires
        builder_inv(arena, map, paths),
        t == mat_spec(arena, 0),
        forall|ix: int| 0 <= ix < paths.len() ==> within_depth(#[trigger] paths[ix], opts.depth),
        forall|ix: int| 0 <= ix < paths.len() ==> vcs_prefix_free(#[trigger] paths[ix]),
        paths_from_entries(paths, entries, opts, entries.len() as int),
        forall|j: int|
            0 <= j < entries.len() && entry_kept(#[trigger] entries[j], opts)
                ==> realized_in_store(arena, map, paths, entries[j]),
    ensures
        match opts.depth {
            Some(d) => depth_bounded(t, d as int),
            None => true,
        },
        vcs_childless(t),
        crate::node::wf_node(t),
        crate::node::unannotated(t),
        nodes_from_entries(t, entries, opts),
        dirs_unique(t),
        dir_siblings_distinct(t),
        forall|ei2: int|
            0 <= ei2 < entries.len() && entry_kept(#[trigger] entries[ei2], opts)
                ==> kept_entry_in_tree(t, entries[ei2]),
{
    lemma_links_ok_arena_wf(arena, paths);
    match opts.depth {
        Some(d) => {
            lemma_mat_depth(arena, paths, 0, d as int);
        },
        None => {},
    }
    lemma_mat_vcs(arena, paths, 0);
    lemma_mat_wf(arena, paths, 0);
    lemma_mat_unannotated(arena, paths, 0);
    lemma_mat_dirs_unique(arena, paths, map, t);
    assert forall|p: Seq<Seq<char>>, s: NodeView|
        reaches(t, p, s) && p.len() > 0 implies exists|ei2: int|
        0 <= ei2 < entries.len() && entry_kept(#[trigger] entries[ei2], opts) && is_path_prefix(
        p,
        path_view(entries[ei2].path@),
    ) by {
        lemma_mat_reach_converse(arena, paths, 0, p, s);
        let c = choose|c: int|
            0 <= c < arena.len() && #[trigger] paths[c] == paths[0] + p && s == mat_spec(
                arena,
                c,
            );
        assert(paths[0] + p =~= p);
        assert(paths[c] == p);
        assert(c != 0);
        assert(path_from_entries_at(paths[c], entries, opts, entries.len() as int));
        let j0 = choose|j: int|
            0 <= j < entries.len() && entry_kept(#[trigger] entries[j], opts) && is_path_prefix(
                paths[c],
                path_view(entries[j].path@),
            );
        assert(0 <= j0 < entries.len() && entry_kept(entries[j0], opts) && is_path_prefix(
            p,
            path_view(entries[j0].path@),
        ));
    }
    assert forall|ei2: int|
        0 <= ei2 < entries.len() && entry_kept(#[trigger] entries[ei2], opts) implies kept_entry_in_tree(
        t,
        entries[ei2],
    ) by {
        let e = entries[ei2];
        let p = path_view(e.path@);
        assert(realized_in_store(arena, map, paths, e));
        let dirs_known: Seq<Seq<char>> = if e.kind == Kind::Dir {
            p
        } else {
            p.drop_last()
        };
        assert(map_has_path(map, dirs_known));
        lemma_map_prefixes(map, dirs_known);
        assert forall|k: int| 0 <= k < p.len() implies has_dir_at(t, #[trigger] p.take(k)) by {
            assert(p.take(k) =~= dirs_known.take(k));
            assert(map_has_path(map, p.take(k)));
            let mk = choose|mk: int|
                0 <= mk < map.len() && path_view(#[trigger] map[mk].path@) == p.take(k);
            assert(map_entry_ok(arena, paths, map[mk]));
            let c = map[mk].idx as int;
            lemma_mat_reach(arena, paths, c);
            assert(mat_spec(arena, c).kind == Kind::Dir);
            assert(has_dir_at(t, p.take(k)));
        }
        if e.kind == Kind::Dir {
            let mk = choose|mk: int|
                0 <= mk < map.len() && path_view(#[trigger] map[mk].path@) == p;
            assert(map_entry_ok(arena, paths, map[mk]));
            let c = map[mk].idx as int;
            lemma_mat_reach(arena, paths, c);
            assert(mat_spec(arena, c).kind == Kind::Dir);
            assert(has_dir_at(t, p));
        }
        if e.kind == Kind::File {
            let c = choose|c: int|
                0 <= c < arena.len() && !(#[trigger] arena[c]).is_dir && paths[c] == p
                    && arena[c].size == e.size;
            lemma_mat_reach(arena, paths, c);
            assert(mat_spec(arena, c).kind == Kind::File);
            assert(mat_spec(arena, c).size == Some(e.size));
            assert(has_file_at(t, p, e.size));
        }
    }
}

} // verus!
