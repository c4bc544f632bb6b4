//! The in-memory tree model: one `Node` per surviving filesystem entry.

use vstd::prelude::*;

verus! {

/// Whether a node stands for a directory or a regular file.
#[derive(Clone, Copy, Debug, PartialEq, Eq, Structural)]
pub enum Kind {
    Dir,
    File,
}

/// Version-control status attached to file nodes.
#[derive(Clone, Copy, Debug, PartialEq, Eq, Structural)]
pub enum GitState {
    Clean,
    Modified,
    Staged,
    Untracked,
    Ignored,
    Renamed,
    Deleted,
}

/// Per-node metadata: the kind, the size (files only) and an optional
/// version-control status (files only).
#[derive(Clone, Copy, Debug, PartialEq, Eq)]
pub struct MetaData {
    pub kind: Kind,
    pub size: Option<u64>,
    pub git: Option<GitState>,
}

/// One entry of the result tree. Directory nodes carry a (possibly
/// empty) child list; file nodes carry none.
#[derive(Debug, PartialEq, Eq)]
pub struct Node {
    pub name: String,
    pub meta: MetaData,
    pub children: Option<Vec<Node>>,
}

/// The mathematical shape of a `Node`: names as character sequences,
/// children as a sequence of views.
#[verifier::ext_equal]
pub ghost struct NodeView {
    pub name: Seq<char>,
    pub kind: Kind,
    pub size: Option<u64>,
    pub git: Option<GitState>,
    pub children: Seq<NodeView>,
}

/// The view of a node: its fields with `String` replaced by `Seq<char>`
/// and the missing child list replaced by the empty sequence.
pub open spec fn node_view(n: Node) -> NodeView
    decreases n, 1int,
{
    NodeView {
        name: n.name@,
        kind: n.meta.kind,
        size: n.meta.size,
        git: n.meta.git,
        children: match n.children {
            Some(cs) => nodes_view(cs@),
            None => Seq::empty(),
        },
    }
}

/// The views of a sequence of nodes, in order.
pub open spec fn nodes_view(ns: Seq<Node>) -> Seq<NodeView>
    decreases ns, 0int,
{
    if ns.len() == 0 {
        Seq::empty()
    } else {
        nodes_view(ns.drop_last()).push(node_view(ns.last()))
    }
}

/// `nodes_view` maps the sequence element by element.
pub proof fn lemma_nodes_view_index(ns: Seq<Node>)
    ensures
        nodes_view(ns).len() == ns.len(),
        forall|i: int| 0 <= i < ns.len() ==> nodes_view(ns)[i] == node_view(ns[i]),
    decreases ns.len(),
{
    if ns.len() > 0 {
        lemma_nodes_view_index(ns.drop_last());
    }
}

/// A node is well formed when directory nodes have a child list and no
/// size, file nodes have a size and no child list, only file nodes are
/// annotated, and every child is well formed in turn.
pub open spec fn wf_node(v: NodeView) -> bool
    decreases v, 0int,
{
    &&& (v.kind == Kind::Dir <==> v.size is None)
    &&& (v.kind == Kind::File ==> v.children.len() == 0)
    &&& (v.kind == Kind::Dir ==> v.git is None)
    &&& wf_nodes(v.children)
}

/// Well-formedness over a list of sibling subtrees.
pub open spec fn wf_nodes(cs: Seq<NodeView>) -> bool
    decreases cs, 1int,
{
    if cs.len() == 0 {
        true
    } else {
        wf_node(cs[0]) && wf_nodes(cs.drop_first())
    }
}

/// `wf_nodes` holds exactly when every member is well formed.
pub proof fn lemma_wf_nodes_iff(cs: Seq<NodeView>)
    ensures
        wf_nodes(cs) <==> (forall|i: int| 0 <= i < cs.len() ==> #[trigger] wf_node(cs[i])),
    decreases cs.len(),
{
    if cs.len() > 0 {
        lemma_wf_nodes_iff(cs.drop_first());
        assert forall|i: int| 0 <= i < cs.drop_first().len() implies cs.drop_first()[i] == cs[i
            + 1] by {}
        if wf_nodes(cs) {
            assert forall|i: int| 0 <= i < cs.len() implies #[trigger] wf_node(cs[i]) by {
                if i > 0 {
                    assert(wf_node(cs.drop_first()[i - 1]));
                }
            }
        }
        if forall|i: int| 0 <= i < cs.len() ==> #[trigger] wf_node(cs[i]) {
            assert(wf_node(cs[0]));
            assert forall|i: int| 0 <= i < cs.drop_first().len() implies #[trigger] wf_node(
                cs.drop_first()[i],
            ) by {
                assert(wf_node(cs[i + 1]));
            }
            assert(wf_nodes(cs.drop_first()));
            assert(wf_nodes(cs));
        }
    }
}

/// No node of the subtree carries a version-control state yet.
pub open spec fn unannotated(v: NodeView) -> bool
    decreases v, 0int,
{
    v.git is None && unannotated_seq(v.children)
}

/// The same, over a list of sibling subtrees.
pub open spec fn unannotated_seq(cs: Seq<NodeView>) -> bool
    decreases cs, 1int,
{
    if cs.len() == 0 {
        true
    } else {
        unannotated(cs[0]) && unannotated_seq(cs.drop_first())
    }
}

/// `unannotated_seq` holds exactly when every member is unannotated.
pub proof fn lemma_unannotated_seq_iff(cs: Seq<NodeView>)
    ensures
        unannotated_seq(cs) <==> (forall|i: int|
            0 <= i < cs.len() ==> #[trigger] unannotated(cs[i])),
    decreases cs.len(),
{
    if cs.len() > 0 {
        lemma_unannotated_seq_iff(cs.drop_first());
        assert forall|i: int| 0 <= i < cs.drop_first().len() implies cs.drop_first()[i] == cs[i
            + 1] by {}
        if unannotated_seq(cs) {
            assert forall|i: int| 0 <= i < cs.len() implies #[trigger] unannotated(cs[i]) by {
                if i > 0 {
                    assert(unannotated(cs.drop_first()[i - 1]));
                }
            }
        }
        if forall|i: int| 0 <= i < cs.len() ==> #[trigger] unannotated(cs[i]) {
            assert(unannotated(cs[0]));
            assert forall|i: int| 0 <= i < cs.drop_first().len() implies #[trigger] unannotated(
                cs.drop_first()[i],
            ) by {
                assert(unannotated(cs[i + 1]));
            }
            assert(unannotated_seq(cs.drop_first()));
            assert(unannotated_seq(cs));
        }
    }
}

/// The structural shape of the exec value matches its view: files carry
/// `None` children, directories carry `Some`.
pub open spec fn shape_ok(n: Node) -> bool {
    &&& (n.meta.kind == Kind::Dir <==> n.children is Some)
    &&& (n.meta.kind == Kind::File <==> n.meta.size is Some)
}

/// The shape holds at every node of the tree, not just the root.
pub open spec fn tree_shape_ok(n: Node) -> bool
    decreases n, 0int,
{
    shape_ok(n) && match n.children {
        Some(cs) => shape_seq(cs@),
        None => true,
    }
}

/// The same, over a list of sibling subtrees.
pub open spec fn shape_seq(ns: Seq<Node>) -> bool
    decreases ns, 1int,
{
    if ns.len() == 0 {
        true
    } else {
        tree_shape_ok(ns[0]) && shape_seq(ns.drop_first())
    }
}

/// `shape_seq` holds exactly when every member keeps the shape.
pub proof fn lemma_shape_seq_iff(ns: Seq<Node>)
    ensures
        shape_seq(ns) <==> (forall|i: int|
            0 <= i < ns.len() ==> #[trigger] tree_shape_ok(ns[i])),
    decreases ns.len(),
{
    if ns.len() > 0 {
        lemma_shape_seq_iff(ns.drop_first());
        assert forall|i: int| 0 <= i < ns.drop_first().len() implies ns.drop_first()[i] == ns[i
            + 1] by {}
        if shape_seq(ns) {
            assert forall|i: int| 0 <= i < ns.len() implies #[trigger] tree_shape_ok(ns[i]) by {
                if i > 0 {
                    assert(tree_shape_ok(ns.drop_first()[i - 1]));
                }
            }
        }
        if forall|i: int| 0 <= i < ns.len() ==> #[trigger] tree_shape_ok(ns[i]) {
            assert(tree_shape_ok(ns[0]));
            assert forall|i: int| 0 <= i < ns.drop_first().len() implies #[trigger] tree_shape_ok(
                ns.drop_first()[i],
            ) by {
                assert(tree_shape_ok(ns[i + 1]));
            }
            assert(shape_seq(ns.drop_first()));
            assert(shape_seq(ns));
        }
    }
}

/// Number of directory nodes in the tree, the root included.
pub open spec fn count_dirs(v: NodeView) -> nat
    decreases v.children, 1int,
{
    (if v.kind == Kind::Dir { 1nat } else { 0nat }) + count_dirs_seq(v.children)
}

/// Number of directory nodes over a sequence of subtrees.
pub open spec fn count_dirs_seq(vs: Seq<NodeView>) -> nat
    decreases vs, 0int,
{
    if vs.len() == 0 {
        0nat
    } else {
        count_dirs_seq(vs.drop_last()) + count_dirs(vs.last())
    }
}

/// Number of file nodes in the tree, the root included.
pub open spec fn count_files(v: NodeView) -> nat
    decreases v.children, 1int,
{
    (if v.kind == Kind::File { 1nat } else { 0nat }) + count_files_seq(v.children)
}

/// Number of file nodes over a sequence of subtrees.
pub open spec fn count_files_seq(vs: Seq<NodeView>) -> nat
    decreases vs, 0int,
{
    if vs.len() == 0 {
        0nat
    } else {
        count_files_seq(vs.drop_last()) + count_files(vs.last())
    }
}

/// Counting a sequence of subtrees splits at any point.
pub proof fn lemma_count_seq_split(vs: Seq<NodeView>, i: int)
    requires
        0 <= i <= vs.len(),
    ensures
        count_files_seq(vs) == count_files_seq(vs.take(i)) + count_files_seq(vs.skip(i)),
        count_dirs_seq(vs) == count_dirs_seq(vs.take(i)) + count_dirs_seq(vs.skip(i)),
    decreases vs.len(),
{
    if i == vs.len() {
        assert(vs.take(i) =~= vs);
        assert(count_files_seq(vs.skip(i)) == 0);
        assert(count_dirs_seq(vs.skip(i)) == 0);
    } else {
        let dl = vs.drop_last();
        lemma_count_seq_split(dl, i);
        assert(dl.take(i) =~= vs.take(i));
        assert(vs.skip(i).drop_last() =~= dl.skip(i));
        assert(vs.skip(i).last() == vs.last());
    }
}

/// Counting a single subtree.
pub proof fn lemma_count_seq_singleton(v: NodeView)
    ensures
        count_files_seq(seq![v]) == count_files(v),
        count_dirs_seq(seq![v]) == count_dirs(v),
{
    let s = seq![v];
    assert(s.len() == 1);
    assert(s.drop_last() =~= Seq::<NodeView>::empty());
    assert(s.last() == v);
    assert(count_files_seq(Seq::<NodeView>::empty()) == 0);
    assert(count_dirs_seq(Seq::<NodeView>::empty()) == 0);
    assert(count_files_seq(s) == count_files_seq(s.drop_last()) + count_files(s.last()));
    assert(count_dirs_seq(s) == count_dirs_seq(s.drop_last()) + count_dirs(s.last()));
}

impl Node {
    /// A fresh file node of the given name and size, not yet annotated.
    pub fn new_file(name: &str, size: u64) -> (r: Node)
        ensures
            node_view(r) == (NodeView {
                name: name@,
                kind: Kind::File,
                size: Some(size),
                git: None,
                children: Seq::empty(),
            }),
            r.children is None,
            shape_ok(r),
    {
        Node {
            name: name.to_owned(),
            meta: MetaData { kind: Kind::File, size: Some(size), git: None },
            children: None,
        }
    }

    /// A fresh directory node with the given children, in order.
    pub fn new_dir(name: &str, children: Vec<Node>) -> (r: Node)
        ensures
            node_view(r) == (NodeView {
                name: name@,
                kind: Kind::Dir,
                size: None,
                git: None,
                children: nodes_view(children@),
            }),
            r.children == Some(children),
            shape_ok(r),
    {
        Node {
            name: name.to_owned(),
            meta: MetaData { kind: Kind::Dir, size: None, git: None },
            children: Some(children),
        }
    }

    /// The children as a slice; empty for file nodes.
    pub fn children_slice(&self) -> (r: &[Node])
        ensures
            nodes_view(r@) == node_view(*self).children,
    {
        proof {
            if self.children is None {
                assert(nodes_view(Seq::<Node>::empty()) == Seq::<NodeView>::empty());
            }
        }
        match &self.children {
            Some(cs) => cs.as_slice(),
            None => &[],
        }
    }

    /// Whether this node is a directory.
    pub fn is_dir(&self) -> (r: bool)
        ensures
            r == (node_view(*self).kind == Kind::Dir),
    {
        match self.meta.kind {
            Kind::Dir => true,
            Kind::File => false,
        }
    }
}

/// A structural copy of a tree: the copy has the same view and the
/// same presence of a child list.
#[verifier::loop_isolation(false)]
pub fn clone_node(n: &Node) -> (r: Node)
    ensures
        node_view(r) == node_view(*n),
        r.children is Some <==> n.children is Some,
    decreases *n,
{
    match &n.children {
        None => Node { name: n.name.clone(), meta: n.meta, children: None },
        Some(cs) => {
            let mut kids: Vec<Node> = Vec::new();
            let mut i: usize = 0;
            while i < cs.len()
                invariant
                    i <= cs@.len(),
                    kids@.len() == i,
                    forall|j: int|
                        0 <= j < i ==> node_view(#[trigger] kids@[j]) == node_view(cs@[j]),
                decreases cs@.len() - i,
            {
                kids.push(clone_node(&cs[i]));
                i += 1;
            }
            proof {
                lemma_nodes_view_index(kids@);
                lemma_nodes_view_index(cs@);
                assert(nodes_view(kids@) =~= nodes_view(cs@));
            }
            Node { name: n.name.clone(), meta: n.meta, children: Some(kids) }
        },
    }
}

impl Clone for Node {
    /// Cloning preserves the whole view of the tree.
    fn clone(&self) -> (r: Node)
        ensures
            node_view(r) == node_view(*self),
            r.children is Some <==> self.children is Some,
    {
        clone_node(self)
    }
}

} // verus!
