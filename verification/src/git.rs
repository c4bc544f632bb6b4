//! Version-control integration: translating raw status flags into the
//! closed `GitState` set, the path-keyed status map, and the pass that
//! annotates file nodes with their state.

use vstd::prelude::*;
use crate::node::{node_view, nodes_view, GitState, Kind, Node, NodeView};
use crate::strutil::str_eq;

verus! {

/// The raw status flags of one path, as the status engine reports
/// them: working-tree and index conditions may hold at once.
#[derive(Clone, Copy, Debug, PartialEq, Eq, Structural)]
pub struct RawStatus {
    pub wt_modified: bool,
    pub wt_new: bool,
    pub wt_deleted: bool,
    pub index_new: bool,
    pub index_modified: bool,
    pub index_renamed: bool,
    pub ignored: bool,
}

/// The single state a set of raw flags maps to. Precedence, highest
/// first: Modified > Staged > Untracked > Ignored > Deleted > Clean.
pub open spec fn classify(s: RawStatus) -> GitState {
    if s.wt_modified {
        GitState::Modified
    } else if s.index_new || s.index_modified || s.index_renamed {
        GitState::Staged
    } else if s.wt_new {
        GitState::Untracked
    } else if s.ignored {
        GitState::Ignored
    } else if s.wt_deleted {
        GitState::Deleted
    } else {
        GitState::Clean
    }
}

/// Maps raw flags to exactly one state, matching `classify`.
pub fn classify_status(s: RawStatus) -> (r: GitState)
    ensures
        r == classify(s),
{
    if s.wt_modified {
        GitState::Modified
    } else if s.index_new || s.index_modified || s.index_renamed {
        GitState::Staged
    } else if s.wt_new {
        GitState::Untracked
    } else if s.ignored {
        GitState::Ignored
    } else if s.wt_deleted {
        GitState::Deleted
    } else {
        GitState::Clean
    }
}

/// A path that is modified in the working tree is reported `Modified`,
/// never `Staged`, whatever is staged in the index for it.
pub proof fn lemma_modified_beats_staged(s: RawStatus)
    requires
        s.wt_modified,
    ensures
        classify(s) == GitState::Modified,
        classify(s) != GitState::Staged,
{
}

/// The map from repository-relative paths to their single state.
/// Later insertions overwrite earlier ones, as in a hash map.
#[derive(Debug)]
pub struct GitMap {
    entries: Vec<(String, GitState)>,
}

/// The map that a list of insertions, applied in order, builds up.
pub open spec fn entries_map(s: Seq<(String, GitState)>) -> Map<Seq<char>, GitState>
    decreases s.len(),
{
    if s.len() == 0 {
        Map::<Seq<char>, GitState>::empty()
    } else {
        entries_map(s.drop_last()).insert(s.last().0@, s.last().1)
    }
}

/// Keys at or after position `i` do not matter for key `k` if none of
/// them is `k`.
proof fn lemma_entries_map_prefix(s: Seq<(String, GitState)>, k: Seq<char>, i: int)
    requires
        0 <= i <= s.len(),
        forall|j: int| i <= j < s.len() ==> #[trigger] s[j].0@ != k,
    ensures
        entries_map(s).contains_key(k) == entries_map(s.take(i)).contains_key(k),
        entries_map(s).contains_key(k) ==> entries_map(s)[k] == entries_map(s.take(i))[k],
    decreases s.len(),
{
    if i == s.len() {
        assert(s.take(i) =~= s);
    } else {
        let dl = s.drop_last();
        lemma_entries_map_prefix(dl, k, i);
        assert(dl.take(i) =~= s.take(i));
    }
}

impl GitMap {
    /// The mathematical map this value stands for.
    pub closed spec fn as_map(&self) -> Map<Seq<char>, GitState> {
        entries_map(self.entries@)
    }

    /// The empty map.
    pub fn new() -> (r: GitMap)
        ensures
            r.as_map() == Map::<Seq<char>, GitState>::empty(),
    {
        GitMap { entries: Vec::new() }
    }

    /// Records `state` for `path`, replacing any earlier state.
    pub fn insert(&mut self, path: String, state: GitState)
        ensures
            final(self).as_map() == old(self).as_map().insert(path@, state),
    {
        self.entries.push((path, state));
        proof {
            assert(self.entries@.drop_last() =~= old(self).entries@);
        }
    }

    /// Looks `path` up: the recorded state, or `None` when the map
    /// holds none.
    pub fn get(&self, path: &str) -> (r: Option<GitState>)
        ensures
            self.as_map().contains_key(path@) ==> r == Some(self.as_map()[path@]),
            !self.as_map().contains_key(path@) ==> r is None,
    {
        let mut i: usize = self.entries.len();
        while i > 0
            invariant
                i <= self.entries@.len(),
                forall|j: int|
                    i <= j < self.entries@.len() ==> #[trigger] self.entries@[j].0@ != path@,
            decreases i,
        {
            if str_eq(self.entries[i - 1].0.as_str(), path) {
                proof {
                    lemma_entries_map_prefix(self.entries@, path@, i as int);
                    let pre = self.entries@.take(i as int);
                    assert(pre.drop_last() =~= self.entries@.take(i as int - 1));
                    assert(pre.last() == self.entries@[i as int - 1]);
                }
                return Some(self.entries[i - 1].1);
            }
            i -= 1;
        }
        proof {
            lemma_entries_map_prefix(self.entries@, path@, 0);
            assert(self.entries@.take(0) =~= Seq::<(String, GitState)>::empty());
        }
        None
    }
}

/// The path of a child node: the parent path, a separator when the
/// parent path is non-empty, then the child's name.
pub open spec fn child_path(prefix: Seq<char>, name: Seq<char>) -> Seq<char> {
    if prefix.len() == 0 {
        name
    } else {
        prefix + "/"@ + name
    }
}

/// The key a path is looked up under: the path with one leading `./`
/// stripped.
pub open spec fn lookup_key(p: Seq<char>) -> Seq<char> {
    if p.len() >= 2 && p[0] == '.' && p[1] == '/' {
        p.skip(2)
    } else {
        p
    }
}

/// The tree after the annotation pass, rooted at a node whose path is
/// `child_path(prefix, name)`: file nodes whose key is in the map get
/// its state, everything else is unchanged.
pub open spec fn annotate_view(v: NodeView, m: Map<Seq<char>, GitState>, prefix: Seq<char>)
    -> NodeView
    decreases v, 0int,
{
    let path = child_path(prefix, v.name);
    let key = lookup_key(path);
    NodeView {
        git: if v.kind != Kind::Dir && m.contains_key(key) {
            Some(m[key])
        } else {
            v.git
        },
        children: annotate_seq(v.children, m, path),
        ..v
    }
}

/// The annotation pass over a list of sibling subtrees, all below the
/// path `prefix`.
pub open spec fn annotate_seq(vs: Seq<NodeView>, m: Map<Seq<char>, GitState>, prefix: Seq<char>)
    -> Seq<NodeView>
    decreases vs, 1int,
{
    if vs.len() == 0 {
        Seq::<NodeView>::empty()
    } else {
        seq![annotate_view(vs[0], m, prefix)] + annotate_seq(vs.drop_first(), m, prefix)
    }
}

/// `annotate_seq` maps the sequence element by element.
pub proof fn lemma_annotate_seq_index(vs: Seq<NodeView>, m: Map<Seq<char>, GitState>, prefix: Seq<char>)
    ensures
        annotate_seq(vs, m, prefix).len() == vs.len(),
        forall|i: int|
            0 <= i < vs.len() ==> annotate_seq(vs, m, prefix)[i] == annotate_view(
                vs[i],
                m,
                prefix,
            ),
    decreases vs.len(),
{
    if vs.len() > 0 {
        lemma_annotate_seq_index(vs.drop_first(), m, prefix);
    }
}

/// Annotation preserves well-formedness: kinds, sizes and the tree
/// shape are untouched, and only file nodes ever receive a state.
pub proof fn lemma_annotate_preserves_wf(
    v: NodeView,
    m: Map<Seq<char>, GitState>,
    prefix: Seq<char>,
)
    requires
        crate::node::wf_node(v),
    ensures
        crate::node::wf_node(annotate_view(v, m, prefix)),
    decreases v,
{
    let a = annotate_view(v, m, prefix);
    let path = child_path(prefix, v.name);
    lemma_annotate_seq_index(v.children, m, path);
    crate::node::lemma_wf_nodes_iff(v.children);
    crate::node::lemma_wf_nodes_iff(a.children);
    assert forall|i: int| 0 <= i < a.children.len() implies crate::node::wf_node(
        #[trigger] a.children[i],
    ) by {
        assert(a.children[i] == annotate_view(v.children[i], m, path));
        assert(crate::node::wf_node(v.children[i]));
        lemma_annotate_preserves_wf(v.children[i], m, path);
    }
}

/// Annotates the sibling list `cs`, all below path `prefix`.
fn annotate_nodes(cs: Vec<Node>, git: &GitMap, prefix: &str) -> (r: Vec<Node>)
    ensures
        nodes_view(r@) == annotate_seq(nodes_view(cs@), git.as_map(), prefix@),
    decreases cs@, 0int,
{
    let mut cs = cs;
    let ghost orig: Seq<Node> = cs@;
    if cs.len() == 0 {
        proof {
            assert(annotate_seq(nodes_view(orig), git.as_map(), prefix@)
                =~= Seq::<NodeView>::empty());
        }
        cs
    } else {
        let hd = cs.remove(0);
        proof {
            assert(cs@ =~= orig.drop_first());
            assert(hd == orig[0]);
        }
        let hd2 = annotate_node(hd, git, prefix);
        let mut rest = annotate_nodes(cs, git, prefix);
        let ghost restv: Seq<Node> = rest@;
        rest.insert(0, hd2);
        proof {
            let m = git.as_map();
            let p = prefix@;
            assert(rest@[0] == hd2);
            assert(rest@.drop_first() =~= restv);
            crate::node::lemma_nodes_view_index(rest@);
            crate::node::lemma_nodes_view_index(restv);
            crate::node::lemma_nodes_view_index(orig);
            crate::node::lemma_nodes_view_index(orig.drop_first());
            lemma_annotate_seq_index(nodes_view(orig), m, p);
            lemma_annotate_seq_index(nodes_view(orig).drop_first(), m, p);
            assert(nodes_view(orig).drop_first() =~= nodes_view(orig.drop_first()));
            assert(nodes_view(orig)[0] == node_view(orig[0]));
            assert(nodes_view(rest@) =~= annotate_seq(nodes_view(orig), m, p));
        }
        rest
    }
}

/// Annotates one subtree, whose own path is `prefix` extended by its
/// name; only file nodes with a recorded state change.
fn annotate_node(n: Node, git: &GitMap, prefix: &str) -> (r: Node)
    ensures
        node_view(r) == annotate_view(node_view(n), git.as_map(), prefix@),
        r.children is Some <==> n.children is Some,
    decreases n, 1int,
{
    let ghost v = node_view(n);
    let Node { name, mut meta, children } = n;
    let mut path = prefix.to_owned();
    if !prefix.is_empty() {
        path.append("/");
    }
    path.append(name.as_str());
    proof {
        if prefix@.len() == 0 {
            crate::strutil::lemma_concat_empty(name@);
            assert(path@ == child_path(prefix@, v.name));
        } else {
            assert(path@ == child_path(prefix@, v.name));
        }
    }
    let plen = path.as_str().unicode_len();
    let stripped = plen >= 2 && path.as_str().get_char(0) == '.' && path.as_str().get_char(1)
        == '/';
    let key: &str = if stripped {
        path.as_str().substring_char(2, plen)
    } else {
        path.as_str()
    };
    proof {
        assert(key@ == lookup_key(child_path(prefix@, v.name)));
    }
    let is_file = match meta.kind {
        Kind::Dir => false,
        Kind::File => true,
    };
    if is_file {
        if let Some(st) = git.get(key) {
            meta.git = Some(st);
        }
    }
    match children {
        None => {
            let r = Node { name, meta, children: None };
            proof {
                assert(node_view(r) =~= annotate_view(v, git.as_map(), prefix@));
            }
            r
        },
        Some(kids) => {
            let new_kids = annotate_nodes(kids, git, path.as_str());
            let r = Node { name, meta, children: Some(new_kids) };
            proof {
                assert(node_view(r) =~= annotate_view(v, git.as_map(), prefix@));
            }
            r
        },
    }
}

/// Attaches states from the map to the file nodes of the tree, in
/// place. `buf` is the path prefix the root hangs under (empty at the
/// top of a run) and is handed back unchanged.
pub fn enrich_with_git(node: &mut Node, git: &GitMap, buf: &mut String)
    ensures
        node_view(*final(node)) == annotate_view(
            node_view(*old(node)),
            git.as_map(),
            old(buf)@,
        ),
        final(node).children is Some <==> old(node).children is Some,
        final(buf)@ == old(buf)@,
        crate::node::wf_node(node_view(*old(node))) ==> crate::node::wf_node(
            node_view(*final(node)),
        ),
{
    proof {
        if crate::node::wf_node(node_view(*old(node))) {
            lemma_annotate_preserves_wf(node_view(*old(node)), git.as_map(), old(buf)@);
        }
    }
    let mut tmp = Node {
        name: String::new(),
        meta: crate::node::MetaData { kind: Kind::File, size: Some(0), git: None },
        children: None,
    };
    core::mem::swap(node, &mut tmp);
    let mut tmp = annotate_node(tmp, git, buf.as_str());
    core::mem::swap(node, &mut tmp);
}

/// The branch name shown for a repository head: its short name when it
/// is a named branch (a placeholder when that name cannot be read),
/// and `HEAD` when it is detached.
pub fn branch_display_name(is_branch: bool, shorthand: Option<String>) -> (r: String)
    ensures
        is_branch && shorthand is Some ==> r@ == shorthand->0@,
        is_branch && shorthand is None ==> r@ == "unknown"@,
        !is_branch ==> r@ == "HEAD"@,
{
    if is_branch {
        match shorthand {
            Some(s) => s,
            None => "unknown".to_owned(),
        }
    } else {
        "HEAD".to_owned()
    }
}

/// The line announcing the current branch.
pub fn branch_line(branch: &str) -> (r: String)
    ensures
        r@ == "(\u{2387} "@ + branch@ + ")\n"@,
{
    let mut out = "(\u{2387} ".to_owned();
    out.append(branch);
    out.append(")\n");
    out
}

} // verus!
