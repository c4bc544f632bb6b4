//! The count renderer: one line with the directory and file totals.

use vstd::prelude::*;
use crate::node::{
    count_dirs, count_dirs_seq, count_files, count_files_seq, lemma_count_seq_singleton,
    lemma_count_seq_split, node_view, Kind, Node, NodeView,
};
use crate::strutil::{dec_str, u64_to_string};

verus! {

/// The single output line for the given totals.
pub open spec fn count_line(dirs: nat, files: nat) -> Seq<char> {
    "\u{f115} Directories: "@ + dec_str(dirs) + " | \u{f016} Files: "@ + dec_str(files) + "\n"@
}

/// Accumulates the number of file and directory nodes of the subtree
/// into the two counters.
#[verifier::loop_isolation(false)]
pub fn walk(n: &Node, nb_files: &mut usize, nb_dirs: &mut usize)
    requires
        old(nb_files) + count_files(node_view(*n)) <= usize::MAX,
        old(nb_dirs) + count_dirs(node_view(*n)) <= usize::MAX,
    ensures
        *final(nb_files) == *old(nb_files) + count_files(node_view(*n)),
        *final(nb_dirs) == *old(nb_dirs) + count_dirs(node_view(*n)),
    decreases *n,
{
    match n.meta.kind {
        Kind::File => {
            *nb_files += 1;
        },
        Kind::Dir => {
            *nb_dirs += 1;
        },
    }
    if let Some(cs) = &n.children {
        let ghost cv: Seq<NodeView> = crate::node::nodes_view(cs@);
        proof {
            crate::node::lemma_nodes_view_index(cs@);
            assert(cv.skip(0) =~= cv);
        }
        let mut i: usize = 0;
        while i < cs.len()
            invariant
                i <= cs@.len(),
                cs@.len() == cv.len(),
                forall|j: int| 0 <= j < cv.len() ==> cv[j] == node_view(cs@[j]),
                *nb_files + count_files_seq(cv.skip(i as int)) == *old(nb_files) + count_files(
                    node_view(*n),
                ),
                *nb_dirs + count_dirs_seq(cv.skip(i as int)) == *old(nb_dirs) + count_dirs(
                    node_view(*n),
                ),
            decreases cs@.len() - i,
        {
            proof {
                lemma_count_seq_split(cv.skip(i as int), 1);
                assert(cv.skip(i as int).take(1) =~= seq![cv[i as int]]);
                assert(cv.skip(i as int).skip(1) =~= cv.skip(i as int + 1));
                lemma_count_seq_singleton(cv[i as int]);
            }
            walk(&cs[i], nb_files, nb_dirs);
            i += 1;
        }
        proof {
            assert(cv.skip(cs@.len() as int) =~= Seq::<NodeView>::empty());
        }
    }
}

/// Renders the count line for the tree rooted at `root`; the root
/// itself is counted according to its own kind.
pub fn render(root: &Node) -> (r: String)
    requires
        count_files(node_view(*root)) <= usize::MAX,
        count_dirs(node_view(*root)) <= usize::MAX,
    ensures
        r@ == count_line(count_dirs(node_view(*root)), count_files(node_view(*root))),
{
    let mut nb_files: usize = 0;
    let mut nb_dirs: usize = 0;
    walk(root, &mut nb_files, &mut nb_dirs);
    let mut out = String::new();
    out.append("\u{f115} Directories: ");
    let dirs_str = u64_to_string(nb_dirs as u64);
    out.append(dirs_str.as_str());
    out.append(" | \u{f016} Files: ");
    let files_str = u64_to_string(nb_files as u64);
    out.append(files_str.as_str());
    out.append("\n");
    out
}

} // verus!
