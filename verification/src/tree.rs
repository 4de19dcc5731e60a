//! The tree snapshot produced by a traversal.
//!
//! A [`FileTreeNode`] describes one filesystem entry.  A `File` node never
//! has `children` and carries its byte size; a `Directory` node never
//! carries a size, and its `children` is `None` exactly when traversal was
//! cut off by the depth limit, `Some` of an empty vector when the directory
//! was expanded and found empty.  `modified` is the entry's modification
//! time in epoch seconds, when the platform supplied one.

use vstd::prelude::*;

verus! {

/// Whether a filesystem entry is a plain file or a directory.
#[derive(Clone, Copy, Debug, PartialEq, Eq, Structural)]
pub enum NodeKind {
    File,
    Directory,
}

/// One entry of a tree snapshot.
#[derive(Debug, PartialEq)]
pub struct FileTreeNode {
    /// Final path segment of the entry.
    pub name: String,
    /// String form of the full path.
    pub path: String,
    pub node_type: NodeKind,
    /// `None`: not expanded (depth limit).  `Some`: expanded, possibly empty.
    pub children: Option<Vec<FileTreeNode>>,
    /// Byte length; present exactly for files.
    pub size: Option<u64>,
    /// Modification time in epoch seconds, when available.
    pub modified: Option<u64>,
}

/// Mathematical image of a [`FileTreeNode`]: strings as character
/// sequences and children as a sequence of images.
pub struct NodeView {
    pub name: Seq<char>,
    pub path: Seq<char>,
    pub kind: NodeKind,
    pub children: Option<Seq<NodeView>>,
    pub size: Option<u64>,
    pub modified: Option<u64>,
}

/// The image of a node, taken recursively over its children.
pub open spec fn node_view(t: FileTreeNode) -> NodeView
    decreases t, 1int,
{
    NodeView {
        name: t.name@,
        path: t.path@,
        kind: t.node_type,
        children: match t.children {
            None => None,
            Some(v) => Some(nodes_view(v@)),
        },
        size: t.size,
        modified: t.modified,
    }
}

/// The images of a sequence of nodes, in order.
pub open spec fn nodes_view(s: Seq<FileTreeNode>) -> Seq<NodeView>
    decreases s, 0int,
{
    if s.len() == 0 {
        Seq::empty()
    } else {
        seq![node_view(s[0])] + nodes_view(s.drop_first())
    }
}

/// [`nodes_view`] maps [`node_view`] over the sequence, index by index.
pub proof fn lemma_nodes_view(s: Seq<FileTreeNode>)
    ensures
        nodes_view(s).len() == s.len(),
        forall|i: int| 0 <= i < s.len() ==> nodes_view(s)[i] == node_view(s[i]),
    decreases s.len(),
{
    if s.len() > 0 {
        lemma_nodes_view(s.drop_first());
        assert forall|i: int| 0 <= i < s.len() implies nodes_view(s)[i] == node_view(s[i]) by {
            if i > 0 {
                assert(nodes_view(s)[i] == nodes_view(s.drop_first())[i - 1]);
                assert(s.drop_first()[i - 1] == s[i]);
            }
        }
    }
}

/// Structural soundness of one node: a file never has children, and a
/// directory never carries a size.
pub open spec fn node_wf(v: NodeView) -> bool
    decreases v,
{
    &&& (v.kind is File ==> v.children is None)
    &&& (v.kind is Directory ==> v.size is None)
    &&& match v.children {
        None => true,
        Some(cs) => forall|i: int| 0 <= i < cs.len() ==> node_wf(#[trigger] cs[i]),
    }
}

} // verus!
