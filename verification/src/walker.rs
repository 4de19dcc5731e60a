//! Building a tree snapshot from captured traversal data.
//!
//! The embedding application walks the filesystem and records, for every
//! entry it reaches, a [`RawNode`]: the outcome of the metadata lookup, the
//! entry's name and path, and — for a directory expanded within the depth
//! limit — the outcome of listing it.  [`read_dir_recursive_inner`] turns
//! that record into a [`FileTreeNode`], propagating the first failure and
//! never returning a partial tree; [`get_file_tree`] additionally puts the
//! result into display order.
//!
//! The walk itself decides per node whether to expand ([`should_expand`])
//! and per directory whether to fan the recursive builds out across a
//! worker pool ([`use_parallel`]): only directories in the sweet spot
//! between [`PARALLEL_MIN_ENTRIES`] and [`PARALLEL_MAX_ENTRIES`] entries
//! benefit.  The strategy never changes the produced children
//! ([`lemma_build_children_any_order`]), only the wall-clock schedule.

use vstd::prelude::*;
use crate::error::{AppError, ErrorView};
use crate::tree::{FileTreeNode, NodeKind, NodeView, node_view, nodes_view, node_wf, lemma_nodes_view};
use crate::sorter::{sort_tree, spec_sort, tree_sorted};

verus! {

broadcast use vstd::seq_lib::group_to_multiset_ensures, vstd::multiset::group_multiset_axioms;

/// A directory with at most this many entries is processed sequentially:
/// below this count the overhead of fanning out exceeds the gain.
pub const PARALLEL_MIN_ENTRIES: usize = 10;

/// A directory with at least this many entries is processed sequentially
/// again, to avoid unbounded worker fan-out and contention.
pub const PARALLEL_MAX_ENTRIES: usize = 50;

/// The outcome of listing one directory.
#[derive(Debug)]
pub enum RawListing {
    /// The directory could not be read; the OS message.
    Failed { message: String },
    /// The entries that could be enumerated, in enumeration order.
    Entries { entries: Vec<RawNode> },
}

/// What the filesystem walk recorded about one entry.
#[derive(Debug)]
pub enum RawNode {
    /// The metadata lookup itself failed; the OS message.
    Unreadable { message: String },
    Entry {
        /// String form of the full path.
        path: String,
        /// Final path segment; `None` when the path has none.
        name: Option<String>,
        /// Directory or not, as the metadata reported it.
        kind: NodeKind,
        /// Whether the entry is a plain file (it may be neither a plain
        /// file nor a directory).
        is_file: bool,
        /// Byte length as the metadata reported it.
        size: u64,
        /// Modification time in epoch seconds, when the OS supplied one.
        modified: Option<u64>,
        /// `Some` exactly when the walk expanded the entry as a directory
        /// within the depth limit.
        listing: Option<RawListing>,
    },
}

/// The error produced for an OS-level failure message.
pub open spec fn io_error_view(message: Seq<char>) -> ErrorView {
    ErrorView { message, error_type: "io"@ }
}

/// The error produced for a path without a final name component.
pub open spec fn invalid_path_error_view() -> ErrorView {
    ErrorView { message: "Invalid path"@, error_type: "custom"@ }
}

/// The node built for one raw record, or the first error met.
pub open spec fn spec_build(r: RawNode) -> Result<NodeView, ErrorView>
    decreases r, 2int,
{
    match r {
        RawNode::Unreadable { message } => Err(io_error_view(message@)),
        RawNode::Entry { path, name, kind, is_file, size, modified, listing } => {
            if name is None {
                Err(invalid_path_error_view())
            } else {
                match listing {
                    None => Ok(NodeView {
                        name: name->0@,
                        path: path@,
                        kind,
                        children: None,
                        size: if is_file { Some(size) } else { None },
                        modified,
                    }),
                    Some(RawListing::Failed { message }) => Err(io_error_view(message@)),
                    Some(RawListing::Entries { entries }) => match spec_build_children(entries@) {
                        Err(e) => Err(e),
                        Ok(cs) => Ok(NodeView {
                            name: name->0@,
                            path: path@,
                            kind,
                            children: Some(cs),
                            size: if is_file { Some(size) } else { None },
                            modified,
                        }),
                    },
                }
            }
        },
    }
}

/// The children built for a directory's entries, in enumeration order, or
/// the first error in that order (fail-fast, no partial result).
pub open spec fn spec_build_children(s: Seq<RawNode>) -> Result<Seq<NodeView>, ErrorView>
    decreases s, 0int,
{
    if s.len() == 0 {
        Ok(Seq::empty())
    } else {
        match spec_build(s[0]) {
            Err(e) => Err(e),
            Ok(n) => match spec_build_children(s.drop_first()) {
                Err(e) => Err(e),
                Ok(rest) => Ok(seq![n] + rest),
            },
        }
    }
}

/// The spec image of an executable build result.
pub open spec fn build_result_view(r: Result<FileTreeNode, AppError>) -> Result<NodeView, ErrorView> {
    match r {
        Ok(t) => Ok(node_view(t)),
        Err(e) => Err(e.view_spec()),
    }
}

/// Builds the tree for one raw record: exactly [`spec_build`].  A record
/// whose metadata lookup failed yields an `io` error; a missing name
/// component yields the invalid-path error; a failed listing yields an
/// `io` error; otherwise the node is assembled and the first failing child
/// aborts the whole build with that child's error.
#[verifier::loop_isolation(false)]
pub fn read_dir_recursive_inner(raw: &RawNode) -> (r: Result<FileTreeNode, AppError>)
    ensures
        build_result_view(r) == spec_build(*raw),
    decreases *raw,
{
    match raw {
        RawNode::Unreadable { message } => Err(AppError::io(message.clone())),
        RawNode::Entry { path, name, kind, is_file, size, modified, listing } => {
            let name_s: String = match name {
                None => {
                    return Err(AppError::from("Invalid path".to_owned()));
                },
                Some(n) => n.clone(),
            };
            let children: Option<Vec<FileTreeNode>> = match listing {
                None => None,
                Some(RawListing::Failed { message }) => {
                    return Err(AppError::io(message.clone()));
                },
                Some(RawListing::Entries { entries }) => {
                    let ghost es = entries@;
                    proof {
                        assert(es.skip(0) =~= es);
                        lemma_nodes_view(Seq::<FileTreeNode>::empty());
                    }
                    let mut out: Vec<FileTreeNode> = Vec::new();
                    let mut i: usize = 0;
                    while i < entries.len()
                        invariant
                            i <= es.len(),
                            out@.len() == i,
                            spec_build_children(es) == (match spec_build_children(es.skip(i as int)) {
                                Ok(rest) => Ok(nodes_view(out@) + rest),
                                Err(e) => Err::<Seq<NodeView>, ErrorView>(e),
                            }),
                        decreases es.len() - i,
                    {
                        proof {
                            assert(decreases_to!(*raw => *listing));
                            assert(decreases_to!(*listing => listing->0));
                            assert(decreases_to!(listing->0 => *entries));
                            assert(decreases_to!(*entries => entries@));
                            assert(decreases_to!(entries@ => entries@[i as int]));
                            assert(es.skip(i as int)[0] == es[i as int]);
                            assert(es.skip(i as int).drop_first() =~= es.skip(i as int + 1));
                        }
                        match read_dir_recursive_inner(&entries[i]) {
                            Err(e) => {
                                return Err(e);
                            },
                            Ok(n) => {
                                proof {
                                    lemma_nodes_view(out@);
                                    lemma_nodes_view(out@.push(n));
                                    assert(nodes_view(out@.push(n)) =~= nodes_view(out@) + seq![node_view(n)]);
                                    assert(nodes_view(out@) + (seq![node_view(n)]
                                        + spec_build_children(es.skip(i as int + 1))->Ok_0)
                                        =~= nodes_view(out@.push(n))
                                            + spec_build_children(es.skip(i as int + 1))->Ok_0);
                                }
                                out.push(n);
                            },
                        }
                        i = i + 1;
                    }
                    proof {
                        assert(es.skip(es.len() as int) =~= Seq::<RawNode>::empty());
                        assert(nodes_view(out@) + Seq::<NodeView>::empty() =~= nodes_view(out@));
                    }
                    Some(out)
                },
            };
            Ok(FileTreeNode {
                name: name_s,
                path: path.clone(),
                node_type: *kind,
                children,
                size: if *is_file { Some(*size) } else { None },
                modified: *modified,
            })
        },
    }
}

/// The full snapshot operation: build the tree for the captured traversal
/// data, then put it into display order.  The first build failure is
/// returned as-is; a success is the sorted image of the built tree.
pub fn get_file_tree(raw: &RawNode) -> (r: Result<FileTreeNode, AppError>)
    ensures
        build_result_view(r) == (match spec_build(*raw) {
            Ok(v) => Ok(spec_sort(v)),
            Err(e) => Err::<NodeView, ErrorView>(e),
        }),
        r matches Ok(t) ==> tree_sorted(node_view(t)),
{
    match read_dir_recursive_inner(raw) {
        Err(e) => Err(e),
        Ok(t) => Ok(sort_tree(&t)),
    }
}

/// The depth rule: a directory's entries are enumerated only while the
/// current depth lies strictly below the limit; files are never expanded.
pub fn should_expand(kind: NodeKind, depth: usize, max_depth: usize) -> (r: bool)
    ensures
        r == (kind is Directory && depth < max_depth),
{
    match kind {
        NodeKind::Directory => depth < max_depth,
        NodeKind::File => false,
    }
}

/// The adaptive parallelism policy: fan out exactly when the entry count
/// lies strictly between the two thresholds.
pub fn use_parallel(entry_count: usize, parallel_min: usize, parallel_max: usize) -> (r: bool)
    ensures
        r == (parallel_min < entry_count && entry_count < parallel_max),
{
    parallel_min < entry_count && entry_count < parallel_max
}

/// A successful children build is pointwise: child `i` is the build of
/// entry `i` alone, independent of every other entry.
pub proof fn lemma_build_children_pointwise(s: Seq<RawNode>)
    requires
        spec_build_children(s) is Ok,
    ensures
        spec_build_children(s)->Ok_0.len() == s.len(),
        forall|i: int| 0 <= i < s.len()
            ==> spec_build(#[trigger] s[i]) == Ok::<NodeView, ErrorView>(spec_build_children(s)->Ok_0[i]),
    decreases s.len(),
{
    if s.len() > 0 {
        lemma_build_children_pointwise(s.drop_first());
        let cs = spec_build_children(s)->Ok_0;
        let rest = spec_build_children(s.drop_first())->Ok_0;
        assert forall|i: int| 0 <= i < s.len()
            implies spec_build(#[trigger] s[i]) == Ok::<NodeView, ErrorView>(cs[i]) by {
            if i > 0 {
                assert(s.drop_first()[i - 1] == s[i]);
                assert(cs[i] == rest[i - 1]);
            }
        }
    }
}

/// When every entry builds, the children build succeeds.
pub proof fn lemma_build_children_ok(s: Seq<RawNode>)
    requires
        forall|i: int| 0 <= i < s.len() ==> spec_build(#[trigger] s[i]) is Ok,
    ensures
        spec_build_children(s) is Ok,
    decreases s.len(),
{
    if s.len() > 0 {
        assert forall|i: int| 0 <= i < s.drop_first().len()
            implies spec_build(#[trigger] s.drop_first()[i]) is Ok by {
            assert(s.drop_first()[i] == s[i + 1]);
        }
        lemma_build_children_ok(s.drop_first());
    }
}

/// Law: processing strategy cannot change the result.  Two enumeration
/// orders of the same entries — as a worker pool may interleave them —
/// yield the same set of children whenever both succeed.
pub proof fn lemma_build_children_any_order(s1: Seq<RawNode>, s2: Seq<RawNode>)
    requires
        s1.to_multiset() == s2.to_multiset(),
        spec_build_children(s1) is Ok,
        spec_build_children(s2) is Ok,
    ensures
        spec_build_children(s1)->Ok_0.to_multiset() == spec_build_children(s2)->Ok_0.to_multiset(),
    decreases s1.len(),
{
    lemma_build_children_pointwise(s1);
    lemma_build_children_pointwise(s2);
    let cs1 = spec_build_children(s1)->Ok_0;
    let cs2 = spec_build_children(s2)->Ok_0;
    if s1.len() == 0 {
        assert(s2.to_multiset().len() == 0);
        assert(s2.len() == 0);
        assert(cs1 =~= cs2);
    } else {
        let x = s1.last();
        assert(s1 =~= s1.drop_last().push(x));
        assert(s1.to_multiset() == s1.drop_last().to_multiset().insert(x));
        assert(s2.to_multiset().count(x) > 0);
        assert(s2.contains(x));
        let k = choose|k: int| 0 <= k < s2.len() && s2[k] == x;
        let s1p = s1.drop_last();
        let s2p = s2.remove(k);
        assert(s2p.to_multiset() == s2.to_multiset().remove(x));
        assert(s1p.to_multiset() =~= s2p.to_multiset()) by {
            assert forall|y: RawNode| true implies s1p.to_multiset().count(y) == s2p.to_multiset().count(y) by {
                if y == x {
                    assert(s1.to_multiset().count(x) == s1p.to_multiset().count(x) + 1);
                    assert(s2p.to_multiset().count(x) == s2.to_multiset().count(x) - 1);
                } else {
                    assert(s1.to_multiset().count(y) == s1p.to_multiset().count(y));
                    assert(s2p.to_multiset().count(y) == s2.to_multiset().count(y));
                }
            }
        }
        assert forall|i: int| 0 <= i < s1p.len() implies spec_build(#[trigger] s1p[i]) is Ok by {
            assert(s1p[i] == s1[i]);
        }
        assert forall|i: int| 0 <= i < s2p.len() implies spec_build(#[trigger] s2p[i]) is Ok by {
            if i < k {
                assert(s2p[i] == s2[i]);
            } else {
                assert(s2p[i] == s2[i + 1]);
            }
        }
        lemma_build_children_ok(s1p);
        lemma_build_children_ok(s2p);
        lemma_build_children_any_order(s1p, s2p);
        lemma_build_children_pointwise(s1p);
        lemma_build_children_pointwise(s2p);
        let cs1p = spec_build_children(s1p)->Ok_0;
        let cs2p = spec_build_children(s2p)->Ok_0;
        // cs1 is cs1p plus the image of x; cs2 is cs2p plus the image of x at k.
        assert(cs1p =~= cs1.drop_last()) by {
            assert forall|i: int| 0 <= i < cs1p.len() implies cs1p[i] == cs1.drop_last()[i] by {
                assert(s1p[i] == s1[i]);
            }
        }
        assert(spec_build(x) == Ok::<NodeView, ErrorView>(cs1[s1.len() - 1]));
        assert(cs1.to_multiset() == cs1p.to_multiset().insert(cs1[s1.len() - 1])) by {
            assert(cs1 =~= cs1.drop_last().push(cs1.last()));
        }
        assert(cs2p =~= cs2.remove(k)) by {
            assert forall|i: int| 0 <= i < cs2p.len() implies cs2p[i] == cs2.remove(k)[i] by {
                if i < k {
                    assert(s2p[i] == s2[i]);
                    assert(cs2.remove(k)[i] == cs2[i]);
                } else {
                    assert(s2p[i] == s2[i + 1]);
                    assert(cs2.remove(k)[i] == cs2[i + 1]);
                }
            }
        }
        assert(spec_build(x) == Ok::<NodeView, ErrorView>(cs2[k]));
        assert(cs2[k] == cs1[s1.len() - 1]);
        assert(cs2.remove(k).to_multiset() == cs2.to_multiset().remove(cs2[k]));
        assert(cs1.to_multiset() =~= cs2.to_multiset()) by {
            assert forall|y: NodeView| true implies cs1.to_multiset().count(y) == cs2.to_multiset().count(y) by {
                let v = cs2[k];
                if y == v {
                    assert(cs2p.to_multiset().count(v) == cs2.to_multiset().count(v) - 1);
                } else {
                    assert(cs2p.to_multiset().count(y) == cs2.to_multiset().count(y));
                }
            }
        }
    }
}

/// Structural soundness of the walk's records: an entry is expanded only
/// when it is a directory, and an entry reported a plain file is not a
/// directory.
pub open spec fn raw_wf(r: RawNode) -> bool
    decreases r, 2int,
{
    match r {
        RawNode::Unreadable { .. } => true,
        RawNode::Entry { kind, is_file, listing, .. } => {
            &&& (listing is Some ==> kind is Directory)
            &&& (is_file ==> kind is File)
            &&& match listing {
                Some(RawListing::Entries { entries }) => raw_children_wf(entries@),
                _ => true,
            }
        },
    }
}

pub open spec fn raw_children_wf(s: Seq<RawNode>) -> bool
    decreases s, 0int,
{
    if s.len() == 0 {
        true
    } else {
        raw_wf(s[0]) && raw_children_wf(s.drop_first())
    }
}

/// Law: a tree built from structurally sound records is itself sound —
/// a file node never has children, a directory node never a size.
pub proof fn lemma_build_wf(r: RawNode)
    requires
        raw_wf(r),
        spec_build(r) is Ok,
    ensures
        node_wf(spec_build(r)->Ok_0),
    decreases r, 2int,
{
    match r {
        RawNode::Unreadable { .. } => {},
        RawNode::Entry { kind, is_file, listing, .. } => {
            match listing {
                Some(RawListing::Entries { entries }) => {
                    lemma_build_children_wf(entries@);
                },
                _ => {},
            }
        },
    }
}

proof fn lemma_build_children_wf(s: Seq<RawNode>)
    requires
        raw_children_wf(s),
        spec_build_children(s) is Ok,
    ensures
        forall|i: int| 0 <= i < spec_build_children(s)->Ok_0.len()
            ==> node_wf(#[trigger] spec_build_children(s)->Ok_0[i]),
    decreases s, 1int,
{
    if s.len() > 0 {
        lemma_build_wf(s[0]);
        lemma_build_children_wf(s.drop_first());
        let cs = spec_build_children(s)->Ok_0;
        let rest = spec_build_children(s.drop_first())->Ok_0;
        assert forall|i: int| 0 <= i < cs.len() implies node_wf(#[trigger] cs[i]) by {
            if i == 0 {
                assert(cs[0] == spec_build(s[0])->Ok_0);
            } else {
                assert(cs[i] == rest[i - 1]);
            }
        }
    }
}

} // verus!
