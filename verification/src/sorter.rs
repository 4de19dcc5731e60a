//! Deterministic display order for tree snapshots.
//!
//! [`sort_tree`] returns a tree in which, at every directory level, all
//! `File` entries come before all `Directory` entries, and entries of equal
//! kind are ordered by their lowercased name, compared byte-wise.  The
//! underlying insertion sort is stable: entries whose lowercased names
//! coincide keep their relative enumeration order.

use vstd::prelude::*;
use vstd::string::StrSliceExecFns;
use vstd::utf8::encode_utf8;
use crate::tree::{FileTreeNode, NodeKind, NodeView, node_view, nodes_view, lemma_nodes_view};

verus! {

broadcast use vstd::seq_lib::group_to_multiset_ensures, vstd::multiset::group_multiset_axioms;

/// The lowercase form of a name, as `str::to_lowercase` computes it.
pub uninterp spec fn lower_of(s: Seq<char>) -> Seq<char>;

/// Relies on `str::to_lowercase`: its result depends on the characters of
/// the input alone.
#[verifier::external_body]
fn lowercase(s: &String) -> (r: String)
    ensures
        r@ == lower_of(s@),
{
    s.to_lowercase()
}

/// Byte-wise lexicographic order, the order `str::cmp` uses.
pub open spec fn lex_le(a: Seq<u8>, b: Seq<u8>) -> bool
    decreases a.len(),
{
    if a.len() == 0 {
        true
    } else if b.len() == 0 {
        false
    } else if a[0] < b[0] {
        true
    } else if a[0] > b[0] {
        false
    } else {
        lex_le(a.drop_first(), b.drop_first())
    }
}

pub proof fn lemma_lex_le_total(a: Seq<u8>, b: Seq<u8>)
    ensures
        lex_le(a, b) || lex_le(b, a),
    decreases a.len(),
{
    if a.len() == 0 || b.len() == 0 {
    } else if a[0] == b[0] {
        lemma_lex_le_total(a.drop_first(), b.drop_first());
    }
}

pub proof fn lemma_lex_le_trans(a: Seq<u8>, b: Seq<u8>, c: Seq<u8>)
    requires
        lex_le(a, b),
        lex_le(b, c),
    ensures
        lex_le(a, c),
    decreases a.len(),
{
    if a.len() == 0 {
    } else {
        assert(b.len() > 0);
        assert(c.len() > 0);
        if a[0] == b[0] && b[0] == c[0] {
            lemma_lex_le_trans(a.drop_first(), b.drop_first(), c.drop_first());
        }
    }
}

/// Files sort before directories.
pub open spec fn rank_of(k: NodeKind) -> int {
    match k {
        NodeKind::File => 0,
        NodeKind::Directory => 1,
    }
}

/// The byte key a node is ordered by within its kind.
pub open spec fn sort_bytes(v: NodeView) -> Seq<u8> {
    encode_utf8(lower_of(v.name))
}

/// The display order: by kind (files first), then by lowercased name.
pub open spec fn key_le(a: NodeView, b: NodeView) -> bool {
    ||| rank_of(a.kind) < rank_of(b.kind)
    ||| (rank_of(a.kind) == rank_of(b.kind) && lex_le(sort_bytes(a), sort_bytes(b)))
}

pub proof fn lemma_key_le_total(a: NodeView, b: NodeView)
    ensures
        key_le(a, b) || key_le(b, a),
{
    lemma_lex_le_total(sort_bytes(a), sort_bytes(b));
}

pub proof fn lemma_key_le_trans(a: NodeView, b: NodeView, c: NodeView)
    requires
        key_le(a, b),
        key_le(b, c),
    ensures
        key_le(a, c),
{
    if rank_of(a.kind) == rank_of(b.kind) && rank_of(b.kind) == rank_of(c.kind) {
        lemma_lex_le_trans(sort_bytes(a), sort_bytes(b), sort_bytes(c));
    }
}

/// A level is sorted when every pair respects the display order.
pub open spec fn level_sorted(s: Seq<NodeView>) -> bool {
    forall|i: int, j: int| 0 <= i < j < s.len() ==> key_le(#[trigger] s[i], #[trigger] s[j])
}

/// Stable insertion of `x` into `s`: `x` lands after every element that
/// compares less-or-equal to it.
pub open spec fn insert_sorted(s: Seq<NodeView>, x: NodeView) -> Seq<NodeView>
    decreases s.len(),
{
    if s.len() == 0 {
        seq![x]
    } else if key_le(s.last(), x) {
        s.push(x)
    } else {
        insert_sorted(s.drop_last(), x).push(s.last())
    }
}

/// Stable insertion sort of one level, left to right.
pub open spec fn sort_level(s: Seq<NodeView>) -> Seq<NodeView>
    decreases s.len(),
{
    if s.len() == 0 {
        s
    } else {
        insert_sorted(sort_level(s.drop_last()), s.last())
    }
}

/// [`spec_sort`] mapped over a sequence of trees, in order.
pub open spec fn sorted_views(s: Seq<NodeView>) -> Seq<NodeView>
    decreases s, 0int,
{
    if s.len() == 0 {
        s
    } else {
        seq![spec_sort(s[0])] + sorted_views(s.drop_first())
    }
}

/// The sorted image of a tree: children sorted recursively, then the level
/// itself put into display order.
pub open spec fn spec_sort(v: NodeView) -> NodeView
    decreases v, 1int,
{
    match v.children {
        None => v,
        Some(cs) => NodeView {
            name: v.name,
            path: v.path,
            kind: v.kind,
            children: Some(sort_level(sorted_views(cs))),
            size: v.size,
            modified: v.modified,
        },
    }
}

/// Every directory level is sorted, at every depth.
pub open spec fn tree_sorted(v: NodeView) -> bool
    decreases v,
{
    match v.children {
        None => true,
        Some(cs) => level_sorted(cs) && (forall|i: int|
            0 <= i < cs.len() ==> tree_sorted(#[trigger] cs[i])),
    }
}

/// [`sorted_views`] maps [`spec_sort`] index by index.
pub proof fn lemma_sorted_views(s: Seq<NodeView>)
    ensures
        sorted_views(s).len() == s.len(),
        forall|i: int| 0 <= i < s.len() ==> sorted_views(s)[i] == spec_sort(s[i]),
    decreases s.len(),
{
    if s.len() > 0 {
        lemma_sorted_views(s.drop_first());
        assert forall|i: int| 0 <= i < s.len() implies sorted_views(s)[i] == spec_sort(s[i]) by {
            if i > 0 {
                assert(sorted_views(s)[i] == sorted_views(s.drop_first())[i - 1]);
                assert(s.drop_first()[i - 1] == s[i]);
            }
        }
    }
}

/// Inserting keeps the length, adds exactly `x` to the contents, and
/// preserves sortedness.
pub proof fn lemma_insert_sorted_props(s: Seq<NodeView>, x: NodeView)
    ensures
        insert_sorted(s, x).len() == s.len() + 1,
        insert_sorted(s, x).to_multiset() == s.to_multiset().insert(x),
        level_sorted(s) ==> level_sorted(insert_sorted(s, x)),
    decreases s.len(),
{
    if s.len() == 0 {
        assert(insert_sorted(s, x) == seq![x]);
        assert(seq![x] =~= Seq::<NodeView>::empty().push(x));
        assert(s =~= Seq::<NodeView>::empty());
        assert(insert_sorted(s, x).to_multiset() =~= s.to_multiset().insert(x));
    } else if key_le(s.last(), x) {
        assert(insert_sorted(s, x) == s.push(x));
        if level_sorted(s) {
            assert forall|i: int, j: int| 0 <= i < j < s.push(x).len()
                implies key_le(s.push(x)[i], s.push(x)[j]) by {
                if j == s.len() {
                    assert(s.push(x)[j] == x);
                    assert(s.push(x)[i] == s[i]);
                    if i < s.len() - 1 {
                        assert(key_le(s[i], s.last()));
                        lemma_key_le_trans(s[i], s.last(), x);
                    }
                } else {
                    assert(s.push(x)[i] == s[i]);
                    assert(s.push(x)[j] == s[j]);
                }
            }
        }
    } else {
        lemma_insert_sorted_props(s.drop_last(), x);
        let dl = s.drop_last();
        let t = insert_sorted(dl, x);
        assert(insert_sorted(s, x) == t.push(s.last()));
        assert(s =~= dl.push(s.last()));
        assert(s.to_multiset() == dl.to_multiset().insert(s.last()));
        assert(t.push(s.last()).to_multiset() == t.to_multiset().insert(s.last()));
        assert(t.push(s.last()).to_multiset() =~= s.to_multiset().insert(x));
        if level_sorted(s) {
            assert(level_sorted(dl)) by {
                assert forall|i: int, j: int| 0 <= i < j < dl.len() implies key_le(dl[i], dl[j]) by {
                    assert(dl[i] == s[i]);
                    assert(dl[j] == s[j]);
                }
            }
            lemma_key_le_total(s.last(), x);
            assert(key_le(x, s.last()));
            assert forall|i: int| 0 <= i < t.len() implies key_le(t[i], s.last()) by {
                assert(t.contains(t[i]));
                assert(t.to_multiset().count(t[i]) > 0);
                if t[i] == x {
                } else {
                    assert(dl.to_multiset().count(t[i]) > 0);
                    assert(dl.contains(t[i]));
                    let k = choose|k: int| 0 <= k < dl.len() && dl[k] == t[i];
                    assert(dl[k] == s[k]);
                    assert(key_le(s[k], s.last()));
                }
            }
            assert forall|i: int, j: int| 0 <= i < j < t.push(s.last()).len()
                implies key_le(t.push(s.last())[i], t.push(s.last())[j]) by {
                if j == t.len() {
                    assert(t.push(s.last())[i] == t[i]);
                    assert(t.push(s.last())[j] == s.last());
                } else {
                    assert(t.push(s.last())[i] == t[i]);
                    assert(t.push(s.last())[j] == t[j]);
                }
            }
        }
    }
}

/// Sorting a level keeps its length and contents and yields a sorted level.
pub proof fn lemma_sort_level_props(s: Seq<NodeView>)
    ensures
        sort_level(s).len() == s.len(),
        sort_level(s).to_multiset() == s.to_multiset(),
        level_sorted(sort_level(s)),
    decreases s.len(),
{
    if s.len() == 0 {
    } else {
        lemma_sort_level_props(s.drop_last());
        lemma_insert_sorted_props(sort_level(s.drop_last()), s.last());
        assert(s =~= s.drop_last().push(s.last()));
        assert(s.to_multiset() == s.drop_last().to_multiset().insert(s.last()));
    }
}

/// Sorting an already-sorted level returns it unchanged.
pub proof fn lemma_sort_level_of_sorted(s: Seq<NodeView>)
    requires
        level_sorted(s),
    ensures
        sort_level(s) == s,
    decreases s.len(),
{
    if s.len() == 0 {
    } else {
        let dl = s.drop_last();
        assert(level_sorted(dl)) by {
            assert forall|i: int, j: int| 0 <= i < j < dl.len() implies key_le(dl[i], dl[j]) by {
                assert(dl[i] == s[i]);
                assert(dl[j] == s[j]);
            }
        }
        lemma_sort_level_of_sorted(dl);
        assert(sort_level(s) == insert_sorted(dl, s.last()));
        if dl.len() == 0 {
            assert(insert_sorted(dl, s.last()) == seq![s.last()]);
            assert(seq![s.last()] =~= s);
        } else {
            assert(dl.last() == s[s.len() - 2]);
            assert(key_le(s[s.len() - 2], s[s.len() - 1]));
            assert(key_le(dl.last(), s.last()));
            assert(insert_sorted(dl, s.last()) == dl.push(s.last()));
            assert(dl.push(s.last()) =~= s);
        }
    }
}

/// The sorted image of any tree satisfies the sortedness invariant at
/// every directory level.
pub proof fn lemma_spec_sort_sorted(v: NodeView)
    ensures
        tree_sorted(spec_sort(v)),
    decreases v,
{
    match v.children {
        None => {},
        Some(cs) => {
            let m = sorted_views(cs);
            let sl = sort_level(m);
            lemma_sorted_views(cs);
            lemma_sort_level_props(m);
            assert forall|i: int| 0 <= i < sl.len() implies tree_sorted(#[trigger] sl[i]) by {
                assert(sl.contains(sl[i]));
                assert(sl.to_multiset().count(sl[i]) > 0);
                assert(m.to_multiset().count(sl[i]) > 0);
                assert(m.contains(sl[i]));
                let k = choose|k: int| 0 <= k < m.len() && m[k] == sl[i];
                assert(m[k] == spec_sort(cs[k]));
                lemma_spec_sort_sorted(cs[k]);
            }
            assert(spec_sort(v).children == Some(sl));
        },
    }
}

/// Law: sorting is idempotent; a second sort changes nothing.
pub proof fn lemma_sort_idempotent(v: NodeView)
    ensures
        spec_sort(spec_sort(v)) == spec_sort(v),
    decreases v,
{
    match v.children {
        None => {},
        Some(cs) => {
            let m = sorted_views(cs);
            let sl = sort_level(m);
            lemma_sorted_views(cs);
            lemma_sort_level_props(m);
            let m2 = sorted_views(sl);
            lemma_sorted_views(sl);
            assert forall|i: int| 0 <= i < sl.len() implies m2[i] == sl[i] by {
                assert(m2[i] == spec_sort(sl[i]));
                assert(sl.contains(sl[i]));
                assert(sl.to_multiset().count(sl[i]) > 0);
                assert(m.to_multiset().count(sl[i]) > 0);
                assert(m.contains(sl[i]));
                let k = choose|k: int| 0 <= k < m.len() && m[k] == sl[i];
                assert(m[k] == spec_sort(cs[k]));
                lemma_sort_idempotent(cs[k]);
                assert(spec_sort(sl[i]) == spec_sort(spec_sort(cs[k])));
            }
            assert(m2 =~= sl);
            lemma_spec_sort_sorted(v);
            assert(spec_sort(v).children == Some(sl));
            assert(level_sorted(sl)) by {
                lemma_sort_level_props(m);
            }
            lemma_sort_level_of_sorted(sl);
            assert(spec_sort(spec_sort(v)).children == Some(sort_level(m2)));
            assert(sort_level(m2) == sl);
        },
    }
}

/// The byte key of a node's name: its lowercase form, UTF-8 encoded.
fn key_bytes(name: &String) -> (r: Vec<u8>)
    ensures
        r@ == encode_utf8(lower_of(name@)),
{
    let low = lowercase(name);
    low.as_str().as_bytes_vec()
}

/// Byte-wise lexicographic comparison.
#[verifier::loop_isolation(false)]
fn bytes_le(a: &Vec<u8>, b: &Vec<u8>) -> (r: bool)
    ensures
        r == lex_le(a@, b@),
{
    let mut i: usize = 0;
    proof {
        assert(a@.skip(0) =~= a@);
        assert(b@.skip(0) =~= b@);
    }
    while i < a.len() && i < b.len()
        invariant
            i <= a.len(),
            i <= b.len(),
            lex_le(a@, b@) == lex_le(a@.skip(i as int), b@.skip(i as int)),
        decreases a.len() - i,
    {
        proof {
            assert(a@.skip(i as int)[0] == a@[i as int]);
            assert(b@.skip(i as int)[0] == b@[i as int]);
            assert(a@.skip(i as int).drop_first() =~= a@.skip(i as int + 1));
            assert(b@.skip(i as int).drop_first() =~= b@.skip(i as int + 1));
        }
        if a[i] < b[i] {
            return true;
        }
        if a[i] > b[i] {
            return false;
        }
        i = i + 1;
    }
    proof {
        if i == a.len() {
            assert(a@.skip(i as int).len() == 0);
        } else {
            assert(b@.skip(i as int).len() == 0);
            assert(a@.skip(i as int).len() > 0);
        }
    }
    i == a.len()
}

fn kind_rank(k: NodeKind) -> (r: u8)
    ensures
        r as int == rank_of(k),
{
    match k {
        NodeKind::File => 0,
        NodeKind::Directory => 1,
    }
}

/// The display order, decided on executable nodes.
fn node_le(a: &FileTreeNode, b: &FileTreeNode) -> (r: bool)
    ensures
        r == key_le(node_view(*a), node_view(*b)),
{
    let ra = kind_rank(a.node_type);
    let rb = kind_rank(b.node_type);
    if ra < rb {
        true
    } else if ra > rb {
        false
    } else {
        let ka = key_bytes(&a.name);
        let kb = key_bytes(&b.name);
        bytes_le(&ka, &kb)
    }
}

/// The value [`insert_sorted`] takes: everything from the insertion point
/// rightward is strictly greater than `x`, everything left of it is
/// less-or-equal.
proof fn lemma_insert_sorted_at(s: Seq<NodeView>, x: NodeView, p: int)
    requires
        0 <= p <= s.len(),
        forall|j: int| p <= j < s.len() ==> !key_le(#[trigger] s[j], x),
        p > 0 ==> key_le(s[p - 1], x),
    ensures
        insert_sorted(s, x) == s.subrange(0, p) + seq![x] + s.subrange(p, s.len() as int),
    decreases s.len(),
{
    if s.len() == 0 {
        assert(insert_sorted(s, x) == seq![x]);
        assert(s.subrange(0, 0) + seq![x] + s.subrange(0, 0) =~= seq![x]);
    } else if p == s.len() {
        assert(key_le(s.last(), x));
        assert(insert_sorted(s, x) == s.push(x));
        assert(s.subrange(0, p) + seq![x] + s.subrange(p, s.len() as int) =~= s.push(x));
    } else {
        assert(!key_le(s.last(), x));
        let dl = s.drop_last();
        assert forall|j: int| p <= j < dl.len() implies !key_le(#[trigger] dl[j], x) by {
            assert(dl[j] == s[j]);
        }
        if p > 0 {
            assert(dl[p - 1] == s[p - 1]);
        }
        lemma_insert_sorted_at(dl, x, p);
        assert(insert_sorted(s, x) == insert_sorted(dl, x).push(s.last()));
        assert((dl.subrange(0, p) + seq![x] + dl.subrange(p, dl.len() as int)).push(s.last())
            =~= s.subrange(0, p) + seq![x] + s.subrange(p, s.len() as int));
    }
}

/// Inserts `x` into an already-built level, keeping the stable display
/// order.
#[verifier::loop_isolation(false)]
fn insert_node(out: &mut Vec<FileTreeNode>, x: FileTreeNode)
    ensures
        nodes_view(final(out)@) == insert_sorted(nodes_view(old(out)@), node_view(x)),
{
    proof {
        lemma_nodes_view(out@);
    }
    let ghost xv = node_view(x);
    let mut pos: usize = out.len();
    let mut done = false;
    while !done && pos > 0
        invariant
            pos <= out.len(),
            out@ == old(out)@,
            forall|j: int| pos <= j < out@.len() ==> !key_le(#[trigger] nodes_view(out@)[j], xv),
            done ==> pos > 0 && key_le(nodes_view(out@)[pos - 1], xv),
        decreases (if done { 0int } else { 1int }), pos as int,
    {
        if node_le(&out[pos - 1], &x) {
            done = true;
        } else {
            pos = pos - 1;
        }
    }
    proof {
        lemma_insert_sorted_at(nodes_view(out@), xv, pos as int);
    }
    out.insert(pos, x);
    proof {
        lemma_nodes_view(out@);
        let s = nodes_view(old(out)@);
        assert(out@ == old(out)@.insert(pos as int, x));
        assert(nodes_view(out@) =~= s.subrange(0, pos as int) + seq![xv]
            + s.subrange(pos as int, s.len() as int)) by {
            assert forall|i: int| 0 <= i < out@.len() implies nodes_view(out@)[i]
                == (s.subrange(0, pos as int) + seq![xv] + s.subrange(pos as int, s.len() as int))[i] by {
                lemma_nodes_view(old(out)@);
                if i < pos as int {
                    assert(out@[i] == old(out)@[i]);
                } else if i == pos as int {
                    assert(out@[i] == x);
                } else {
                    assert(out@[i] == old(out)@[i - 1]);
                }
            }
        }
    }
}

/// Returns the given tree in display order: at every directory level files
/// come before directories and, within a kind, lowercased names ascend;
/// entries with equal keys keep their relative order (stable sort).
/// Sorting an already-sorted tree returns an equal tree.
#[verifier::loop_isolation(false)]
pub fn sort_tree(node: &FileTreeNode) -> (r: FileTreeNode)
    ensures
        node_view(r) == spec_sort(node_view(*node)),
        tree_sorted(node_view(r)),
    decreases *node,
{
    proof {
        lemma_spec_sort_sorted(node_view(*node));
    }
    let sorted_children: Option<Vec<FileTreeNode>> = match &node.children {
        None => None,
        Some(v) => {
            let ghost cs = nodes_view(v@);
            let ghost target = sorted_views(cs);
            proof {
                lemma_nodes_view(v@);
                lemma_sorted_views(cs);
                assert(target.take(0) =~= Seq::<NodeView>::empty());
            }
            let mut out: Vec<FileTreeNode> = Vec::new();
            let mut i: usize = 0;
            while i < v.len()
                invariant
                    i <= v.len(),
                    nodes_view(out@) == sort_level(target.take(i as int)),
                decreases v.len() - i,
            {
                proof {
                    assert(decreases_to!(*node => node.children));
                    assert(decreases_to!(node.children => *v));
                    assert(decreases_to!(*v => v@));
                    assert(decreases_to!(v@ => v@[i as int]));
                }
                let child = sort_tree(&v[i]);
                insert_node(&mut out, child);
                proof {
                    assert(target.take(i as int + 1).drop_last() =~= target.take(i as int));
                    assert(target.take(i as int + 1).last() == target[i as int]);
                    assert(target[i as int] == spec_sort(cs[i as int]));
                    assert(node_view(child) == spec_sort(node_view(v@[i as int])));
                    assert(cs[i as int] == node_view(v@[i as int]));
                    assert(sort_level(target.take(i as int + 1))
                        == insert_sorted(sort_level(target.take(i as int)), target[i as int]));
                }
                i = i + 1;
            }
            proof {
                assert(target.take(v@.len() as int) =~= target);
            }
            Some(out)
        },
    };
    FileTreeNode {
        name: node.name.clone(),
        path: node.path.clone(),
        node_type: node.node_type,
        children: sorted_children,
        size: node.size,
        modified: node.modified,
    }
}

} // verus!
