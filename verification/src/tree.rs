//! The input shape of a parsed tree, and its mathematical reading.
//!
//! A [`TreeData`] holds, as plain values, exactly what the snapshot builder
//! reads from a parsed tree: per-node optional taxon names, child lists, an
//! optional incoming-edge length code, a root index and a rooted flag. The
//! caller that parses a tree file converts its node store into this shape;
//! branch lengths travel as opaque 64-bit codes chosen by that caller, with
//! code 0 standing for an absent length.
//!
//! The spec side reads the structure through paths: node `u` lies below `v`
//! when some child path leads from `v` to `u`. The split of a branch is the
//! set of sorted-leaf ranks reachable below it; leaves are ranked by sorting
//! taxon names (missing names read as empty), with node index breaking ties.

use crate::order::leaf_le_fn;
use vstd::prelude::*;

verus! {

/// One node of a parsed tree: an optional taxon name (meaningful on leaves),
/// the child node indices, and the incoming branch length as an opaque code
/// (absent encoded by the caller however it likes; 0 when missing).
pub struct TreeNode {
    pub name: Option<Vec<u8>>,
    pub children: Vec<usize>,
    pub parent_edge: Option<u64>,
}

/// A parsed tree over an indexed node store.
pub struct TreeData {
    pub nodes: Vec<TreeNode>,
    pub root: usize,
    pub rooted: bool,
}

/// Why a snapshot could not be built from a [`TreeData`].
#[derive(Clone, Copy, Debug, PartialEq, Eq, Structural)]
pub enum TreeStructureError {
    /// The root index lies outside the node store.
    MissingRoot,
    /// A child reference of a reachable node lies outside the node store.
    DanglingReference,
    /// A child path from the root returns to a node it already visited.
    CyclicReference,
    /// The caller could not tell whether the tree is rooted.
    UndeterminedRootedness,
}

/// Number of nodes in the store.
pub open spec fn node_count(t: TreeData) -> int {
    t.nodes@.len() as int
}

/// The child list of node `v`.
pub open spec fn children_of(t: TreeData, v: int) -> Seq<usize> {
    t.nodes@[v].children@
}

/// A node with no children is a leaf.
pub open spec fn is_leaf(t: TreeData, v: int) -> bool {
    children_of(t, v).len() == 0
}

/// The taxon name of node `v`; a missing name reads as the empty string.
pub open spec fn leaf_name(t: TreeData, v: int) -> Seq<u8> {
    match t.nodes@[v].name {
        Some(nm) => nm@,
        None => Seq::empty(),
    }
}

/// The incoming branch length code of node `v`; 0 when absent.
pub open spec fn edge_code(t: TreeData, v: int) -> u64 {
    match t.nodes@[v].parent_edge {
        Some(l) => l,
        None => 0u64,
    }
}

/// `v` lists `u` among its children, and both indices are in range.
pub open spec fn child_edge(t: TreeData, v: int, u: int) -> bool {
    &&& 0 <= v < node_count(t)
    &&& 0 <= u < node_count(t)
    &&& children_of(t, v).contains(u as usize)
}

/// `p` is a non-empty walk along child edges through in-range nodes.
pub open spec fn is_path(t: TreeData, p: Seq<int>) -> bool {
    &&& p.len() > 0
    &&& forall|k: int| 0 <= k < p.len() ==> 0 <= #[trigger] p[k] < node_count(t)
    &&& forall|k: int| 0 <= k < p.len() - 1 ==> child_edge(t, #[trigger] p[k], p[k + 1])
}

/// Some child path leads from `v` to `u` (in particular, `v` reaches itself).
pub open spec fn reaches(t: TreeData, v: int, u: int) -> bool {
    exists|p: Seq<int>| is_path(t, p) && p.first() == v && p.last() == u
}

/// Every in-range node reaches itself.
pub proof fn lemma_reaches_self(t: TreeData, v: int)
    requires
        0 <= v < node_count(t),
    ensures
        reaches(t, v, v),
{
    let p = seq![v];
    assert(is_path(t, p) && p.first() == v && p.last() == v);
}

/// Reachability extends across one child edge at the far end.
pub proof fn lemma_reaches_step(t: TreeData, v: int, u: int, w: int)
    requires
        reaches(t, v, u),
        child_edge(t, u, w),
    ensures
        reaches(t, v, w),
{
    let p = choose|p: Seq<int>| is_path(t, p) && p.first() == v && p.last() == u;
    let q = p.push(w);
    assert forall|k: int| 0 <= k < q.len() - 1 implies child_edge(t, #[trigger] q[k], q[k + 1]) by {
        if k < p.len() - 1 {
            assert(child_edge(t, p[k], p[k + 1]));
        }
    }
    assert(is_path(t, q) && q.first() == v && q.last() == w);
}

/// Reachability extends across one child edge at the near end.
pub proof fn lemma_reaches_unstep(t: TreeData, v: int, u: int, w: int)
    requires
        child_edge(t, v, u),
        reaches(t, u, w),
    ensures
        reaches(t, v, w),
{
    let p = choose|p: Seq<int>| is_path(t, p) && p.first() == u && p.last() == w;
    let q = seq![v] + p;
    assert forall|k: int| 0 <= k < q.len() - 1 implies child_edge(t, #[trigger] q[k], q[k + 1]) by {
        if k == 0 {
            assert(q[0] == v && q[1] == p[0]);
        } else {
            assert(q[k] == p[k - 1] && q[k + 1] == p[k]);
            assert(child_edge(t, p[k - 1], p[k]));
        }
    }
    assert(q.last() == p.last());
    assert(is_path(t, q) && q.first() == v && q.last() == w);
}

/// Leafhood as a predicate value, for use with sequence filtering.
pub open spec fn leaf_pred(t: TreeData) -> spec_fn(usize) -> bool {
    |u: usize| is_leaf(t, u as int)
}

/// The node indices `0 .. n` that are leaves, in index order.
pub open spec fn leaf_ids(t: TreeData) -> Seq<usize> {
    Seq::new(node_count(t) as nat, |i: int| i as usize).filter(leaf_pred(t))
}

/// How many leaves the tree has.
pub open spec fn leaf_count(t: TreeData) -> int {
    leaf_ids(t).len() as int
}

/// The sort key of leaf `u`: its taxon name, then its node index.
pub open spec fn leaf_key(t: TreeData, u: int) -> (Seq<u8>, usize) {
    (leaf_name(t, u), u as usize)
}

/// [`leaf_key`] as a function value, for use with sequence mapping.
pub open spec fn leaf_key_fn(t: TreeData) -> spec_fn(usize) -> (Seq<u8>, usize) {
    |u: usize| leaf_key(t, u as int)
}

/// The sort keys of all leaves, in node-index order.
pub open spec fn leaf_keys(t: TreeData) -> Seq<(Seq<u8>, usize)> {
    leaf_ids(t).map_values(leaf_key_fn(t))
}

/// The leaf keys sorted by name, ties broken by node index. Position `k` of
/// this listing is the bit position that leaf occupies in every split.
pub open spec fn sorted_leaf_keys(t: TreeData) -> Seq<(Seq<u8>, usize)> {
    leaf_keys(t).sort_by(leaf_le_fn())
}

/// The bit position assigned to leaf `u`.
pub open spec fn leaf_rank(t: TreeData, u: int) -> int {
    sorted_leaf_keys(t).index_of(leaf_key(t, u))
}

/// The split below node `v`: the ranks of the leaves that `v` reaches.
pub open spec fn split_set(t: TreeData, v: int) -> Set<int> {
    Set::new(
        |j: int|
            exists|u: int|
                0 <= u < node_count(t) && is_leaf(t, u) && #[trigger] reaches(t, v, u) && leaf_rank(
                    t,
                    u,
                ) == j,
    )
}

/// A node that contributes a candidate split: in range, reachable from the
/// root, not the root itself, with more than one leaf below it.
pub open spec fn is_candidate(t: TreeData, v: int) -> bool {
    &&& 0 <= v < node_count(t)
    &&& v != t.root
    &&& reaches(t, t.root as int, v)
    &&& split_set(t, v).len() > 1
}

/// The canonical splits of the tree: one per candidate node, duplicates
/// collapsed.
pub open spec fn spec_parts(t: TreeData) -> Set<Set<int>> {
    Set::new(
        |s: Set<int>|
            exists|v: int| #[trigger]
                is_candidate(t, v) && s == crate::bitset::canon_set(
                    split_set(t, v),
                    leaf_count(t),
                ),
    )
}

/// `len` is the branch length code recorded for canonical split `s`: the code
/// of the highest-indexed candidate node whose canonical split is `s`.
pub open spec fn is_split_len(t: TreeData, s: Set<int>, len: u64) -> bool {
    exists|v: int|
        {
            &&& #[trigger] is_candidate(t, v)
            &&& crate::bitset::canon_set(split_set(t, v), leaf_count(t)) == s
            &&& edge_code(t, v) == len
            &&& forall|w: int|
                v < w < node_count(t) && #[trigger] is_candidate(t, w)
                    ==> crate::bitset::canon_set(split_set(t, w), leaf_count(t)) != s
        }
}

/// A reachable node lists a child outside the node store.
pub open spec fn has_dangling(t: TreeData) -> bool {
    exists|v: int, m: int|
        {
            &&& #[trigger] reaches(t, t.root as int, v)
            &&& 0 <= m < children_of(t, v).len()
            &&& #[trigger] children_of(t, v)[m] >= node_count(t)
        }
}

/// Some reachable node lies on a child-edge cycle.
pub open spec fn has_cycle(t: TreeData) -> bool {
    exists|v: int, p: Seq<int>|
        {
            &&& #[trigger] reaches(t, t.root as int, v)
            &&& #[trigger] is_path(t, p)
            &&& p.len() >= 2
            &&& p.first() == v
            &&& p.last() == v
        }
}

/// A tree the snapshot builder accepts: the root index is in range and no
/// reachable node has a dangling child or lies on a cycle.
pub open spec fn well_formed(t: TreeData) -> bool {
    &&& t.root < node_count(t)
    &&& !has_dangling(t)
    &&& !has_cycle(t)
}

} // verus!

verus! {

/// The label an identifier maps to in a translation listing; when the
/// identifier occurs more than once, the last entry wins.
pub open spec fn translate_lookup(m: Seq<(Seq<u8>, Seq<u8>)>, key: Seq<u8>) -> Option<Seq<u8>>
    decreases m.len(),
{
    if m.len() == 0 {
        None
    } else if m.last().0 == key {
        Some(m.last().1)
    } else {
        translate_lookup(m.drop_last(), key)
    }
}

/// The byte view of an optional name.
pub open spec fn name_view(o: Option<Vec<u8>>) -> Option<Seq<u8>> {
    match o {
        Some(v) => Some(v@),
        None => None,
    }
}

/// The (identifier, label) views of a translation listing.
pub open spec fn translate_views(m: Seq<(Vec<u8>, Vec<u8>)>) -> Seq<(Seq<u8>, Seq<u8>)> {
    m.map_values(|p: (Vec<u8>, Vec<u8>)| (p.0@, p.1@))
}

/// Finds the label of `key`, the last entry winning on repeats.
fn translate_find(m: &Vec<(Vec<u8>, Vec<u8>)>, key: &Vec<u8>) -> (r: Option<Vec<u8>>)
    ensures
        name_view(r) == translate_lookup(translate_views(m@), key@),
{
    let n = m.len();
    let mut k = n;
    proof {
        assert(translate_views(m@).take(n as int) =~= translate_views(m@));
    }
    while k > 0
        invariant
            k <= n,
            n == m@.len(),
            translate_lookup(translate_views(m@), key@) == translate_lookup(
                translate_views(m@).take(k as int),
                key@,
            ),
        decreases k,
    {
        let ghost pre = translate_views(m@).take(k as int);
        proof {
            assert(pre.last() == (m@[k - 1].0@, m@[k - 1].1@));
            assert(pre.drop_last() =~= translate_views(m@).take(k - 1));
        }
        let c = crate::order::bytes_cmp(&m[k - 1].0, key);
        if c == 0 {
            let label = crate::order::copy_bytes(&m[k - 1].1);
            proof {
                assert(translate_lookup(pre, key@) == Some(m@[k - 1].1@));
            }
            return Some(label);
        }
        proof {
            assert(translate_lookup(pre, key@) == translate_lookup(
                translate_views(m@).take(k - 1),
                key@,
            ));
        }
        k = k - 1;
    }
    proof {
        assert(translate_views(m@).take(0) =~= Seq::<(Seq<u8>, Seq<u8>)>::empty());
    }
    None
}

/// An exact copy of a child list.
fn copy_indices(v: &Vec<usize>) -> (r: Vec<usize>)
    ensures
        r@ == v@,
{
    let n = v.len();
    let mut out: Vec<usize> = Vec::new();
    let mut i: usize = 0;
    while i < n
        invariant
            i <= n,
            n == v@.len(),
            out@ == v@.subrange(0, i as int),
        decreases n - i,
    {
        out.push(v[i]);
        assert(out@ =~= v@.subrange(0, i + 1));
        i = i + 1;
    }
    assert(out@ =~= v@);
    out
}

/// Replaces each leaf's taxon name by its label in the translation listing;
/// a leaf whose name is missing, or missing from the listing, ends up
/// nameless. Structure, edge lengths and inner nodes stay as they are.
pub fn rename_leaf_nodes(tree: &mut TreeData, translate: &Vec<(Vec<u8>, Vec<u8>)>)
    ensures
        final(tree).nodes@.len() == old(tree).nodes@.len(),
        final(tree).root == old(tree).root,
        final(tree).rooted == old(tree).rooted,
        forall|i: int|
            0 <= i < old(tree).nodes@.len() ==> {
                &&& (#[trigger] final(tree).nodes@[i]).children@ == old(tree).nodes@[i].children@
                &&& final(tree).nodes@[i].parent_edge == old(tree).nodes@[i].parent_edge
            },
        forall|i: int|
            0 <= i < old(tree).nodes@.len() && is_leaf(*old(tree), i) ==> name_view(
                (#[trigger] final(tree).nodes@[i]).name,
            ) == (match name_view(old(tree).nodes@[i].name) {
                Some(nm) => translate_lookup(translate_views(translate@), nm),
                None => None,
            }),
        forall|i: int|
            0 <= i < old(tree).nodes@.len() && !is_leaf(*old(tree), i) ==> name_view(
                (#[trigger] final(tree).nodes@[i]).name,
            ) == name_view(old(tree).nodes@[i].name),
{
    let n = tree.nodes.len();
    let mut i: usize = 0;
    while i < n
        invariant
            i <= n,
            n == tree.nodes@.len(),
            tree.nodes@.len() == old(tree).nodes@.len(),
            tree.root == old(tree).root,
            tree.rooted == old(tree).rooted,
            forall|k: int|
                0 <= k < n ==> {
                    &&& (#[trigger] tree.nodes@[k]).children@ == old(tree).nodes@[k].children@
                    &&& tree.nodes@[k].parent_edge == old(tree).nodes@[k].parent_edge
                },
            forall|k: int|
                i <= k < n ==> name_view((#[trigger] tree.nodes@[k]).name) == name_view(
                    old(tree).nodes@[k].name,
                ),
            forall|k: int|
                0 <= k < i && is_leaf(*old(tree), k) ==> name_view(
                    (#[trigger] tree.nodes@[k]).name,
                ) == (match name_view(old(tree).nodes@[k].name) {
                    Some(nm) => translate_lookup(translate_views(translate@), nm),
                    None => None,
                }),
            forall|k: int|
                0 <= k < i && !is_leaf(*old(tree), k) ==> name_view(
                    (#[trigger] tree.nodes@[k]).name,
                ) == name_view(old(tree).nodes@[k].name),
        decreases n - i,
    {
        proof {
            assert(tree.nodes@[i as int].children@ == old(tree).nodes@[i as int].children@);
        }
        if tree.nodes[i].children.len() == 0 {
            let new_name: Option<Vec<u8>> = match &tree.nodes[i].name {
                Some(nm) => translate_find(translate, nm),
                None => None,
            };
            let children = copy_indices(&tree.nodes[i].children);
            let parent_edge = tree.nodes[i].parent_edge;
            let node = TreeNode { name: new_name, children, parent_edge };
            tree.nodes.set(i, node);
        }
        i = i + 1;
    }
}

} // verus!
