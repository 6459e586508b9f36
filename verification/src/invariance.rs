//! Renaming the node identifiers of a tree changes nothing observable.
//!
//! Two trees that differ only by a bijection of their node indices — same
//! child structure, same taxon names, same edge lengths, same root and
//! rootedness — describe the same phylogeny. Provided the taxon names are
//! distinct (ranks break ties by node index, so a repeated name could tip
//! the leaf order), the two trees have the same leaf count, assign every
//! leaf the same rank, induce the same candidate splits, and so any
//! snapshots built from them carry identical split listings and root
//! signatures and stand at identical unweighted distances to any fixed
//! reference snapshot.

use crate::order::{bytes_lt, leaf_le};
use crate::tree::{
    child_edge, children_of, edge_code, is_candidate, is_leaf, is_path, leaf_count, leaf_key,
    leaf_name, leaf_rank, node_count, reaches, sorted_leaf_keys, spec_parts, split_set, TreeData,
};
use vstd::prelude::*;

verus! {

/// `t2` is `t1` with node indices renamed by `f`, whose inverse is `g`.
pub open spec fn node_permuted(
    t1: TreeData,
    t2: TreeData,
    f: spec_fn(int) -> int,
    g: spec_fn(int) -> int,
) -> bool {
    let n = node_count(t1);
    &&& node_count(t2) == n
    &&& n <= usize::MAX
    &&& (t1.root as int) < n
    &&& (forall|v: int| 0 <= v < n ==> 0 <= #[trigger] f(v) < n)
    &&& (forall|w: int| 0 <= w < n ==> 0 <= #[trigger] g(w) < n)
    &&& (forall|v: int| 0 <= v < n ==> g(#[trigger] f(v)) == v)
    &&& (forall|w: int| 0 <= w < n ==> f(#[trigger] g(w)) == w)
    &&& t2.root as int == f(t1.root as int)
    &&& t2.rooted == t1.rooted
    &&& (forall|v: int|
        0 <= v < n ==> children_of(t2, #[trigger] f(v)).len() == children_of(t1, v).len())
    &&& (forall|v: int, m: int|
        0 <= v < n && 0 <= m < children_of(t1, v).len() ==> children_of(t2, f(v))[m] as int == f(
            #[trigger] children_of(t1, v)[m] as int,
        ))
    &&& (forall|v: int, m: int|
        0 <= v < n && 0 <= m < children_of(t1, v).len() ==> 0 <= #[trigger] children_of(
            t1,
            v,
        )[m] < n)
    &&& (forall|v: int| 0 <= v < n ==> leaf_name(t2, #[trigger] f(v)) == leaf_name(t1, v))
    &&& (forall|v: int| 0 <= v < n ==> edge_code(t2, #[trigger] f(v)) == edge_code(t1, v))
}

/// The renaming swaps around: `t1` is `t2` renamed by `g`.
proof fn lemma_permuted_symmetric(
    t1: TreeData,
    t2: TreeData,
    f: spec_fn(int) -> int,
    g: spec_fn(int) -> int,
)
    requires
        node_permuted(t1, t2, f, g),
    ensures
        node_permuted(t2, t1, g, f),
{
    let n = node_count(t1);
    assert forall|w: int|
        0 <= w < n implies children_of(t1, #[trigger] g(w)).len() == children_of(t2, w).len() by {
        assert(f(g(w)) == w);
        assert(children_of(t2, f(g(w))).len() == children_of(t1, g(w)).len());
    }
    assert forall|w: int, m: int|
        0 <= w < n && 0 <= m < children_of(t2, w).len() implies children_of(t1, g(w))[m] as int
        == g(#[trigger] children_of(t2, w)[m] as int) by {
        let v = g(w);
        assert(f(v) == w);
        assert(children_of(t2, f(v))[m] as int == f(children_of(t1, v)[m] as int));
        assert(g(f(children_of(t1, v)[m] as int)) == children_of(t1, v)[m] as int);
    }
    assert forall|w: int, m: int|
        0 <= w < n && 0 <= m < children_of(t2, w).len() implies 0 <= #[trigger] children_of(
        t2,
        w,
    )[m] < n by {
        let v = g(w);
        assert(f(v) == w);
        assert(children_of(t2, f(v))[m] as int == f(children_of(t1, v)[m] as int));
        assert(0 <= children_of(t1, v)[m] < n);
    }
    assert forall|w: int| 0 <= w < n implies leaf_name(t1, #[trigger] g(w)) == leaf_name(
        t2,
        w,
    ) by {
        assert(f(g(w)) == w);
        assert(leaf_name(t2, f(g(w))) == leaf_name(t1, g(w)));
    }
    assert forall|w: int| 0 <= w < n implies edge_code(t1, #[trigger] g(w)) == edge_code(
        t2,
        w,
    ) by {
        assert(f(g(w)) == w);
        assert(edge_code(t2, f(g(w))) == edge_code(t1, g(w)));
    }
    assert(g(f(t1.root as int)) == t1.root as int);
}

/// Reachability follows the renaming.
proof fn lemma_permuted_reaches(
    t1: TreeData,
    t2: TreeData,
    f: spec_fn(int) -> int,
    g: spec_fn(int) -> int,
    v: int,
    u: int,
)
    requires
        node_permuted(t1, t2, f, g),
        reaches(t1, v, u),
        0 <= v < node_count(t1),
    ensures
        reaches(t2, f(v), f(u)),
{
    let n = node_count(t1);
    let p = choose|p: Seq<int>| is_path(t1, p) && p.first() == v && p.last() == u;
    let q = p.map_values(f);
    assert(q.len() == p.len());
    assert forall|k: int| 0 <= k < q.len() implies 0 <= #[trigger] q[k] < node_count(t2) by {
        assert(q[k] == f(p[k]));
        assert(0 <= p[k] < n);
    }
    assert forall|k: int| 0 <= k < q.len() - 1 implies child_edge(t2, #[trigger] q[k], q[k + 1]) by {
        assert(child_edge(t1, p[k], p[k + 1]));
        let m = choose|m: int|
            0 <= m < children_of(t1, p[k]).len() && children_of(t1, p[k])[m] == p[k + 1] as usize;
        assert(children_of(t2, f(p[k]))[m] as int == f(children_of(t1, p[k])[m] as int));
        assert(children_of(t2, f(p[k]))[m] as int == f(p[k + 1]));
        assert(q[k] == f(p[k]) && q[k + 1] == f(p[k + 1]));
        assert(children_of(t2, q[k]).contains((q[k + 1]) as usize)) by {
            assert(children_of(t2, q[k])[m] == (q[k + 1]) as usize);
        }
    }
    assert(is_path(t2, q));
    assert(q.first() == f(v) && q.last() == f(u));
}

/// Leafhood follows the renaming.
proof fn lemma_permuted_leaf(
    t1: TreeData,
    t2: TreeData,
    f: spec_fn(int) -> int,
    g: spec_fn(int) -> int,
    v: int,
)
    requires
        node_permuted(t1, t2, f, g),
        0 <= v < node_count(t1),
    ensures
        is_leaf(t2, f(v)) == is_leaf(t1, v),
{
    assert(children_of(t2, f(v)).len() == children_of(t1, v).len());
}

} // verus!

verus! {

/// No two leaves carry the same taxon name.
pub open spec fn distinct_leaf_names(t: TreeData) -> bool {
    forall|u1: int, u2: int|
        0 <= u1 < node_count(t) && 0 <= u2 < node_count(t) && u1 != u2 && is_leaf(t, u1)
            && is_leaf(t, u2) ==> leaf_name(t, u1) != leaf_name(t, u2)
}

/// The leaves whose names sort strictly before that of leaf `u`.
pub open spec fn smaller_named(t: TreeData, u: int) -> Set<int> {
    Set::new(
        |w: int|
            0 <= w < node_count(t) && is_leaf(t, w) && bytes_lt(leaf_name(t, w), leaf_name(t, u)),
    )
}

/// Mapping a finite set through a function that never collides on it keeps
/// its size.
proof fn lemma_set_inj_map_len(s: Set<int>, f: spec_fn(int) -> int)
    requires
        s.finite(),
        forall|x: int, y: int| s.contains(x) && s.contains(y) && x != y ==> f(x) != f(y),
    ensures
        s.map(f).len() == s.len(),
        s.map(f).finite(),
    decreases s.len(),
{
    if s.len() == 0 {
        assert(s =~= Set::empty());
        assert(s.map(f) =~= Set::empty());
    } else {
        let x = s.choose();
        assert(s.contains(x));
        lemma_set_inj_map_len(s.remove(x), f);
        assert(s.remove(x).map(f) =~= s.map(f).remove(f(x))) by {
            assert forall|y: int|
                s.remove(x).map(f).contains(y) implies s.map(f).remove(f(x)).contains(y) by {
                let u = choose|u: int| s.remove(x).contains(u) && f(u) == y;
                assert(s.contains(u));
            }
            assert forall|y: int|
                s.map(f).remove(f(x)).contains(y) implies s.remove(x).map(f).contains(y) by {
                let u = choose|u: int| s.contains(u) && f(u) == y;
                assert(u != x);
                assert(s.remove(x).contains(u));
            }
        }
        assert(s.map(f).contains(f(x)));
        assert(s.map(f).remove(f(x)).len() == s.map(f).len() - 1);
    }
}

/// With distinct taxon names, a leaf's rank is the number of leaves whose
/// names sort before its own.
proof fn lemma_rank_counts_smaller(t: TreeData, u: int)
    requires
        node_count(t) <= usize::MAX,
        0 <= u < node_count(t),
        is_leaf(t, u),
        distinct_leaf_names(t),
    ensures
        smaller_named(t, u).finite(),
        leaf_rank(t, u) == smaller_named(t, u).len(),
{
    crate::snapshot::lemma_leaf_keys_shape(t);
    crate::snapshot::lemma_leaf_rank_facts(t, u);
    crate::order::lemma_leaf_le_total();
    crate::tree::leaf_keys(t).lemma_sort_by_ensures(crate::order::leaf_le_fn());
    let sk = sorted_leaf_keys(t);
    let k = leaf_rank(t, u);
    // before position k stand exactly the leaves with smaller names
    assert forall|j: int| 0 <= j < k implies smaller_named(t, u).contains(
        #[trigger] sk[j].1 as int,
    ) by {
        let w = sk[j].1 as int;
        assert(sk[j] == leaf_key(t, w));
        let leq = crate::order::leaf_le_fn();
        assert(leq(sk[j], sk[k]));
        assert(leaf_le(sk[j], sk[k]));
        if !bytes_lt(leaf_name(t, w), leaf_name(t, u)) {
            assert(leaf_name(t, w) == leaf_name(t, u));
            if w != u {
                assert(false);
            }
            assert(sk[j] == sk[k]);
            assert(sk[j].1 != sk[k].1);
        }
    }
    assert forall|w: int| smaller_named(t, u).contains(w) implies exists|j: int|
        0 <= j < k && #[trigger] sk[j].1 as int == w by {
        crate::snapshot::lemma_leaf_rank_facts(t, w);
        let jw = leaf_rank(t, w);
        assert(sk[jw] == leaf_key(t, w));
        if jw > k {
            let leq = crate::order::leaf_le_fn();
            assert(leq(sk[k], sk[jw]));
            assert(leaf_le(leaf_key(t, u), leaf_key(t, w)));
            if bytes_lt(leaf_name(t, u), leaf_name(t, w)) {
                crate::order::lemma_bytes_lt_props(leaf_name(t, u), leaf_name(t, w));
            } else {
                assert(leaf_name(t, u) == leaf_name(t, w));
                if w != u {
                    assert(false);
                }
                crate::order::lemma_bytes_lt_props(leaf_name(t, u), leaf_name(t, u));
            }
        }
        if jw == k {
            assert(sk[k] == leaf_key(t, u));
            assert(w == u);
            crate::order::lemma_bytes_lt_props(leaf_name(t, u), leaf_name(t, u));
        }
        assert(0 <= jw < k);
        assert(sk[jw].1 as int == w);
    }
    // so the set is the image of the positions below k
    let rng = vstd::set_lib::set_int_range(0, k);
    vstd::set_lib::lemma_int_range(0, k);
    let img = rng.map(|j: int| sk[j].1 as int);
    assert(img =~= smaller_named(t, u)) by {
        assert forall|w: int| img.contains(w) implies smaller_named(t, u).contains(w) by {
            let j = choose|j: int| rng.contains(j) && sk[j].1 as int == w;
            assert(smaller_named(t, u).contains(sk[j].1 as int));
        }
        assert forall|w: int| smaller_named(t, u).contains(w) implies img.contains(w) by {
            let j = choose|j: int| 0 <= j < k && #[trigger] sk[j].1 as int == w;
            assert(rng.contains(j));
        }
    }
    lemma_set_inj_map_len(rng, |j: int| sk[j].1 as int);
}

/// The renaming preserves every leaf's rank.
proof fn lemma_permuted_rank(
    t1: TreeData,
    t2: TreeData,
    f: spec_fn(int) -> int,
    g: spec_fn(int) -> int,
    u: int,
)
    requires
        node_permuted(t1, t2, f, g),
        distinct_leaf_names(t1),
        0 <= u < node_count(t1),
        is_leaf(t1, u),
    ensures
        leaf_rank(t2, f(u)) == leaf_rank(t1, u),
{
    let n = node_count(t1);
    assert(distinct_leaf_names(t2)) by {
        assert forall|w1: int, w2: int|
            0 <= w1 < n && 0 <= w2 < n && w1 != w2 && is_leaf(t2, w1) && is_leaf(
                t2,
                w2,
            ) implies leaf_name(t2, w1) != leaf_name(t2, w2) by {
            let v1 = g(w1);
            let v2 = g(w2);
            assert(f(v1) == w1 && f(v2) == w2);
            assert(v1 != v2);
            lemma_permuted_leaf(t1, t2, f, g, v1);
            lemma_permuted_leaf(t1, t2, f, g, v2);
            assert(leaf_name(t2, w1) == leaf_name(t1, v1));
            assert(leaf_name(t2, w2) == leaf_name(t1, v2));
        }
    }
    lemma_permuted_leaf(t1, t2, f, g, u);
    lemma_rank_counts_smaller(t1, u);
    lemma_rank_counts_smaller(t2, f(u));
    // the smaller-named leaves correspond one to one under the renaming
    assert(smaller_named(t2, f(u)) =~= smaller_named(t1, u).map(f)) by {
        assert forall|w: int|
            smaller_named(t2, f(u)).contains(w) implies smaller_named(t1, u).map(f).contains(
            w,
        ) by {
            let v = g(w);
            assert(f(v) == w);
            lemma_permuted_leaf(t1, t2, f, g, v);
            assert(leaf_name(t2, w) == leaf_name(t1, v));
            assert(leaf_name(t2, f(u)) == leaf_name(t1, u));
            assert(smaller_named(t1, u).contains(v));
        }
        assert forall|w: int|
            smaller_named(t1, u).map(f).contains(w) implies smaller_named(t2, f(u)).contains(
            w,
        ) by {
            let v = choose|v: int| smaller_named(t1, u).contains(v) && f(v) == w;
            lemma_permuted_leaf(t1, t2, f, g, v);
            assert(leaf_name(t2, f(v)) == leaf_name(t1, v));
            assert(leaf_name(t2, f(u)) == leaf_name(t1, u));
        }
    }
    lemma_set_inj_map_len(smaller_named(t1, u), f);
}

} // verus!

verus! {

/// The renaming preserves every node's split.
proof fn lemma_permuted_split(
    t1: TreeData,
    t2: TreeData,
    f: spec_fn(int) -> int,
    g: spec_fn(int) -> int,
    v: int,
)
    requires
        node_permuted(t1, t2, f, g),
        distinct_leaf_names(t1),
        0 <= v < node_count(t1),
    ensures
        split_set(t2, f(v)) == split_set(t1, v),
{
    let n = node_count(t1);
    lemma_permuted_symmetric(t1, t2, f, g);
    assert forall|j: int| split_set(t2, f(v)).contains(j) implies split_set(t1, v).contains(j) by {
        let u2 = choose|u2: int|
            0 <= u2 < node_count(t2) && is_leaf(t2, u2) && #[trigger] reaches(t2, f(v), u2)
                && leaf_rank(t2, u2) == j;
        let u1 = g(u2);
        lemma_permuted_reaches(t2, t1, g, f, f(v), u2);
        assert(g(f(v)) == v);
        assert(reaches(t1, v, u1));
        lemma_permuted_leaf(t2, t1, g, f, u2);
        assert(is_leaf(t1, u1));
        lemma_permuted_rank(t1, t2, f, g, u1);
        assert(f(u1) == u2);
        assert(leaf_rank(t1, u1) == j);
    }
    assert forall|j: int| split_set(t1, v).contains(j) implies split_set(t2, f(v)).contains(j) by {
        let u1 = choose|u1: int|
            0 <= u1 < node_count(t1) && is_leaf(t1, u1) && #[trigger] reaches(t1, v, u1)
                && leaf_rank(t1, u1) == j;
        lemma_permuted_reaches(t1, t2, f, g, v, u1);
        lemma_permuted_leaf(t1, t2, f, g, u1);
        lemma_permuted_rank(t1, t2, f, g, u1);
        assert(reaches(t2, f(v), f(u1)));
    }
    assert(split_set(t2, f(v)) =~= split_set(t1, v));
}

/// The renaming preserves the leaf count.
proof fn lemma_permuted_leaf_count(
    t1: TreeData,
    t2: TreeData,
    f: spec_fn(int) -> int,
    g: spec_fn(int) -> int,
)
    requires
        node_permuted(t1, t2, f, g),
    ensures
        leaf_count(t2) == leaf_count(t1),
{
    lemma_permuted_symmetric(t1, t2, f, g);
    lemma_leaf_count_card(t1);
    lemma_leaf_count_card(t2);
    assert(leaf_node_set(t2) =~= leaf_node_set(t1).map(f)) by {
        assert forall|w: int| leaf_node_set(t2).contains(w) implies leaf_node_set(t1).map(
            f,
        ).contains(w) by {
            let v = g(w);
            assert(f(v) == w);
            lemma_permuted_leaf(t1, t2, f, g, v);
            assert(leaf_node_set(t1).contains(v));
        }
        assert forall|w: int| leaf_node_set(t1).map(f).contains(w) implies leaf_node_set(
            t2,
        ).contains(w) by {
            let v = choose|v: int| leaf_node_set(t1).contains(v) && f(v) == w;
            lemma_permuted_leaf(t1, t2, f, g, v);
        }
    }
    lemma_set_inj_map_len(leaf_node_set(t1), f);
}

/// The in-range leaf nodes, as a set.
pub open spec fn leaf_node_set(t: TreeData) -> Set<int> {
    Set::new(|w: int| 0 <= w < node_count(t) && is_leaf(t, w))
}

/// A tree has as many leaves as its leaf listing.
proof fn lemma_leaf_count_card(t: TreeData)
    requires
        node_count(t) <= usize::MAX,
    ensures
        leaf_node_set(t).finite(),
        leaf_node_set(t).len() == leaf_count(t),
{
    broadcast use vstd::seq_lib::group_to_multiset_ensures;
    broadcast use vstd::seq_lib::seq_to_set_is_finite;

    crate::snapshot::lemma_leaf_keys_shape(t);
    let sk = sorted_leaf_keys(t);
    // every leaf occupies one position of the sorted listing and every
    // position names one leaf, distinctly
    let rng = vstd::set_lib::set_int_range(0, sk.len() as int);
    vstd::set_lib::lemma_int_range(0, sk.len() as int);
    let img = rng.map(|j: int| sk[j].1 as int);
    assert(img =~= leaf_node_set(t)) by {
        assert forall|w: int| img.contains(w) implies leaf_node_set(t).contains(w) by {
            let j = choose|j: int| rng.contains(j) && sk[j].1 as int == w;
        }
        assert forall|w: int| leaf_node_set(t).contains(w) implies img.contains(w) by {
            crate::snapshot::lemma_leaf_rank_facts(t, w);
            let j = leaf_rank(t, w);
            assert(sk[j] == leaf_key(t, w));
            assert(rng.contains(j));
            assert(sk[j].1 as int == w);
        }
    }
    lemma_set_inj_map_len(rng, |j: int| sk[j].1 as int);
}

/// The renaming preserves the canonical split collection.
proof fn lemma_permuted_parts(
    t1: TreeData,
    t2: TreeData,
    f: spec_fn(int) -> int,
    g: spec_fn(int) -> int,
)
    requires
        node_permuted(t1, t2, f, g),
        distinct_leaf_names(t1),
    ensures
        spec_parts(t2) == spec_parts(t1),
{
    let n = node_count(t1);
    lemma_permuted_symmetric(t1, t2, f, g);
    lemma_permuted_leaf_count(t1, t2, f, g);
    assert(distinct_leaf_names(t2)) by {
        assert forall|w1: int, w2: int|
            0 <= w1 < n && 0 <= w2 < n && w1 != w2 && is_leaf(t2, w1) && is_leaf(
                t2,
                w2,
            ) implies leaf_name(t2, w1) != leaf_name(t2, w2) by {
            let v1 = g(w1);
            let v2 = g(w2);
            lemma_permuted_leaf(t1, t2, f, g, v1);
            lemma_permuted_leaf(t1, t2, f, g, v2);
        }
    }
    assert forall|v: int| 0 <= v < n implies (is_candidate(t2, f(v)) == #[trigger] is_candidate(
        t1,
        v,
    )) by {
        lemma_permuted_split(t1, t2, f, g, v);
        assert((f(v) == t2.root as int) == (v == t1.root as int)) by {
            if f(v) == t2.root as int && v != t1.root as int {
                assert(g(f(v)) == v && g(f(t1.root as int)) == t1.root as int);
            }
        }
        if reaches(t1, t1.root as int, v) {
            lemma_permuted_reaches(t1, t2, f, g, t1.root as int, v);
        }
        if reaches(t2, t2.root as int, f(v)) {
            lemma_permuted_reaches(t2, t1, g, f, t2.root as int, f(v));
            assert(g(t2.root as int) == t1.root as int);
            assert(g(f(v)) == v);
        }
    }
    assert forall|s: Set<int>| spec_parts(t2).contains(s) implies spec_parts(t1).contains(s) by {
        let w = choose|w: int| #[trigger]
            is_candidate(t2, w) && s == crate::bitset::canon_set(split_set(t2, w), leaf_count(t2));
        let v = g(w);
        assert(f(v) == w);
        assert(is_candidate(t1, v));
        lemma_permuted_split(t1, t2, f, g, v);
    }
    assert forall|s: Set<int>| spec_parts(t1).contains(s) implies spec_parts(t2).contains(s) by {
        let v = choose|v: int| #[trigger]
            is_candidate(t1, v) && s == crate::bitset::canon_set(split_set(t1, v), leaf_count(t1));
        lemma_permuted_split(t1, t2, f, g, v);
        assert(is_candidate(t2, f(v)));
    }
    assert(spec_parts(t2) =~= spec_parts(t1));
}

} // verus!

verus! {

/// Two snapshots built over the same canonical split collection, leaf count
/// and root signature list the same split vectors in the same order.
proof fn lemma_snapshot_determined(
    t1: TreeData,
    t2: TreeData,
    s1: crate::snapshot::TreeSnapshot,
    s2: crate::snapshot::TreeSnapshot,
)
    requires
        crate::snapshot::snapshot_matches(t1, s1),
        crate::snapshot::snapshot_matches(t2, s2),
        spec_parts(t1) == spec_parts(t2),
        leaf_count(t1) == leaf_count(t2),
        children_of(t1, t1.root as int).map_values(
            crate::snapshot::split_enc_fn(t1, s1.words as int),
        ) == children_of(t2, t2.root as int).map_values(
            crate::snapshot::split_enc_fn(t2, s2.words as int),
        ),
        t1.rooted == t2.rooted,
    ensures
        crate::order::views_of(s1.parts@) == crate::order::views_of(s2.parts@),
        crate::order::views_of(s1.root_children@) == crate::order::views_of(s2.root_children@),
        s1.words == s2.words,
        s1.num_leaves == s2.num_leaves,
        s1.rooted == s2.rooted,
{
    broadcast use vstd::seq_lib::group_to_multiset_ensures;

    assert(s1.words == s2.words);
    let v1 = crate::order::views_of(s1.parts@);
    let v2 = crate::order::views_of(s2.parts@);
    // every split vector of one listing stands in the other
    assert forall|k: int| 0 <= k < v1.len() implies v2.contains(#[trigger] v1[k]) by {
        let st = crate::bitset::bits_set(s1.parts@[k]@);
        assert(spec_parts(t1).contains(st));
        assert(spec_parts(t2).contains(st));
        let k2 = choose|k2: int|
            0 <= k2 < s2.parts@.len() && crate::bitset::bits_set(s2.parts@[k2]@) == st;
        assert(s2.parts@[k2]@ == crate::bitset::encode(st, s2.words as int));
        assert(s1.parts@[k]@ == crate::bitset::encode(st, s1.words as int));
        assert(v2[k2] == v1[k]);
    }
    assert forall|k: int| 0 <= k < v2.len() implies v1.contains(#[trigger] v2[k]) by {
        let st = crate::bitset::bits_set(s2.parts@[k]@);
        assert(spec_parts(t2).contains(st));
        assert(spec_parts(t1).contains(st));
        let k2 = choose|k2: int|
            0 <= k2 < s1.parts@.len() && crate::bitset::bits_set(s1.parts@[k2]@) == st;
        assert(s1.parts@[k2]@ == crate::bitset::encode(st, s1.words as int));
        assert(s2.parts@[k]@ == crate::bitset::encode(st, s2.words as int));
        assert(v1[k2] == v2[k]);
    }
    // both listings are strictly ascending, so they are duplicate-free and
    // sorted; equal membership then forces equality
    assert forall|k: int, l: int| 0 <= k < l < v1.len() implies v1[k] != v1[l] by {
        assert(crate::order::words_lt(s1.parts@[k]@, s1.parts@[l]@));
        crate::order::lemma_words_lt_props(s1.parts@[k]@, s1.parts@[l]@);
    }
    assert forall|k: int, l: int| 0 <= k < l < v2.len() implies v2[k] != v2[l] by {
        assert(crate::order::words_lt(s2.parts@[k]@, s2.parts@[l]@));
        crate::order::lemma_words_lt_props(s2.parts@[k]@, s2.parts@[l]@);
    }
    assert(v1.no_duplicates() && v2.no_duplicates());
    v1.lemma_multiset_has_no_duplicates();
    v2.lemma_multiset_has_no_duplicates();
    assert(v1.to_multiset() =~= v2.to_multiset()) by {
        assert forall|x: Seq<u64>| #[trigger] v1.to_multiset().count(x) == v2.to_multiset().count(
            x,
        ) by {
            if v1.contains(x) {
                let k = choose|k: int| 0 <= k < v1.len() && v1[k] == x;
                assert(v2.contains(x));
            } else {
                if v2.contains(x) {
                    let k = choose|k: int| 0 <= k < v2.len() && v2[k] == x;
                    assert(v1.contains(x));
                }
                assert(v1.to_multiset().count(x) == 0 && v2.to_multiset().count(x) == 0);
            }
        }
    }
    crate::order::lemma_word_le_total();
    assert(vstd::relations::sorted_by(v1, crate::order::word_le_fn())) by {
        assert forall|k: int, l: int|
            0 <= k < l < v1.len() implies #[trigger] crate::order::word_le_fn()(v1[k], v1[l]) by {
            assert(crate::order::words_lt(s1.parts@[k]@, s1.parts@[l]@));
        }
    }
    assert(vstd::relations::sorted_by(v2, crate::order::word_le_fn())) by {
        assert forall|k: int, l: int|
            0 <= k < l < v2.len() implies #[trigger] crate::order::word_le_fn()(v2[k], v2[l]) by {
            assert(crate::order::words_lt(s2.parts@[k]@, s2.parts@[l]@));
        }
    }
    vstd::seq_lib::lemma_sorted_unique(v1, v2, crate::order::word_le_fn());
}

/// Renaming the node identifiers leaves every observable of the snapshot
/// unchanged: the same split listing, the same root signature, the same
/// geometry, and the same unweighted distance to any fixed reference
/// snapshot. (The recorded branch lengths are the one exception: when two
/// branches of one tree induce the same canonical split, the builder keeps
/// the higher-indexed branch's length, and the renaming can change which
/// branch that is.)
pub proof fn lemma_node_permutation_invariance(
    t1: TreeData,
    t2: TreeData,
    f: spec_fn(int) -> int,
    g: spec_fn(int) -> int,
    s1: crate::snapshot::TreeSnapshot,
    s2: crate::snapshot::TreeSnapshot,
    r: crate::snapshot::TreeSnapshot,
)
    requires
        node_permuted(t1, t2, f, g),
        distinct_leaf_names(t1),
        crate::snapshot::snapshot_matches(t1, s1),
        crate::snapshot::snapshot_matches(t2, s2),
    ensures
        crate::order::views_of(s1.parts@) == crate::order::views_of(s2.parts@),
        crate::order::views_of(s1.root_children@) == crate::order::views_of(s2.root_children@),
        s1.words == s2.words,
        s1.num_leaves == s2.num_leaves,
        s1.rooted == s2.rooted,
        crate::distances::spec_rf(s1, r) == crate::distances::spec_rf(s2, r),
        crate::distances::spec_rf(r, s1) == crate::distances::spec_rf(r, s2),
{
    lemma_permuted_parts(t1, t2, f, g);
    lemma_permuted_leaf_count(t1, t2, f, g);
    // the root's child splits correspond position for position
    assert(children_of(t1, t1.root as int).map_values(
        crate::snapshot::split_enc_fn(t1, s1.words as int),
    ) =~= children_of(t2, t2.root as int).map_values(
        crate::snapshot::split_enc_fn(t2, s2.words as int),
    )) by {
        let root1 = t1.root as int;
        let c1 = children_of(t1, root1);
        let c2 = children_of(t2, t2.root as int);
        assert(t2.root as int == f(root1));
        assert(c2.len() == c1.len());
        assert(s1.words == s2.words);
        assert forall|m: int|
            0 <= m < c1.len() implies c2.map_values(
            crate::snapshot::split_enc_fn(t2, s2.words as int),
        )[m] == c1.map_values(crate::snapshot::split_enc_fn(t1, s1.words as int))[m] by {
            assert(c2[m] as int == f(c1[m] as int));
            assert(0 <= (c1[m] as int) && (c1[m] as int) < node_count(t1));
            lemma_permuted_split(t1, t2, f, g, c1[m] as int);
            assert(split_set(t2, c2[m] as int) == split_set(t1, c1[m] as int));
        }
    }
    lemma_snapshot_determined(t1, t2, s1, s2);
    // the unweighted distance reads only what is now known equal
    assert(crate::distances::parts_set(s1) == crate::distances::parts_set(s2));
    assert(s1.parts@.len() == s2.parts@.len()) by {
        assert(crate::order::views_of(s1.parts@).len() == s1.parts@.len());
        assert(crate::order::views_of(s2.parts@).len() == s2.parts@.len());
    }
    assert(crate::distances::rf_base(s1, r) == crate::distances::rf_base(s2, r));
    assert(crate::distances::rf_base(r, s1) == crate::distances::rf_base(r, s2)) by {
        assert(crate::distances::parts_set(r).intersect(crate::distances::parts_set(s1))
            == crate::distances::parts_set(r).intersect(crate::distances::parts_set(s2)));
    }
}

} // verus!
