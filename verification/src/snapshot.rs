//! Building the immutable split summary of one tree.
//!
//! [`TreeSnapshot::from_tree`] reads a [`TreeData`], ranks its leaves by
//! taxon name, walks the structure bottom-up filling one packed bit vector
//! per reachable node, and records every canonical non-trivial split with a
//! branch length, together with the root signature. The result is pinned to
//! the spec model of `tree`: the split vectors are exactly the encodings of
//! the candidate splits, the lengths come from the highest-indexed node that
//! produced each canonical split, and the root signature lists the root's
//! child splits in sorted order.

use crate::bitset::{bit_at, bits_set, Bitset};
use crate::order::{copy_bytes, leaf_le_fn, leaf_views_of, lemma_leaf_le_total, sort_leaves};
use crate::tree::{
    child_edge, children_of, edge_code, has_cycle, has_dangling, is_candidate, is_leaf, is_path,
    is_split_len, leaf_count, leaf_ids, leaf_key, leaf_key_fn, leaf_keys, leaf_name, leaf_pred,
    leaf_rank, node_count, reaches, sorted_leaf_keys, spec_parts, split_set, well_formed, TreeData,
    TreeStructureError,
};
use vstd::prelude::*;
use vstd::relations::sorted_by;
use vstd::seq_lib::group_to_multiset_ensures;
use vstd::seq_lib::lemma_sorted_unique;

verus! {

/// Everything in a filtered sequence comes from the base sequence.
pub(crate) proof fn lemma_filter_subset<A>(s: Seq<A>, pred: spec_fn(A) -> bool, x: A)
    requires
        s.filter(pred).contains(x),
    ensures
        s.contains(x),
    decreases s.len(),
{
    reveal(Seq::filter);
    if s.len() > 0 {
        if s.filter(pred) =~= s.drop_last().filter(pred) {
            lemma_filter_subset(s.drop_last(), pred, x);
            let i = choose|i: int| 0 <= i < s.drop_last().len() && s.drop_last()[i] == x;
            assert(s[i] == x);
        } else {
            let f = s.filter(pred);
            if x == s.last() {
                assert(s[s.len() - 1] == x);
            } else {
                let i = choose|i: int| 0 <= i < f.len() && f[i] == x;
                assert(i < f.len() - 1);
                assert(s.drop_last().filter(pred)[i] == x);
                assert(s.drop_last().filter(pred).contains(x));
                lemma_filter_subset(s.drop_last(), pred, x);
                let j = choose|j: int| 0 <= j < s.drop_last().len() && s.drop_last()[j] == x;
                assert(s[j] == x);
            }
        }
    }
}

/// Filtering keeps a sequence free of duplicates.
pub(crate) proof fn lemma_filter_no_dup<A>(s: Seq<A>, pred: spec_fn(A) -> bool)
    requires
        s.no_duplicates(),
    ensures
        s.filter(pred).no_duplicates(),
    decreases s.len(),
{
    reveal(Seq::filter);
    if s.len() > 0 {
        lemma_filter_no_dup(s.drop_last(), pred);
        let sub = s.drop_last().filter(pred);
        if pred(s.last()) {
            assert(s.filter(pred) == sub.push(s.last()));
            if sub.contains(s.last()) {
                lemma_filter_subset(s.drop_last(), pred, s.last());
                let i = choose|i: int|
                    0 <= i < s.drop_last().len() && s.drop_last()[i] == s.last();
                assert(s[i] == s[s.len() - 1]);
                assert(false);
            }
            assert forall|i: int, j: int|
                0 <= i < j < sub.push(s.last()).len() implies sub.push(s.last())[i] != sub.push(
                s.last(),
            )[j] by {
                if j < sub.len() {
                    assert(sub[i] != sub[j]);
                } else {
                    assert(!sub.contains(s.last()));
                    if sub.push(s.last())[i] == s.last() {
                        assert(sub.contains(s.last()));
                    }
                }
            }
        }
    }
}

/// The leaf node indices among `0 .. m`, in index order.
pub open spec fn leaf_ids_below(t: TreeData, m: int) -> Seq<usize> {
    Seq::new(m as nat, |i: int| i as usize).filter(leaf_pred(t))
}

proof fn lemma_leaf_ids_step(t: TreeData, m: int)
    requires
        0 <= m < usize::MAX,
    ensures
        leaf_ids_below(t, m + 1) == (if is_leaf(t, m) {
            leaf_ids_below(t, m).push(m as usize)
        } else {
            leaf_ids_below(t, m)
        }),
{
    reveal(Seq::filter);
    let base = Seq::new((m + 1) as nat, |i: int| i as usize);
    assert(base.drop_last() =~= Seq::new(m as nat, |i: int| i as usize));
    assert(base.last() == m as usize);
    assert(leaf_pred(t)(base.last()) == is_leaf(t, m));
    assert(leaf_ids_below(t, m + 1) == (if leaf_pred(t)(base.last()) {
        base.drop_last().filter(leaf_pred(t)).push(base.last())
    } else {
        base.drop_last().filter(leaf_pred(t))
    }));
}

/// Collects the (taxon name, node index) pair of every leaf, missing names
/// read as empty, in node-index order.
pub(crate) fn collect_leaves(t: &TreeData) -> (r: Vec<(Vec<u8>, usize)>)
    ensures
        leaf_views_of(r@) == leaf_keys(*t),
{
    let n = t.nodes.len();
    let mut out: Vec<(Vec<u8>, usize)> = Vec::new();
    let mut i: usize = 0;
    while i < n
        invariant
            i <= n,
            n == node_count(*t),
            leaf_views_of(out@) == leaf_ids_below(*t, i as int).map_values(leaf_key_fn(*t)),
        decreases n - i,
    {
        let ghost pre = out@;
        if t.nodes[i].children.len() == 0 {
            let name: Vec<u8> = match &t.nodes[i].name {
                Some(nm) => copy_bytes(nm),
                None => Vec::new(),
            };
            proof {
                assert(is_leaf(*t, i as int));
            }
            let entry = (name, i);
            let ghost ev = (entry.0@, entry.1);
            out.push(entry);
            proof {
                lemma_leaf_ids_step(*t, i as int);
                assert(ev == leaf_key(*t, i as int));
                assert(leaf_views_of(out@) =~= leaf_views_of(pre).push(ev));
                assert(leaf_ids_below(*t, i + 1).map_values(leaf_key_fn(*t))
                    =~= leaf_ids_below(*t, i as int).map_values(leaf_key_fn(*t)).push(
                    leaf_key(*t, i as int),
                ));
            }
        } else {
            proof {
                lemma_leaf_ids_step(*t, i as int);
            }
        }
        i = i + 1;
    }
    proof {
        assert(leaf_ids_below(*t, n as int) == leaf_ids(*t));
        assert(leaf_views_of(out@) =~= leaf_keys(*t));
    }
    out
}

/// A sorted permutation of the leaf keys is the spec-level sorted listing.
proof fn lemma_sorted_leaf_views(t: TreeData, s: Seq<(Seq<u8>, usize)>)
    requires
        sorted_by(s, leaf_le_fn()),
        s.to_multiset() == leaf_keys(t).to_multiset(),
    ensures
        s == sorted_leaf_keys(t),
{
    lemma_leaf_le_total();
    leaf_keys(t).lemma_sort_by_ensures(leaf_le_fn());
    lemma_sorted_unique(s, sorted_leaf_keys(t), leaf_le_fn());
}

/// The node-index components of the leaf keys never repeat, and every key
/// describes its own leaf.
pub(crate) proof fn lemma_leaf_keys_shape(t: TreeData)
    requires
        node_count(t) <= usize::MAX,
    ensures
        leaf_keys(t).no_duplicates(),
        sorted_leaf_keys(t).no_duplicates(),
        sorted_leaf_keys(t).len() == leaf_count(t),
        forall|k: int|
            0 <= k < sorted_leaf_keys(t).len() ==> {
                let u = #[trigger] sorted_leaf_keys(t)[k].1 as int;
                &&& 0 <= u < node_count(t)
                &&& is_leaf(t, u)
                &&& sorted_leaf_keys(t)[k] == leaf_key(t, u)
            },
        forall|k1: int, k2: int|
            0 <= k1 < k2 < sorted_leaf_keys(t).len() ==> #[trigger] sorted_leaf_keys(t)[k1].1
                != #[trigger] sorted_leaf_keys(t)[k2].1,
{
    broadcast use group_to_multiset_ensures;

    let base = Seq::new(node_count(t) as nat, |i: int| i as usize);
    assert forall|i: int, j: int| 0 <= i < j < base.len() implies base[i] != base[j] by {
        assert(base[i] == i as usize && base[j] == j as usize);
    }
    assert(base.no_duplicates());
    lemma_filter_no_dup(base, leaf_pred(t));
    assert(leaf_ids(t).no_duplicates());
    // every leaf id is in range and a leaf
    assert forall|k: int| 0 <= k < leaf_ids(t).len() implies {
        &&& 0 <= #[trigger] leaf_ids(t)[k] < node_count(t)
        &&& is_leaf(t, leaf_ids(t)[k] as int)
    } by {
        broadcast use vstd::seq_lib::group_filter_ensures;

        assert(leaf_ids(t).contains(leaf_ids(t)[k]));
        lemma_filter_subset(base, leaf_pred(t), leaf_ids(t)[k]);
        let i = choose|i: int| 0 <= i < base.len() && base[i] == leaf_ids(t)[k];
        assert(base[i] == i as usize);
    }
    // keys inherit distinctness through the injective second component
    assert forall|k1: int, k2: int|
        0 <= k1 < k2 < leaf_keys(t).len() implies #[trigger] leaf_keys(t)[k1]
        != #[trigger] leaf_keys(t)[k2] by {
        assert(leaf_keys(t)[k1].1 == leaf_ids(t)[k1]);
        assert(leaf_keys(t)[k2].1 == leaf_ids(t)[k2]);
        assert(leaf_ids(t)[k1] != leaf_ids(t)[k2]);
    }
    assert(leaf_keys(t).no_duplicates());
    // the sorted listing is a permutation of the keys
    lemma_leaf_le_total();
    leaf_keys(t).lemma_sort_by_ensures(leaf_le_fn());
    leaf_keys(t).lemma_multiset_has_no_duplicates();
    sorted_leaf_keys(t).lemma_multiset_has_no_duplicates_conv();
    assert(leaf_keys(t).to_multiset().len() == leaf_keys(t).len());
    assert(sorted_leaf_keys(t).to_multiset().len() == sorted_leaf_keys(t).len());
    assert(sorted_leaf_keys(t).len() == leaf_keys(t).len());
    // each sorted key is some leaf's own key
    assert forall|k: int| 0 <= k < sorted_leaf_keys(t).len() implies {
        let u = #[trigger] sorted_leaf_keys(t)[k].1 as int;
        &&& 0 <= u < node_count(t)
        &&& is_leaf(t, u)
        &&& sorted_leaf_keys(t)[k] == leaf_key(t, u)
    } by {
        assert(sorted_leaf_keys(t).contains(sorted_leaf_keys(t)[k]));
        assert(sorted_leaf_keys(t).to_multiset().contains(sorted_leaf_keys(t)[k]));
        assert(leaf_keys(t).to_multiset().contains(sorted_leaf_keys(t)[k]));
        assert(leaf_keys(t).contains(sorted_leaf_keys(t)[k]));
        let i = choose|i: int|
            0 <= i < leaf_keys(t).len() && leaf_keys(t)[i] == sorted_leaf_keys(t)[k];
        assert(leaf_keys(t)[i] == leaf_key(t, leaf_ids(t)[i] as int));
    }
    // distinct ids in the sorted listing: equal ids force equal keys
    assert forall|k1: int, k2: int|
        0 <= k1 < k2 < sorted_leaf_keys(t).len() implies #[trigger] sorted_leaf_keys(t)[k1].1
        != #[trigger] sorted_leaf_keys(t)[k2].1 by {
        if sorted_leaf_keys(t)[k1].1 == sorted_leaf_keys(t)[k2].1 {
            let u = sorted_leaf_keys(t)[k1].1 as int;
            assert(sorted_leaf_keys(t)[k1] == leaf_key(t, u));
            assert(sorted_leaf_keys(t)[k2] == leaf_key(t, u));
        }
    }
}

/// Every leaf's rank is the position of its key in the sorted listing, and
/// ranks are unique within `0 .. leaf_count`.
pub proof fn lemma_leaf_rank_facts(t: TreeData, u: int)
    requires
        node_count(t) <= usize::MAX,
        0 <= u < node_count(t),
        is_leaf(t, u),
    ensures
        0 <= leaf_rank(t, u) < leaf_count(t),
        sorted_leaf_keys(t)[leaf_rank(t, u)] == leaf_key(t, u),
{
    broadcast use group_to_multiset_ensures;

    lemma_leaf_keys_shape(t);
    let base = Seq::new(node_count(t) as nat, |i: int| i as usize);
    broadcast use vstd::seq_lib::group_filter_ensures;

    assert(base[u] == u as usize);
    assert(leaf_pred(t)(base[u]));
    assert(leaf_ids(t).contains(u as usize));
    let i = choose|i: int| 0 <= i < leaf_ids(t).len() && leaf_ids(t)[i] == u as usize;
    assert(leaf_keys(t)[i] == leaf_key(t, u));
    assert(leaf_keys(t).contains(leaf_key(t, u)));
    lemma_leaf_le_total();
    leaf_keys(t).lemma_sort_by_ensures(leaf_le_fn());
    assert(leaf_keys(t).to_multiset().contains(leaf_key(t, u)));
    assert(sorted_leaf_keys(t).to_multiset().contains(leaf_key(t, u)));
    assert(sorted_leaf_keys(t).contains(leaf_key(t, u)));
    let k = choose|k: int|
        0 <= k < sorted_leaf_keys(t).len() && sorted_leaf_keys(t)[k] == leaf_key(t, u);
    assert(sorted_leaf_keys(t)[leaf_rank(t, u)] == leaf_key(t, u));
}

/// Builds the node-to-rank table: `Some(rank)` on leaves, `None` elsewhere.
fn build_leaf_index(t: &TreeData, sorted: &Vec<(Vec<u8>, usize)>) -> (r: Vec<Option<usize>>)
    requires
        leaf_views_of(sorted@) == sorted_leaf_keys(*t),
        node_count(*t) <= usize::MAX,
    ensures
        r@.len() == node_count(*t),
        forall|u: int|
            0 <= u < node_count(*t) ==> (#[trigger] r@[u]).is_some() == is_leaf(*t, u),
        forall|u: int|
            0 <= u < node_count(*t) && is_leaf(*t, u) ==> #[trigger] r@[u] == Some(
                leaf_rank(*t, u) as usize,
            ),
{
    proof {
        lemma_leaf_keys_shape(*t);
    }
    let n = t.nodes.len();
    let mut r: Vec<Option<usize>> = Vec::new();
    let mut i: usize = 0;
    while i < n
        invariant
            i <= n,
            r@.len() == i,
            forall|u: int| 0 <= u < i ==> (#[trigger] r@[u]).is_none(),
        decreases n - i,
    {
        r.push(None);
        i = i + 1;
    }
    let m = sorted.len();
    let mut k: usize = 0;
    while k < m
        invariant
            k <= m,
            m == sorted_leaf_keys(*t).len(),
            n == node_count(*t),
            r@.len() == n,
            leaf_views_of(sorted@) == sorted_leaf_keys(*t),
            forall|k1: int|
                0 <= k1 < k ==> r@[#[trigger] sorted_leaf_keys(*t)[k1].1 as int] == Some(
                    k1 as usize,
                ),
            forall|u: int|
                0 <= u < n && (forall|k1: int|
                    0 <= k1 < k ==> (#[trigger] sorted_leaf_keys(*t)[k1]).1 != u as usize) ==> (
                #[trigger] r@[u]).is_none(),
        decreases m - k,
    {
        proof {
            lemma_leaf_keys_shape(*t);
            assert(leaf_views_of(sorted@)[k as int] == sorted_leaf_keys(*t)[k as int]);
        }
        let id = sorted[k].1;
        proof {
            assert(id == sorted_leaf_keys(*t)[k as int].1);
            assert(0 <= id < node_count(*t));
        }
        r.set(id, Some(k));
        proof {
            assert forall|k1: int|
                0 <= k1 < k + 1 implies r@[#[trigger] sorted_leaf_keys(*t)[k1].1 as int] == Some(
                k1 as usize,
            ) by {
                if k1 < k {
                    assert(sorted_leaf_keys(*t)[k1].1 != sorted_leaf_keys(*t)[k as int].1);
                }
            }
        }
        k = k + 1;
    }
    proof {
        lemma_leaf_keys_shape(*t);
        assert forall|u: int|
            0 <= u < node_count(*t) implies (#[trigger] r@[u]).is_some() == is_leaf(*t, u) && (
        is_leaf(*t, u) ==> r@[u] == Some(leaf_rank(*t, u) as usize)) by {
            if is_leaf(*t, u) {
                lemma_leaf_rank_facts(*t, u);
                let rk = leaf_rank(*t, u);
                assert(sorted_leaf_keys(*t)[rk].1 == u as usize);
                assert(r@[u] == Some(rk as usize));
            } else {
                if !(forall|k1: int|
                    0 <= k1 < m ==> (#[trigger] sorted_leaf_keys(*t)[k1]).1 != u as usize) {
                    let k1 = choose|k1: int|
                        0 <= k1 < m && (#[trigger] sorted_leaf_keys(*t)[k1]).1 == u as usize;
                    assert(is_leaf(*t, sorted_leaf_keys(*t)[k1].1 as int));
                    assert(false);
                }
            }
        }
    }
    r
}

} // verus!

verus! {

/// The computed word sequence of node `u`; empty while `u` is unfinished.
pub open spec fn done_bits(done: Seq<Option<Bitset>>, u: int) -> Seq<u64> {
    match done[u] {
        Some(b) => b@,
        None => Seq::empty(),
    }
}

/// Child `m` of node `u` is finished and carries bit `j`.
pub open spec fn child_bit(t: TreeData, done: Seq<Option<Bitset>>, u: int, m: int, j: int) -> bool {
    let c = children_of(t, u)[m] as int;
    &&& 0 <= c < node_count(t)
    &&& done[c].is_some()
    &&& bit_at(done_bits(done, c), j)
}

/// Bit `j` after folding the first `c` children of node `u`: the node's own
/// leaf rank, or a bit of a folded child.
pub open spec fn acc_bit(t: TreeData, done: Seq<Option<Bitset>>, u: int, c: int, j: int) -> bool {
    ||| (is_leaf(t, u) && leaf_rank(t, u) == j)
    ||| exists|m: int| 0 <= m < c && child_bit(t, done, u, m, j)
}

/// Child `m` of node `u` is in range and finished.
pub open spec fn child_done(t: TreeData, done: Seq<Option<Bitset>>, u: int, m: int) -> bool {
    let c = children_of(t, u)[m] as int;
    &&& 0 <= c < node_count(t)
    &&& done[c].is_some()
}

/// Child `m` of `order[k]` is in range and was finished before position `k`.
pub open spec fn child_before(t: TreeData, order: Seq<int>, k: int, m: int) -> bool {
    let c = children_of(t, order[k])[m] as int;
    &&& 0 <= c < node_count(t)
    &&& exists|k2: int| 0 <= k2 < k && order[k2] == c
}

/// The finished nodes, their completion order, and their bit vectors are
/// consistent: `order` lists each finished node once, children finish before
/// their parents, every finished node is reachable from the root, and each
/// finished vector satisfies the fold equation over its children.
pub open spec fn done_ok(
    t: TreeData,
    done: Seq<Option<Bitset>>,
    order: Seq<int>,
    words: int,
) -> bool {
    &&& node_count(t) <= usize::MAX
    &&& done.len() == node_count(t)
    &&& order.no_duplicates()
    &&& forall|k: int| 0 <= k < order.len() ==> 0 <= #[trigger] order[k] < node_count(t)
    &&& forall|u: int|
        0 <= u < node_count(t) ==> ((#[trigger] done[u]).is_some() <==> order.contains(u))
    &&& forall|k: int|
        0 <= k < order.len() ==> reaches(t, t.root as int, #[trigger] order[k])
    &&& forall|k: int, m: int|
        0 <= k < order.len() && 0 <= m < children_of(t, order[k]).len() ==> child_before(
            t,
            order,
            k,
            m,
        )
    &&& forall|u: int|
        0 <= u < node_count(t) && (#[trigger] done[u]).is_some() ==> done_bits(done, u).len()
            == words
    &&& forall|u: int, j: int|
        0 <= u < node_count(t) && done[u].is_some() ==> (#[trigger] bit_at(done_bits(done, u), j)
            <==> #[trigger] acc_bit(t, done, u, children_of(t, u).len() as int, j))
}

/// One stacked frame: the node, how many of its children are folded in, and
/// the fold so far.
pub open spec fn frame_ok(
    t: TreeData,
    done: Seq<Option<Bitset>>,
    sv: Seq<(usize, usize, Bitset)>,
    words: int,
    k: int,
) -> bool {
    let v = sv[k].0 as int;
    let c = sv[k].1 as int;
    let acc = sv[k].2;
    &&& 0 <= v < node_count(t)
    &&& reaches(t, t.root as int, v)
    &&& done[v].is_none()
    &&& c <= children_of(t, v).len()
    &&& acc@.len() == words
    &&& forall|m: int| 0 <= m < c ==> child_done(t, done, v, m)
    &&& forall|j: int| #[trigger] bit_at(acc@, j) <==> acc_bit(t, done, v, c, j)
}

/// The whole stack: frames are well-formed, hold distinct nodes, start at the
/// root, and each frame's cursor points at the frame above it.
pub open spec fn stack_ok(
    t: TreeData,
    done: Seq<Option<Bitset>>,
    sv: Seq<(usize, usize, Bitset)>,
    on_stack: Seq<bool>,
    words: int,
) -> bool {
    &&& sv.len() > 0 ==> sv[0].0 == t.root
    &&& forall|k: int| 0 <= k < sv.len() ==> #[trigger] frame_ok(t, done, sv, words, k)
    &&& forall|k1: int, k2: int| 0 <= k1 < k2 < sv.len() ==> sv[k1].0 != sv[k2].0
    &&& forall|k: int|
        0 <= k < sv.len() - 1 ==> {
            &&& (#[trigger] sv[k].1 as int) < children_of(t, sv[k].0 as int).len()
            &&& children_of(t, sv[k].0 as int)[sv[k].1 as int] == sv[k + 1].0
        }
    &&& on_stack.len() == node_count(t)
    &&& forall|u: int|
        0 <= u < node_count(t) ==> (on_stack[u] <==> exists|k: int|
            0 <= k < sv.len() && #[trigger] sv[k].0 == u as usize)
}

} // verus!

verus! {

/// How many nodes are still unfinished.
pub open spec fn none_count(done: Seq<Option<Bitset>>) -> int
    decreases done.len(),
{
    if done.len() == 0 {
        0
    } else {
        none_count(done.drop_last()) + (if done.last().is_none() {
            1int
        } else {
            0int
        })
    }
}

proof fn lemma_none_count_bounds(done: Seq<Option<Bitset>>)
    ensures
        0 <= none_count(done) <= done.len(),
    decreases done.len(),
{
    if done.len() > 0 {
        lemma_none_count_bounds(done.drop_last());
    }
}

proof fn lemma_none_count_update(done: Seq<Option<Bitset>>, v: int, b: Bitset)
    requires
        0 <= v < done.len(),
        done[v].is_none(),
    ensures
        none_count(done.update(v, Some(b))) == none_count(done) - 1,
    decreases done.len(),
{
    let upd = done.update(v, Some(b));
    if v == done.len() - 1 {
        assert(upd.drop_last() =~= done.drop_last());
    } else {
        assert(upd.drop_last() =~= done.drop_last().update(v, Some(b)));
        lemma_none_count_update(done.drop_last(), v, b);
    }
}

/// The child slots still to fold, over the whole stack.
pub open spec fn rem_work(t: TreeData, sv: Seq<(usize, usize, Bitset)>) -> int
    decreases sv.len(),
{
    if sv.len() == 0 {
        0
    } else {
        let v = sv.last().0 as int;
        let c = sv.last().1 as int;
        rem_work(t, sv.drop_last()) + (if 0 <= v < node_count(t) && c <= children_of(t, v).len() {
            children_of(t, v).len() - c
        } else {
            0int
        })
    }
}

proof fn lemma_rem_work_nonneg(t: TreeData, sv: Seq<(usize, usize, Bitset)>)
    ensures
        rem_work(t, sv) >= 0,
    decreases sv.len(),
{
    if sv.len() > 0 {
        lemma_rem_work_nonneg(t, sv.drop_last());
    }
}

/// The completion position of a finished node.
pub open spec fn opos(order: Seq<int>, u: int) -> int {
    order.index_of(u)
}

/// With children finished before parents, a finished node's child is
/// finished at a strictly earlier position.
proof fn lemma_child_pos(t: TreeData, done: Seq<Option<Bitset>>, order: Seq<int>, u: int, c: int, words: int)
    requires
        done_ok(t, done, order, words),
        0 <= u < node_count(t),
        done[u].is_some(),
        child_edge(t, u, c),
    ensures
        0 <= c < node_count(t),
        done[c].is_some(),
        0 <= opos(order, c) < opos(order, u) < order.len(),
        order[opos(order, u)] == u,
        order[opos(order, c)] == c,
{
    assert(order.contains(u));
    let k = choose|k: int| 0 <= k < order.len() && order[k] == u;
    assert(order[opos(order, u)] == u);
    let ku = opos(order, u);
    assert(0 <= ku < order.len());
    assert(order[ku] == u);
    let m = choose|m: int| 0 <= m < children_of(t, u).len() && children_of(t, u)[m] == c as usize;
    assert(child_before(t, order, ku, m));
    assert(children_of(t, order[ku])[m] as int == c);
    assert(exists|k2: int| 0 <= k2 < ku && order[k2] == c);
    let k2 = choose|k2: int| 0 <= k2 < ku && order[k2] == c;
    assert(order[k2] == c);
    assert(order.contains(c));
    let kc = opos(order, c);
    assert(0 <= kc < order.len());
    assert(order[kc] == c);
    if kc != k2 {
        assert(order[kc] == order[k2]);
        assert(false);
    }
}

/// Along any child path through finished nodes, completion positions fall.
proof fn lemma_path_pos(
    t: TreeData,
    done: Seq<Option<Bitset>>,
    order: Seq<int>,
    words: int,
    p: Seq<int>,
)
    requires
        done_ok(t, done, order, words),
        is_path(t, p),
        done[p.first()].is_some(),
    ensures
        done[p.last()].is_some(),
        p.len() >= 2 ==> opos(order, p.last()) < opos(order, p.first()),
    decreases p.len(),
{
    if p.len() >= 2 {
        let u = p.first();
        let c = p[1];
        assert(child_edge(t, u, c));
        lemma_child_pos(t, done, order, u, c, words);
        let q = p.drop_first();
        assert(is_path(t, q)) by {
            assert forall|k: int| 0 <= k < q.len() - 1 implies child_edge(
                t,
                #[trigger] q[k],
                q[k + 1],
            ) by {
                assert(q[k] == p[k + 1] && q[k + 1] == p[k + 2]);
                assert(child_edge(t, p[k + 1], p[k + 2]));
            }
        }
        assert(q.first() == c && q.last() == p.last());
        lemma_path_pos(t, done, order, words, q);
        if q.len() >= 2 {
            assert(opos(order, p.last()) < opos(order, c));
        }
    }
}

/// Once the walk has finished every node it reached, no reachable node lies
/// on a cycle and none has a dangling child.
proof fn lemma_complete_sound(
    t: TreeData,
    done: Seq<Option<Bitset>>,
    order: Seq<int>,
    words: int,
)
    requires
        done_ok(t, done, order, words),
        t.root < node_count(t),
        done[t.root as int].is_some(),
    ensures
        forall|u: int| 0 <= u < node_count(t) ==> ((#[trigger] done[u]).is_some() <==> reaches(
            t,
            t.root as int,
            u,
        )),
        !has_dangling(t),
        !has_cycle(t),
{
    assert forall|u: int|
        0 <= u < node_count(t) implies ((#[trigger] done[u]).is_some() <==> reaches(
        t,
        t.root as int,
        u,
    )) by {
        if done[u].is_some() {
            assert(order.contains(u));
            let k = choose|k: int| 0 <= k < order.len() && order[k] == u;
            assert(reaches(t, t.root as int, order[k]));
        }
        if reaches(t, t.root as int, u) {
            let p = choose|p: Seq<int>|
                is_path(t, p) && p.first() == t.root as int && p.last() == u;
            lemma_path_pos(t, done, order, words, p);
        }
    }
    if has_dangling(t) {
        let (v, m) = choose|v: int, m: int|
            {
                &&& #[trigger] reaches(t, t.root as int, v)
                &&& 0 <= m < children_of(t, v).len()
                &&& #[trigger] children_of(t, v)[m] >= node_count(t)
            };
        assert(0 <= v < node_count(t)) by {
            let p = choose|p: Seq<int>|
                is_path(t, p) && p.first() == t.root as int && p.last() == v;
            assert(p[p.len() - 1] == v);
        }
        assert(done[v].is_some());
        assert(order.contains(v));
        let k = choose|k: int| 0 <= k < order.len() && order[k] == v;
        assert(child_before(t, order, k, m));
        assert(false);
    }
    if has_cycle(t) {
        let (v, p) = choose|v: int, p: Seq<int>|
            {
                &&& #[trigger] reaches(t, t.root as int, v)
                &&& #[trigger] is_path(t, p)
                &&& p.len() >= 2
                &&& p.first() == v
                &&& p.last() == v
            };
        assert(0 <= v < node_count(t)) by {
            let q = choose|q: Seq<int>|
                is_path(t, q) && q.first() == t.root as int && q.last() == v;
            assert(q[q.len() - 1] == v);
        }
        assert(done[v].is_some());
        lemma_path_pos(t, done, order, words, p);
        assert(false);
    }
}

/// A finished node's vector holds bit `j` exactly when some leaf of rank `j`
/// lies below the node: the fold equations compose into reachability.
proof fn lemma_bits_reach(
    t: TreeData,
    done: Seq<Option<Bitset>>,
    order: Seq<int>,
    words: int,
    u: int,
    j: int,
)
    requires
        done_ok(t, done, order, words),
        0 <= u < node_count(t),
        done[u].is_some(),
    ensures
        bit_at(done_bits(done, u), j) <==> exists|l: int|
            0 <= l < node_count(t) && is_leaf(t, l) && #[trigger] reaches(t, u, l) && leaf_rank(
                t,
                l,
            ) == j,
    decreases opos(order, u),
{
    assert(order.contains(u));
    assert(order[opos(order, u)] == u);
    assert(0 <= opos(order, u) < order.len());
    // the fold equation at u
    assert(bit_at(done_bits(done, u), j) <==> acc_bit(t, done, u, children_of(t, u).len() as int, j));
    if bit_at(done_bits(done, u), j) {
        if is_leaf(t, u) && leaf_rank(t, u) == j {
            lemma_reaches_self_local(t, u);
        } else {
            let m = choose|m: int|
                0 <= m < children_of(t, u).len() && child_bit(t, done, u, m, j);
            let c = children_of(t, u)[m] as int;
            assert(children_of(t, u).contains(c as usize));
            assert(child_edge(t, u, c));
            lemma_child_pos(t, done, order, u, c, words);
            lemma_bits_reach(t, done, order, words, c, j);
            let l = choose|l: int|
                0 <= l < node_count(t) && is_leaf(t, l) && #[trigger] reaches(t, c, l)
                    && leaf_rank(t, l) == j;
            crate::tree::lemma_reaches_unstep(t, u, c, l);
        }
    }
    if exists|l: int|
        0 <= l < node_count(t) && is_leaf(t, l) && #[trigger] reaches(t, u, l) && leaf_rank(t, l)
            == j {
        let l = choose|l: int|
            0 <= l < node_count(t) && is_leaf(t, l) && #[trigger] reaches(t, u, l) && leaf_rank(
                t,
                l,
            ) == j;
        let p = choose|p: Seq<int>| is_path(t, p) && p.first() == u && p.last() == l;
        lemma_bits_path(t, done, order, words, p, j);
    }
}

/// Helper for triggering self-reachability.
proof fn lemma_reaches_self_local(t: TreeData, v: int)
    requires
        0 <= v < node_count(t),
    ensures
        reaches(t, v, v),
{
    crate::tree::lemma_reaches_self(t, v);
}

/// Along a finished path to a leaf of rank `j`, every node carries bit `j`.
proof fn lemma_bits_path(
    t: TreeData,
    done: Seq<Option<Bitset>>,
    order: Seq<int>,
    words: int,
    p: Seq<int>,
    j: int,
)
    requires
        done_ok(t, done, order, words),
        is_path(t, p),
        done[p.first()].is_some(),
        is_leaf(t, p.last()),
        leaf_rank(t, p.last()) == j,
    ensures
        bit_at(done_bits(done, p.first()), j),
    decreases p.len(),
{
    let u = p.first();
    if p.len() == 1 {
        assert(u == p.last());
        assert(acc_bit(t, done, u, children_of(t, u).len() as int, j));
    } else {
        let c = p[1];
        assert(child_edge(t, u, c));
        lemma_child_pos(t, done, order, u, c, words);
        let q = p.drop_first();
        assert(is_path(t, q)) by {
            assert forall|k: int| 0 <= k < q.len() - 1 implies child_edge(
                t,
                #[trigger] q[k],
                q[k + 1],
            ) by {
                assert(q[k] == p[k + 1] && q[k + 1] == p[k + 2]);
                assert(child_edge(t, p[k + 1], p[k + 2]));
            }
        }
        assert(q.first() == c && q.last() == p.last());
        lemma_bits_path(t, done, order, words, q, j);
        let m = choose|m: int|
            0 <= m < children_of(t, u).len() && children_of(t, u)[m] == c as usize;
        assert(children_of(t, u)[m] as int == c);
        assert(child_bit(t, done, u, m, j));
        assert(acc_bit(t, done, u, children_of(t, u).len() as int, j));
    }
}

} // verus!

verus! {

/// The bit vector a node starts from: its own leaf rank on a leaf, all bits
/// clear otherwise.
fn initial_bits(t: &TreeData, leaf_idx: &Vec<Option<usize>>, words: usize, v: usize) -> (r: Bitset)
    requires
        (v as int) < node_count(*t),
        words * 64 <= usize::MAX,
        leaf_idx@.len() == node_count(*t),
        forall|u: int|
            0 <= u < node_count(*t) ==> (#[trigger] leaf_idx@[u]).is_some() == is_leaf(*t, u),
        forall|u: int|
            0 <= u < node_count(*t) && is_leaf(*t, u) ==> #[trigger] leaf_idx@[u] == Some(
                leaf_rank(*t, u) as usize,
            ) && 0 <= leaf_rank(*t, u) < words * 64,
    ensures
        r@.len() == words,
        forall|j: int|
            #[trigger] bit_at(r@, j) <==> (is_leaf(*t, v as int) && leaf_rank(*t, v as int) == j),
{
    let mut b = Bitset::zeros(words);
    if t.nodes[v].children.len() == 0 {
        proof {
            assert(is_leaf(*t, v as int));
            assert(leaf_idx@[v as int] == Some(leaf_rank(*t, v as int) as usize));
        }
        let oi = leaf_idx[v];
        match oi {
            Some(rk) => {
                proof {
                    assert(rk as int == leaf_rank(*t, v as int));
                }
                b.set(rk);
            },
            None => {
                proof {
                    assert(false);
                }
            },
        }
    }
    b
}

/// Folding one more finished child into the top frame keeps the stack
/// meaningful.
proof fn lemma_stack_advance(
    t: TreeData,
    done: Seq<Option<Bitset>>,
    sv0: Seq<(usize, usize, Bitset)>,
    svn: Seq<(usize, usize, Bitset)>,
    on_stack: Seq<bool>,
    words: int,
    child: usize,
)
    requires
        stack_ok(t, done, sv0, on_stack, words),
        sv0.len() > 0,
        svn.len() == sv0.len(),
        forall|k: int| 0 <= k < sv0.len() - 1 ==> #[trigger] svn[k] == sv0[k],
        svn[svn.len() - 1].0 == sv0[sv0.len() - 1].0,
        svn[svn.len() - 1].1 as int == sv0[sv0.len() - 1].1 + 1,
        (sv0[sv0.len() - 1].1 as int) < children_of(t, sv0[sv0.len() - 1].0 as int).len(),
        children_of(t, sv0[sv0.len() - 1].0 as int)[sv0[sv0.len() - 1].1 as int] == child,
        0 <= (child as int) < node_count(t),
        done[child as int].is_some(),
        svn[svn.len() - 1].2@.len() == words,
        forall|j: int|
            #[trigger] bit_at(svn[svn.len() - 1].2@, j) == (bit_at(sv0[sv0.len() - 1].2@, j)
                || bit_at(done_bits(done, child as int), j)),
    ensures
        stack_ok(t, done, svn, on_stack, words),
{
    let last = sv0.len() - 1;
    let v = sv0[last].0 as int;
    let c = sv0[last].1 as int;
    assert(frame_ok(t, done, sv0, words, last));
    assert forall|k: int| 0 <= k < svn.len() implies #[trigger] frame_ok(
        t,
        done,
        svn,
        words,
        k,
    ) by {
        if k < last {
            assert(svn[k] == sv0[k]);
            assert(frame_ok(t, done, sv0, words, k));
        } else {
            assert forall|m: int| 0 <= m < c + 1 implies child_done(t, done, v, m) by {
                if m < c {
                    assert(frame_ok(t, done, sv0, words, last));
                } else {
                    assert(children_of(t, v)[m] == child);
                }
            }
            assert forall|j: int| #[trigger] bit_at(svn[last].2@, j) <==> acc_bit(
                t,
                done,
                v,
                c + 1,
                j,
            ) by {
                assert(bit_at(svn[last].2@, j) == (bit_at(sv0[last].2@, j) || bit_at(
                    done_bits(done, child as int),
                    j,
                )));
                assert(bit_at(sv0[last].2@, j) <==> acc_bit(t, done, v, c, j));
                if bit_at(svn[last].2@, j) {
                    if bit_at(sv0[last].2@, j) {
                        if !(is_leaf(t, v) && leaf_rank(t, v) == j) {
                            let m = choose|m: int| 0 <= m < c && child_bit(t, done, v, m, j);
                            assert(child_bit(t, done, v, m, j));
                        }
                    } else {
                        assert(child_bit(t, done, v, c, j));
                    }
                }
                if acc_bit(t, done, v, c + 1, j) && !(is_leaf(t, v) && leaf_rank(t, v) == j) {
                    let m = choose|m: int| 0 <= m < c + 1 && child_bit(t, done, v, m, j);
                    if m < c {
                        assert(acc_bit(t, done, v, c, j));
                    } else {
                        assert(children_of(t, v)[m] == child);
                        assert(bit_at(done_bits(done, child as int), j));
                    }
                }
            }
        }
    }
    assert forall|k1: int, k2: int| 0 <= k1 < k2 < svn.len() implies svn[k1].0 != svn[k2].0 by {
        assert(svn[k1].0 == sv0[k1].0 && svn[k2].0 == sv0[k2].0);
    }
    assert forall|k: int| 0 <= k < svn.len() - 1 implies {
        &&& (#[trigger] svn[k].1 as int) < children_of(t, svn[k].0 as int).len()
        &&& children_of(t, svn[k].0 as int)[svn[k].1 as int] == svn[k + 1].0
    } by {
        assert(svn[k] == sv0[k]);
        assert(svn[k + 1].0 == sv0[k + 1].0);
    }
    assert forall|u: int| 0 <= u < node_count(t) implies (on_stack[u] <==> exists|k: int|
        0 <= k < svn.len() && #[trigger] svn[k].0 == u as usize) by {
        if on_stack[u] {
            let k = choose|k: int| 0 <= k < sv0.len() && #[trigger] sv0[k].0 == u as usize;
            assert(svn[k].0 == u as usize);
        }
        if exists|k: int| 0 <= k < svn.len() && #[trigger] svn[k].0 == u as usize {
            let k = choose|k: int| 0 <= k < svn.len() && #[trigger] svn[k].0 == u as usize;
            assert(sv0[k].0 == u as usize);
        }
    }
}

/// Opening a fresh frame for an untouched child keeps the stack meaningful.
proof fn lemma_stack_push_child(
    t: TreeData,
    done: Seq<Option<Bitset>>,
    sv0: Seq<(usize, usize, Bitset)>,
    svn: Seq<(usize, usize, Bitset)>,
    os0: Seq<bool>,
    osn: Seq<bool>,
    words: int,
    child: usize,
    cb: Bitset,
)
    requires
        stack_ok(t, done, sv0, os0, words),
        sv0.len() > 0,
        svn == sv0.push((child, 0usize, cb)),
        0 <= (child as int) < node_count(t),
        (sv0[sv0.len() - 1].1 as int) < children_of(t, sv0[sv0.len() - 1].0 as int).len(),
        children_of(t, sv0[sv0.len() - 1].0 as int)[sv0[sv0.len() - 1].1 as int] == child,
        done[child as int].is_none(),
        !os0[child as int],
        osn == os0.update(child as int, true),
        reaches(t, t.root as int, child as int),
        cb@.len() == words,
        forall|j: int|
            #[trigger] bit_at(cb@, j) <==> (is_leaf(t, child as int) && leaf_rank(t, child as int)
                == j),
        node_count(t) <= usize::MAX,
    ensures
        stack_ok(t, done, svn, osn, words),
        svn.len() <= node_count(t),
{
    let last = sv0.len() - 1;
    assert(frame_ok(t, done, sv0, words, last));
    assert forall|k: int| 0 <= k < svn.len() implies #[trigger] frame_ok(
        t,
        done,
        svn,
        words,
        k,
    ) by {
        if k < svn.len() - 1 {
            assert(svn[k] == sv0[k]);
            assert(frame_ok(t, done, sv0, words, k));
        } else {
            assert(svn[k] == (child, 0usize, cb));
            assert forall|j: int| #[trigger] bit_at(cb@, j) <==> acc_bit(
                t,
                done,
                child as int,
                0,
                j,
            ) by {
                if acc_bit(t, done, child as int, 0, j) && !(is_leaf(t, child as int)
                    && leaf_rank(t, child as int) == j) {
                    let m = choose|m: int| 0 <= m < 0 && child_bit(t, done, child as int, m, j);
                }
            }
        }
    }
    assert forall|k1: int, k2: int| 0 <= k1 < k2 < svn.len() implies svn[k1].0 != svn[k2].0 by {
        if k2 == svn.len() - 1 {
            if svn[k1].0 == child {
                assert(sv0[k1].0 == child);
                assert(os0[child as int]);
            }
        } else {
            assert(svn[k1].0 == sv0[k1].0 && svn[k2].0 == sv0[k2].0);
        }
    }
    assert forall|k: int| 0 <= k < svn.len() - 1 implies {
        &&& (#[trigger] svn[k].1 as int) < children_of(t, svn[k].0 as int).len()
        &&& children_of(t, svn[k].0 as int)[svn[k].1 as int] == svn[k + 1].0
    } by {
        if k < svn.len() - 2 {
            assert(svn[k] == sv0[k]);
            assert(svn[k + 1].0 == sv0[k + 1].0);
        } else {
            assert(svn[k] == sv0[last]);
            assert(svn[k + 1].0 == child);
        }
    }
    assert forall|u: int| 0 <= u < node_count(t) implies (osn[u] <==> exists|k: int|
        0 <= k < svn.len() && #[trigger] svn[k].0 == u as usize) by {
        if u == child as int {
            assert(svn[svn.len() - 1].0 == child);
        } else {
            if osn[u] {
                assert(os0[u]);
                let k = choose|k: int| 0 <= k < sv0.len() && #[trigger] sv0[k].0 == u as usize;
                assert(svn[k].0 == u as usize);
            }
            if exists|k: int| 0 <= k < svn.len() && #[trigger] svn[k].0 == u as usize {
                let k = choose|k: int| 0 <= k < svn.len() && #[trigger] svn[k].0 == u as usize;
                assert(k < svn.len() - 1);
                assert(sv0[k].0 == u as usize);
            }
        }
    }
    assert forall|k: int| 0 <= k < svn.len() implies (#[trigger] svn[k].0 as int) < node_count(
        t,
    ) by {
        assert(frame_ok(t, done, svn, words, k));
    }
    lemma_distinct_stack_len(t, svn);
}

/// A stack of distinct in-range nodes cannot outgrow the node store.
proof fn lemma_distinct_stack_len(t: TreeData, sv: Seq<(usize, usize, Bitset)>)
    requires
        forall|k1: int, k2: int| 0 <= k1 < k2 < sv.len() ==> sv[k1].0 != sv[k2].0,
        forall|k: int| 0 <= k < sv.len() ==> (#[trigger] sv[k].0 as int) < node_count(t),
        node_count(t) <= usize::MAX,
    ensures
        sv.len() <= node_count(t),
{
    let nodes = sv.map_values(|e: (usize, usize, Bitset)| e.0);
    assert forall|k1: int, k2: int|
        0 <= k1 < k2 < nodes.len() implies nodes[k1] != nodes[k2] by {
        assert(nodes[k1] == sv[k1].0 && nodes[k2] == sv[k2].0);
    }
    assert(nodes.no_duplicates());
    nodes.unique_seq_to_set();
    let rng = vstd::set_lib::set_int_range(0, node_count(t));
    vstd::set_lib::lemma_int_range(0, node_count(t));
    let as_ints = nodes.to_set().map(|u: usize| u as int);
    lemma_usize_set_map_len(nodes.to_set());
    assert(as_ints.subset_of(rng)) by {
        assert forall|x: int| as_ints.contains(x) implies rng.contains(x) by {
            let u = choose|u: usize| nodes.to_set().contains(u) && u as int == x;
            assert(nodes.contains(u));
            let k = choose|k: int| 0 <= k < nodes.len() && nodes[k] == u;
            assert(sv[k].0 == u);
        }
    }
    vstd::set_lib::lemma_len_subset(as_ints, rng);
}

/// Mapping a finite set of machine integers into mathematical integers keeps
/// its size.
pub(crate) proof fn lemma_usize_set_map_len(s: Set<usize>)
    requires
        s.finite(),
    ensures
        s.map(|u: usize| u as int).len() == s.len(),
        s.map(|u: usize| u as int).finite(),
    decreases s.len(),
{
    let f = |u: usize| u as int;
    if s.len() == 0 {
        assert(s =~= Set::empty());
        assert(s.map(f) =~= Set::empty());
    } else {
        let x = s.choose();
        assert(s.contains(x));
        lemma_usize_set_map_len(s.remove(x));
        assert(s.remove(x).map(f) =~= s.map(f).remove(x as int)) by {
            assert forall|y: int|
                s.remove(x).map(f).contains(y) implies s.map(f).remove(x as int).contains(y) by {
                let u = choose|u: usize| s.remove(x).contains(u) && f(u) == y;
                assert(s.contains(u));
            }
            assert forall|y: int|
                s.map(f).remove(x as int).contains(y) implies s.remove(x).map(f).contains(y) by {
                let u = choose|u: usize| s.contains(u) && f(u) == y;
                assert(u != x);
                assert(s.remove(x).contains(u));
            }
        }
        assert(s.map(f).contains(x as int));
        assert(s.map(f).remove(x as int).len() == s.map(f).len() - 1);
    }
}

} // verus!

verus! {

/// Finishing node `v` extends the completion order consistently: every other
/// finished node finished its children earlier, so none of them is `v` and
/// their fold equations carry over unchanged.
proof fn lemma_done_update_ok(
    t: TreeData,
    done0: Seq<Option<Bitset>>,
    order0: Seq<int>,
    words: int,
    v: int,
    acc: Bitset,
)
    requires
        done_ok(t, done0, order0, words),
        0 <= v < node_count(t),
        done0[v].is_none(),
        reaches(t, t.root as int, v),
        acc@.len() == words,
        forall|m: int|
            0 <= m < children_of(t, v).len() ==> child_done(t, done0, v, m),
        forall|j: int|
            #[trigger] bit_at(acc@, j) <==> acc_bit(t, done0, v, children_of(t, v).len() as int, j),
    ensures
        done_ok(t, done0.update(v, Some(acc)), order0.push(v), words),
        none_count(done0.update(v, Some(acc))) == none_count(done0) - 1,
{
    let dn = done0.update(v, Some(acc));
    let on = order0.push(v);
    assert(!order0.contains(v));
    assert forall|i1: int, j1: int| 0 <= i1 < j1 < on.len() implies on[i1] != on[j1] by {
        if j1 < on.len() - 1 {
            assert(order0[i1] != order0[j1]);
        } else {
            if on[i1] == v {
                assert(order0[i1] == v);
                assert(order0.contains(v));
            }
        }
    }
    assert(on.no_duplicates());
    assert forall|u: int|
        0 <= u < node_count(t) implies ((#[trigger] dn[u]).is_some() <==> on.contains(u)) by {
        if u == v {
            assert(on[on.len() - 1] == v);
        } else {
            if done0[u].is_some() {
                let k = choose|k: int| 0 <= k < order0.len() && order0[k] == u;
                assert(on[k] == u);
            }
            if on.contains(u) {
                let k = choose|k: int| 0 <= k < on.len() && on[k] == u;
                assert(k < order0.len());
                assert(order0[k] == u);
                assert(order0.contains(u));
            }
        }
    }
    assert forall|k: int| 0 <= k < on.len() implies reaches(t, t.root as int, #[trigger] on[k]) by {
        if k < order0.len() {
            assert(reaches(t, t.root as int, order0[k]));
        }
    }
    assert forall|k: int, m: int|
        0 <= k < on.len() && 0 <= m < children_of(t, on[k]).len() implies child_before(
        t,
        on,
        k,
        m,
    ) by {
        if k < order0.len() {
            assert(on[k] == order0[k]);
            assert(child_before(t, order0, k, m));
            let ch = children_of(t, order0[k])[m] as int;
            let k2 = choose|k2: int| 0 <= k2 < k && order0[k2] == ch;
            assert(on[k2] == ch);
        } else {
            assert(on[k] == v);
            assert(child_done(t, done0, v, m));
            let ch = children_of(t, v)[m] as int;
            assert(done0[ch].is_some());
            assert(order0.contains(ch));
            let k2 = choose|k2: int| 0 <= k2 < order0.len() && order0[k2] == ch;
            assert(on[k2] == ch);
        }
    }
    assert forall|u: int, j: int|
        0 <= u < node_count(t) && dn[u].is_some() implies (#[trigger] bit_at(done_bits(dn, u), j)
        <==> #[trigger] acc_bit(t, dn, u, children_of(t, u).len() as int, j)) by {
        if u == v {
            assert(done_bits(dn, v) == acc@);
            assert(bit_at(acc@, j) <==> acc_bit(t, done0, v, children_of(t, v).len() as int, j));
            assert forall|m: int|
                0 <= m < children_of(t, v).len() implies (child_bit(t, dn, v, m, j) == child_bit(
                t,
                done0,
                v,
                m,
                j,
            )) by {
                assert(child_done(t, done0, v, m));
                let ch = children_of(t, v)[m] as int;
                assert(done0[ch].is_some());
                assert(ch != v);
                assert(dn[ch] == done0[ch]);
            }
        } else {
            assert(done0[u].is_some());
            assert(done_bits(dn, u) == done_bits(done0, u));
            assert(bit_at(done_bits(done0, u), j) <==> acc_bit(
                t,
                done0,
                u,
                children_of(t, u).len() as int,
                j,
            ));
            let k = choose|k: int| 0 <= k < order0.len() && order0[k] == u;
            assert forall|m: int|
                0 <= m < children_of(t, u).len() implies (child_bit(t, dn, u, m, j) == child_bit(
                t,
                done0,
                u,
                m,
                j,
            )) by {
                assert(child_before(t, order0, k, m));
                let ch = children_of(t, u)[m] as int;
                let k2 = choose|k2: int| 0 <= k2 < k && order0[k2] == ch;
                assert(order0.contains(ch));
                assert(done0[ch].is_some());
                assert(ch != v);
                assert(dn[ch] == done0[ch]);
            }
        }
    }
    assert forall|u: int|
        0 <= u < node_count(t) && (#[trigger] dn[u]).is_some() implies done_bits(dn, u).len()
        == words by {
        if u != v {
            assert(done_bits(dn, u) == done_bits(done0, u));
        }
    }
    lemma_none_count_update(done0, v, acc);
}

/// A frame's meaning survives finishing a node that is not its own.
proof fn lemma_frame_update(
    t: TreeData,
    done0: Seq<Option<Bitset>>,
    sv0: Seq<(usize, usize, Bitset)>,
    svn: Seq<(usize, usize, Bitset)>,
    words: int,
    k: int,
    v: int,
    acc: Bitset,
)
    requires
        0 <= k < svn.len(),
        svn.len() <= sv0.len(),
        svn[k] == sv0[k],
        frame_ok(t, done0, sv0, words, k),
        0 <= v < done0.len(),
        done0.len() == node_count(t),
        done0[v].is_none(),
        sv0[k].0 as int != v,
        reaches(t, t.root as int, v),
    ensures
        frame_ok(t, done0.update(v, Some(acc)), svn, words, k),
{
    let dn = done0.update(v, Some(acc));
    let u = svn[k].0 as int;
    let c = svn[k].1 as int;
    assert forall|m: int| 0 <= m < c implies child_done(t, dn, u, m) by {
        assert(child_done(t, done0, u, m));
        let ch = children_of(t, u)[m] as int;
        if ch == v {
            assert(done0[ch].is_some());
        }
    }
    assert forall|j: int| #[trigger] bit_at(svn[k].2@, j) <==> acc_bit(t, dn, u, c, j) by {
        assert(bit_at(sv0[k].2@, j) <==> acc_bit(t, done0, u, c, j));
        assert forall|m: int|
            0 <= m < c implies (child_bit(t, dn, u, m, j) == child_bit(t, done0, u, m, j)) by {
            assert(child_done(t, done0, u, m));
            let ch = children_of(t, u)[m] as int;
            assert(ch != v);
            assert(dn[ch] == done0[ch]);
        }
    }
}

/// Closing the finished top frame keeps the remaining stack meaningful.
proof fn lemma_complete_step(
    t: TreeData,
    done0: Seq<Option<Bitset>>,
    sv0: Seq<(usize, usize, Bitset)>,
    os0: Seq<bool>,
    osn: Seq<bool>,
    words: int,
    v: usize,
    acc: Bitset,
)
    requires
        stack_ok(t, done0, sv0, os0, words),
        done0.len() == node_count(t),
        node_count(t) <= usize::MAX,
        sv0.len() > 0,
        sv0[sv0.len() - 1].0 == v,
        osn == os0.update(v as int, false),
    ensures
        stack_ok(t, done0.update(v as int, Some(acc)), sv0.drop_last(), osn, words),
{
    let dn = done0.update(v as int, Some(acc));
    let svn = sv0.drop_last();
    assert(frame_ok(t, done0, sv0, words, sv0.len() - 1));
    assert forall|k: int| 0 <= k < svn.len() implies #[trigger] frame_ok(
        t,
        dn,
        svn,
        words,
        k,
    ) by {
        assert(svn[k] == sv0[k]);
        assert(frame_ok(t, done0, sv0, words, k));
        assert(sv0[k].0 != v);
        lemma_frame_update(t, done0, sv0, svn, words, k, v as int, acc);
    }
    assert forall|k1: int, k2: int| 0 <= k1 < k2 < svn.len() implies svn[k1].0 != svn[k2].0 by {
        assert(svn[k1].0 == sv0[k1].0 && svn[k2].0 == sv0[k2].0);
    }
    assert forall|k: int| 0 <= k < svn.len() - 1 implies {
        &&& (#[trigger] svn[k].1 as int) < children_of(t, svn[k].0 as int).len()
        &&& children_of(t, svn[k].0 as int)[svn[k].1 as int] == svn[k + 1].0
    } by {
        assert(svn[k] == sv0[k]);
        assert(svn[k + 1].0 == sv0[k + 1].0);
    }
    assert forall|u: int| 0 <= u < node_count(t) implies (osn[u] <==> exists|k: int|
        0 <= k < svn.len() && #[trigger] svn[k].0 == u as usize) by {
        if u == v as int {
            if exists|k: int| 0 <= k < svn.len() && #[trigger] svn[k].0 == u as usize {
                let k = choose|k: int| 0 <= k < svn.len() && #[trigger] svn[k].0 == u as usize;
                assert(sv0[k].0 == sv0[sv0.len() - 1].0);
            }
        } else {
            if osn[u] {
                assert(os0[u]);
                let k = choose|k: int| 0 <= k < sv0.len() && #[trigger] sv0[k].0 == u as usize;
                if k == sv0.len() - 1 {
                    assert(sv0[k].0 == v);
                    assert(u == v as int);
                }
                assert(k < sv0.len() - 1);
                assert(svn[k].0 == u as usize);
            }
            if exists|k: int| 0 <= k < svn.len() && #[trigger] svn[k].0 == u as usize {
                let k = choose|k: int| 0 <= k < svn.len() && #[trigger] svn[k].0 == u as usize;
                assert(sv0[k].0 == u as usize);
            }
        }
    }
}

} // verus!

verus! {

/// Walks the tree bottom-up from the root with an explicit stack, handing
/// back the packed leaf set of every node the root reaches, or the defect
/// that stopped the walk. On success the walk has visited everything the
/// root reaches, so the absence of dangling children and cycles is part of
/// the outcome.
#[verifier::rlimit(100)]
fn compute_bitsets(t: &TreeData, leaf_idx: &Vec<Option<usize>>, words: usize) -> (r: Result<
    Vec<Option<Bitset>>,
    TreeStructureError,
>)
    requires
        (t.root as int) < node_count(*t),
        words * 64 <= usize::MAX,
        leaf_idx@.len() == node_count(*t),
        forall|u: int|
            0 <= u < node_count(*t) ==> (#[trigger] leaf_idx@[u]).is_some() == is_leaf(*t, u),
        forall|u: int|
            0 <= u < node_count(*t) && is_leaf(*t, u) ==> #[trigger] leaf_idx@[u] == Some(
                leaf_rank(*t, u) as usize,
            ) && 0 <= leaf_rank(*t, u) < words * 64,
    ensures
        match r {
            Ok(done) => {
                &&& done@.len() == node_count(*t)
                &&& forall|u: int|
                    0 <= u < node_count(*t) ==> ((#[trigger] done@[u]).is_some() <==> reaches(
                        *t,
                        t.root as int,
                        u,
                    ))
                &&& forall|u: int|
                    0 <= u < node_count(*t) && (#[trigger] done@[u]).is_some() ==> done_bits(
                        done@,
                        u,
                    ).len() == words
                &&& forall|u: int, j: int|
                    0 <= u < node_count(*t) && done@[u].is_some() ==> (#[trigger] bit_at(
                        done_bits(done@, u),
                        j,
                    ) <==> split_set(*t, u).contains(j))
                &&& !has_dangling(*t)
                &&& !has_cycle(*t)
            },
            Err(e) => {
                &&& (e == TreeStructureError::DanglingReference || e
                    == TreeStructureError::CyclicReference)
                &&& (e == TreeStructureError::DanglingReference ==> has_dangling(*t))
                &&& (e == TreeStructureError::CyclicReference ==> has_cycle(*t))
            },
        },
{
    let n = t.nodes.len();
    let mut done: Vec<Option<Bitset>> = Vec::new();
    let mut on_stack: Vec<bool> = Vec::new();
    let mut i: usize = 0;
    while i < n
        invariant
            i <= n,
            done@.len() == i,
            on_stack@.len() == i,
            forall|u: int| 0 <= u < i ==> (#[trigger] done@[u]).is_none(),
            forall|u: int| 0 <= u < i ==> !(#[trigger] on_stack@[u]),
        decreases n - i,
    {
        done.push(None);
        on_stack.push(false);
        i = i + 1;
    }
    let ghost mut order: Seq<int> = Seq::empty();
    let root = t.root;
    let rb = initial_bits(t, leaf_idx, words, root);
    let mut stack: Vec<(usize, usize, Bitset)> = Vec::new();
    stack.push((root, 0usize, rb));
    on_stack.set(root, true);
    proof {
        crate::tree::lemma_reaches_self(*t, root as int);
        assert forall|u: int|
            0 <= u < node_count(*t) implies ((#[trigger] done@[u]).is_some() <==> order.contains(
            u,
        )) by {
            if order.contains(u) {
                let k = choose|k: int| 0 <= k < order.len() && order[k] == u;
            }
        }
        assert(done_ok(*t, done@, order, words as int));
        assert forall|k: int| 0 <= k < stack@.len() implies #[trigger] frame_ok(
            *t,
            done@,
            stack@,
            words as int,
            k,
        ) by {
            assert(stack@[0] == (root, 0usize, rb));
            assert forall|j: int| #[trigger] bit_at(rb@, j) <==> acc_bit(
                *t,
                done@,
                root as int,
                0,
                j,
            ) by {
                if acc_bit(*t, done@, root as int, 0, j) && !(is_leaf(*t, root as int)
                    && leaf_rank(*t, root as int) == j) {
                    let m = choose|m: int|
                        0 <= m < 0 && child_bit(*t, done@, root as int, m, j);
                }
            }
        }
        assert forall|u: int| 0 <= u < node_count(*t) implies (on_stack@[u] <==> exists|k: int|
            0 <= k < stack@.len() && #[trigger] stack@[k].0 == u as usize) by {
            if u == root as int {
                assert(stack@[0].0 == root);
            } else {
                if exists|k: int| 0 <= k < stack@.len() && #[trigger] stack@[k].0 == u as usize {
                    let k = choose|k: int|
                        0 <= k < stack@.len() && #[trigger] stack@[k].0 == u as usize;
                    assert(k == 0);
                }
            }
        }
        assert(stack_ok(*t, done@, stack@, on_stack@, words as int));
    }
    proof {
        // restating the leaf table contract here lets the loop take it over
        // as an invariant
        assert(forall|u: int|
            0 <= u < node_count(*t) && is_leaf(*t, u) ==> #[trigger] leaf_idx@[u] == Some(
                leaf_rank(*t, u) as usize,
            ) && 0 <= leaf_rank(*t, u) < words * 64);
    }
    while stack.len() > 0
        invariant
            n == node_count(*t),
            (t.root as int) < n,
            words * 64 <= usize::MAX,
            leaf_idx@.len() == node_count(*t),
            forall|u: int|
                0 <= u < node_count(*t) ==> (#[trigger] leaf_idx@[u]).is_some() == is_leaf(*t, u),
            forall|u: int|
                0 <= u < node_count(*t) && is_leaf(*t, u) ==> #[trigger] leaf_idx@[u] == Some(
                    leaf_rank(*t, u) as usize,
                ) && 0 <= leaf_rank(*t, u) < words * 64,
            done@.len() == n,
            done_ok(*t, done@, order, words as int),
            stack_ok(*t, done@, stack@, on_stack@, words as int),
            done@[t.root as int].is_some() || (stack@.len() > 0 && stack@[0].0 == t.root),
        decreases none_count(done@), n - stack@.len(), rem_work(*t, stack@),
    {
        proof {
            lemma_none_count_bounds(done@);
            lemma_rem_work_nonneg(*t, stack@);
        }
        let ghost sv0 = stack@;
        let ghost done0 = done@;
        let top = match stack.pop() {
            Some(x) => x,
            None => {
                proof {
                    assert(false);
                }
                vstd::pervasive::unreached()
            },
        };
        let v = top.0;
        let c = top.1;
        let mut acc = top.2;
        proof {
            assert(stack@ =~= sv0.drop_last());
            assert(frame_ok(*t, done@, sv0, words as int, sv0.len() - 1));
            assert(sv0[sv0.len() - 1] == (v, c, acc));
        }
        let clen = t.nodes[v].children.len();
        if c < clen {
            let child = t.nodes[v].children[c];
            proof {
                assert(children_of(*t, v as int)[c as int] == child);
            }
            if child >= n {
                proof {
                    assert(reaches(*t, t.root as int, v as int));
                    assert(children_of(*t, v as int)[c as int] >= node_count(*t));
                    assert(has_dangling(*t));
                }
                return Err(TreeStructureError::DanglingReference);
            }
            proof {
                assert(children_of(*t, v as int).contains(child));
                assert(child_edge(*t, v as int, child as int));
            }
            let child_is_done = done[child].is_some();
            if child_is_done {
                let ghost acc0 = acc;
                match &done[child] {
                    Some(cb) => {
                        proof {
                            assert(cb@ == done_bits(done@, child as int));
                            assert(cb@.len() == words);
                        }
                        acc.or_assign(cb);
                        proof {
                            assert(forall|j: int|
                                bit_at(acc@, j) == (bit_at(acc0@, j) || bit_at(
                                    done_bits(done@, child as int),
                                    j,
                                )));
                        }
                    },
                    None => {
                        proof {
                            assert(false);
                        }
                    },
                }
                let ghost accv = acc;
                stack.push((v, c + 1, acc));
                proof {
                    let svn = stack@;
                    assert(svn =~= sv0.drop_last().push((v, (c + 1) as usize, accv)));
                    assert(svn[svn.len() - 1] == (v, (c + 1) as usize, accv));
                    assert forall|j: int|
                        #[trigger] bit_at(svn[svn.len() - 1].2@, j) == (bit_at(
                        sv0[sv0.len() - 1].2@,
                        j,
                    ) || bit_at(done_bits(done@, child as int), j)) by {
                        assert(bit_at(accv@, j) == (bit_at(acc0@, j) || bit_at(
                            done_bits(done@, child as int),
                            j,
                        )));
                    }
                    lemma_stack_advance(
                        *t,
                        done@,
                        sv0,
                        svn,
                        on_stack@,
                        words as int,
                        child,
                    );
                    assert(none_count(done@) == none_count(done0));
                    assert(svn.len() == sv0.len());
                    assert(rem_work(*t, svn) == rem_work(*t, svn.drop_last()) + (clen - (c + 1)));
                    assert(rem_work(*t, sv0) == rem_work(*t, sv0.drop_last()) + (clen - c));
                    assert(svn.drop_last() =~= sv0.drop_last());
                    lemma_rem_work_nonneg(*t, svn);
                }
            } else {
                if on_stack[child] {
                    proof {
                        let kk = choose|k: int|
                            0 <= k < sv0.len() && #[trigger] sv0[k].0 == child;
                        let m = sv0.len() - kk;
                        let p = Seq::new(m as nat, |i: int| sv0[kk + i].0 as int).push(
                            child as int,
                        );
                        assert(p.len() == m + 1);
                        assert forall|k: int| 0 <= k < p.len() implies 0 <= #[trigger] p[k]
                            < node_count(*t) by {
                            if k < m {
                                assert(frame_ok(*t, done0, sv0, words as int, kk + k));
                            } else {
                                assert(p[k] == child as int);
                            }
                        }
                        assert forall|k: int| 0 <= k < p.len() - 1 implies child_edge(
                            *t,
                            #[trigger] p[k],
                            p[k + 1],
                        ) by {
                            if k < m - 1 {
                                assert(p[k] == sv0[kk + k].0 as int);
                                assert(p[k + 1] == sv0[kk + k + 1].0 as int);
                                assert(children_of(*t, sv0[kk + k].0 as int)[sv0[kk + k].1 as int]
                                    == sv0[kk + k + 1].0);
                                assert(children_of(*t, p[k]).contains(sv0[kk + k + 1].0));
                                assert(frame_ok(*t, done0, sv0, words as int, kk + k));
                                assert(frame_ok(*t, done0, sv0, words as int, kk + k + 1));
                            } else {
                                assert(p[k] == sv0[sv0.len() - 1].0 as int);
                                assert(p[k] == v as int);
                                assert(p[k + 1] == child as int);
                            }
                        }
                        assert(is_path(*t, p));
                        assert(p.first() == child as int);
                        assert(p.last() == child as int);
                        assert(frame_ok(*t, done0, sv0, words as int, kk));
                        assert(reaches(*t, t.root as int, child as int));
                        assert(has_cycle(*t));
                    }
                    return Err(TreeStructureError::CyclicReference);
                }
                let ghost os0 = on_stack@;
                stack.push((v, c, acc));
                let cb0 = initial_bits(t, leaf_idx, words, child);
                on_stack.set(child, true);
                stack.push((child, 0usize, cb0));
                proof {
                    let svn = stack@;
                    assert(svn =~= sv0.push((child, 0usize, cb0)));
                    crate::tree::lemma_reaches_step(*t, t.root as int, v as int, child as int);
                    lemma_stack_push_child(
                        *t,
                        done@,
                        sv0,
                        svn,
                        os0,
                        on_stack@,
                        words as int,
                        child,
                        cb0,
                    );
                    assert(none_count(done@) == none_count(done0));
                    assert(svn.len() == sv0.len() + 1);
                    assert(n - svn.len() < n - sv0.len());
                    lemma_rem_work_nonneg(*t, svn);
                }
            }
        } else {
            let ghost accv = acc;
            let ghost os0 = on_stack@;
            done.set(v, Some(acc));
            on_stack.set(v, false);
            proof {
                assert(c == children_of(*t, v as int).len());
                lemma_done_update_ok(*t, done0, order, words as int, v as int, accv);
                order = order.push(v as int);
                assert(done@ =~= done0.update(v as int, Some(accv)));
                assert(done_ok(*t, done@, order, words as int));
                lemma_complete_step(
                    *t,
                    done0,
                    sv0,
                    os0,
                    on_stack@,
                    words as int,
                    v,
                    accv,
                );
                assert(stack_ok(*t, done@, stack@, on_stack@, words as int));
                if v != t.root {
                    if sv0.len() == 1 {
                        assert(sv0[0].0 == t.root);
                        assert(false);
                    }
                    assert(stack@[0].0 == sv0[0].0);
                }
                assert(none_count(done@) < none_count(done0));
                lemma_none_count_bounds(done@);
                lemma_rem_work_nonneg(*t, stack@);
            }
        }
    }
    proof {
        assert(done@[t.root as int].is_some());
        lemma_complete_sound(*t, done@, order, words as int);
        assert forall|u: int, j: int|
            0 <= u < node_count(*t) && done@[u].is_some() implies (#[trigger] bit_at(
            done_bits(done@, u),
            j,
        ) <==> split_set(*t, u).contains(j)) by {
            lemma_bits_reach(*t, done@, order, words as int, u, j);
        }
    }
    Ok(done)
}

} // verus!

verus! {

/// The encoding of the raw (uncanonicalized) split below a child node, as a
/// function value for sequence mapping.
pub open spec fn split_enc_fn(t: TreeData, words: int) -> spec_fn(usize) -> Seq<u64> {
    |c: usize| crate::bitset::encode(split_set(t, c as int), words)
}

/// An immutable summary of one tree: its canonical non-trivial splits in
/// ascending order, one branch length code per split, the root's child
/// splits in ascending order, and the comparison geometry.
#[derive(Debug)]
pub struct TreeSnapshot {
    /// Canonical split vectors, strictly ascending in the word order.
    pub parts: Vec<Bitset>,
    /// Branch length code of the matching entry of `parts`.
    pub lengths: Vec<u64>,
    /// Raw split vectors of the root's immediate children, ascending.
    pub root_children: Vec<Bitset>,
    /// Words per split vector.
    pub words: usize,
    /// Leaves of the underlying taxon set.
    pub num_leaves: usize,
    /// Whether the source tree was rooted.
    pub rooted: bool,
}

impl TreeSnapshot {
    /// Structural soundness: one length per split, every vector `words`
    /// words long, splits strictly ascending, the root signature sorted.
    pub open spec fn wf(self) -> bool {
        &&& self.lengths@.len() == self.parts@.len()
        &&& forall|k: int|
            0 <= k < self.parts@.len() ==> (#[trigger] self.parts@[k])@.len() == self.words
        &&& forall|k: int, l: int|
            0 <= k < l < self.parts@.len() ==> crate::order::words_lt(
                self.parts@[k]@,
                self.parts@[l]@,
            )
        &&& forall|k: int|
            0 <= k < self.root_children@.len() ==> (#[trigger] self.root_children@[k])@.len()
                == self.words
        &&& sorted_by(crate::order::views_of(self.root_children@), crate::order::word_le_fn())
        &&& self.num_leaves <= self.words * 64
    }
}

/// The snapshot `s` is the summary of tree `t` that the spec model asks for.
pub open spec fn snapshot_matches(t: TreeData, s: TreeSnapshot) -> bool {
    &&& s.wf()
    &&& s.parts@.len() <= node_count(t)
    &&& s.rooted == t.rooted
    &&& s.num_leaves == leaf_count(t)
    &&& s.words == (leaf_count(t) + 63) / 64
    &&& forall|k: int|
        0 <= k < s.parts@.len() ==> spec_parts(t).contains(bits_set((#[trigger] s.parts@[k])@))
    &&& forall|k: int|
        0 <= k < s.parts@.len() ==> (#[trigger] s.parts@[k])@ == crate::bitset::encode(
            bits_set(s.parts@[k]@),
            s.words as int,
        )
    &&& forall|p: Set<int>|
        #[trigger] spec_parts(t).contains(p) ==> exists|k: int|
            0 <= k < s.parts@.len() && bits_set(s.parts@[k]@) == p
    &&& forall|k: int|
        0 <= k < s.lengths@.len() ==> is_split_len(
            t,
            bits_set(s.parts@[k]@),
            #[trigger] s.lengths@[k],
        )
    &&& crate::order::views_of(s.root_children@) == children_of(
        t,
        t.root as int,
    ).map_values(split_enc_fn(t, s.words as int)).sort_by(crate::order::word_le_fn())
}

/// `len` is the recorded length of split `s` among the candidates below `i`.
pub open spec fn is_split_len_upto(t: TreeData, i: int, s: Set<int>, len: u64) -> bool {
    exists|v: int|
        {
            &&& #[trigger] is_candidate(t, v)
            &&& v < i
            &&& crate::bitset::canon_set(split_set(t, v), leaf_count(t)) == s
            &&& edge_code(t, v) == len
            &&& forall|w: int|
                v < w < i && #[trigger] is_candidate(t, w) ==> crate::bitset::canon_set(
                    split_set(t, w),
                    leaf_count(t),
                ) != s
        }
}

/// One collected (split, length) pair over the candidates below `i`.
pub open spec fn pair_ok_upto(
    t: TreeData,
    pairs: Seq<(Bitset, u64)>,
    words: int,
    i: int,
    k: int,
) -> bool {
    let st = bits_set(pairs[k].0@);
    &&& pairs[k].0@.len() == words
    &&& pairs[k].0@ == crate::bitset::encode(st, words)
    &&& exists|v: int|
        #[trigger] is_candidate(t, v) && v < i && crate::bitset::canon_set(
            split_set(t, v),
            leaf_count(t),
        ) == st
    &&& is_split_len_upto(t, i, st, pairs[k].1)
}

} // verus!

verus! {

/// Collects one (canonical split, length) pair per candidate node, walking
/// nodes in index order; when two candidates share a canonical split, the
/// higher-indexed node's length stays.
#[verifier::rlimit(100)]
fn collect_splits(
    t: &TreeData,
    done: &Vec<Option<Bitset>>,
    num_leaves: usize,
    words: usize,
) -> (r: Vec<(Bitset, u64)>)
    requires
        node_count(*t) <= usize::MAX,
        (t.root as int) < node_count(*t),
        num_leaves == leaf_count(*t),
        num_leaves <= words * 64,
        words * 64 <= usize::MAX,
        done@.len() == node_count(*t),
        forall|u: int|
            0 <= u < node_count(*t) ==> ((#[trigger] done@[u]).is_some() <==> reaches(
                *t,
                t.root as int,
                u,
            )),
        forall|u: int|
            0 <= u < node_count(*t) && (#[trigger] done@[u]).is_some() ==> done_bits(
                done@,
                u,
            ).len() == words,
        forall|u: int, j: int|
            0 <= u < node_count(*t) && done@[u].is_some() ==> (#[trigger] bit_at(
                done_bits(done@, u),
                j,
            ) <==> split_set(*t, u).contains(j)),
    ensures
        r@.len() <= node_count(*t),
        forall|k: int| 0 <= k < r@.len() ==> #[trigger] pair_ok_upto(*t, r@, words as int, node_count(*t), k),
        forall|v: int|
            #[trigger] is_candidate(*t, v) ==> exists|k: int|
                0 <= k < r@.len() && bits_set(r@[k].0@) == crate::bitset::canon_set(
                    split_set(*t, v),
                    leaf_count(*t),
                ),
        forall|k: int, l: int| 0 <= k < l < r@.len() ==> r@[k].0@ != r@[l].0@,
{
    let n = t.nodes.len();
    let mut pairs: Vec<(Bitset, u64)> = Vec::new();
    let mut i: usize = 0;
    while i < n
        invariant
            i <= n,
            n == node_count(*t),
            node_count(*t) <= usize::MAX,
            (t.root as int) < node_count(*t),
            num_leaves == leaf_count(*t),
            num_leaves <= words * 64,
            words * 64 <= usize::MAX,
            done@.len() == node_count(*t),
            forall|u: int|
                0 <= u < node_count(*t) ==> ((#[trigger] done@[u]).is_some() <==> reaches(
                    *t,
                    t.root as int,
                    u,
                )),
            forall|u: int|
                0 <= u < node_count(*t) && (#[trigger] done@[u]).is_some() ==> done_bits(
                    done@,
                    u,
                ).len() == words,
            forall|u: int, j: int|
                0 <= u < node_count(*t) && done@[u].is_some() ==> (#[trigger] bit_at(
                    done_bits(done@, u),
                    j,
                ) <==> split_set(*t, u).contains(j)),
            pairs@.len() <= i,
            forall|k: int| 0 <= k < pairs@.len() ==> #[trigger] pair_ok_upto(*t, pairs@, words as int, i as int, k),
            forall|v: int|
                #[trigger] is_candidate(*t, v) && v < i ==> exists|k: int|
                    0 <= k < pairs@.len() && bits_set(pairs@[k].0@) == crate::bitset::canon_set(
                        split_set(*t, v),
                        leaf_count(*t),
                    ),
            forall|k: int, l: int| 0 <= k < l < pairs@.len() ==> pairs@[k].0@ != pairs@[l].0@,
        decreases n - i,
    {
        let ghost pre = pairs@;
        let mut candidate_split: Option<(Bitset, u64)> = None;
        if i != t.root {
            match &done[i] {
                Some(b) => {
                    proof {
                        assert(done@[i as int].is_some());
                        assert(bits_set(b@) =~= split_set(*t, i as int));
                        crate::bitset::lemma_ones_card(b@);
                    }
                    let cnt = b.count_ones();
                    if cnt > 1 {
                        proof {
                            assert(reaches(*t, t.root as int, i as int));
                            assert(is_candidate(*t, i as int));
                            assert forall|j: int| bit_at(b@, j) implies j < num_leaves by {
                                assert(split_set(*t, i as int).contains(j));
                                let u = choose|u: int|
                                    0 <= u < node_count(*t) && is_leaf(*t, u)
                                        && #[trigger] reaches(*t, i as int, u) && leaf_rank(*t, u)
                                        == j;
                                lemma_leaf_rank_facts(*t, u);
                            }
                        }
                        let canon = b.canonical(num_leaves);
                        let length: u64 = match t.nodes[i].parent_edge {
                            Some(l) => l,
                            None => 0u64,
                        };
                        proof {
                            assert(length == edge_code(*t, i as int));
                            assert(bits_set(canon@) == crate::bitset::canon_set(
                                split_set(*t, i as int),
                                num_leaves as int,
                            )) by {
                                assert(bits_set(b@) =~= split_set(*t, i as int));
                            }
                            assert forall|j: int| bits_set(canon@).contains(j) implies 0 <= j
                                < words * 64 by {
                                assert(bit_at(canon@, j));
                            }
                            crate::bitset::lemma_encode_exact(
                                canon@,
                                bits_set(canon@),
                                words as int,
                            );
                        }
                        candidate_split = Some((canon, length));
                    } else {
                        proof {
                            assert(split_set(*t, i as int).len() <= 1);
                            assert(!is_candidate(*t, i as int));
                        }
                    }
                },
                None => {
                    proof {
                        assert(!reaches(*t, t.root as int, i as int));
                        assert(!is_candidate(*t, i as int));
                    }
                },
            }
        } else {
            proof {
                assert(!is_candidate(*t, i as int));
            }
        }
        match candidate_split {
            Some(pair) => {
                let ghost canonv = pair.0;
                let ghost lengthv = pair.1;
                let plen = pairs.len();
                let mut idx: usize = plen;
                let mut k: usize = 0;
                while k < plen
                    invariant
                        k <= plen,
                        plen == pairs@.len(),
                        pair.0@ == canonv@,
                        idx == plen || (idx < plen && pairs@[idx as int].0@ == canonv@),
                        idx == plen ==> forall|k1: int| 0 <= k1 < k ==> pairs@[k1].0@ != canonv@,
                        pairs@ == pre,
                    decreases plen - k,
                {
                    if idx == plen {
                        let cmpres = crate::order::words_cmp(&pairs[k].0.0, &pair.0.0);
                        if cmpres == 0 {
                            idx = k;
                        }
                    }
                    k = k + 1;
                }
                if idx < plen {
                    pairs.set(idx, pair);
                    proof {
                        lemma_collect_overwrite(
                            *t,
                            pre,
                            pairs@,
                            words as int,
                            i as int,
                            idx as int,
                            canonv,
                            lengthv,
                        );
                    }
                } else {
                    pairs.push(pair);
                    proof {
                        lemma_collect_push(
                            *t,
                            pre,
                            pairs@,
                            words as int,
                            i as int,
                            canonv,
                            lengthv,
                        );
                    }
                }
            },
            None => {
                proof {
                    assert(!is_candidate(*t, i as int));
                    lemma_collect_skip(*t, pairs@, words as int, i as int);
                }
            },
        }
        i = i + 1;
    }
    proof {
        assert forall|k: int|
            0 <= k < pairs@.len() implies #[trigger] pair_ok_upto(
            *t,
            pairs@,
            words as int,
            node_count(*t),
            k,
        ) by {
            assert(pair_ok_upto(*t, pairs@, words as int, n as int, k));
        }
    }
    pairs
}

/// Replacing the matching pair records node `i` as the split's new length.
proof fn lemma_collect_overwrite(
    t: TreeData,
    pre: Seq<(Bitset, u64)>,
    post: Seq<(Bitset, u64)>,
    words: int,
    i: int,
    idx: int,
    canon: Bitset,
    length: u64,
)
    requires
        forall|k: int| 0 <= k < pre.len() ==> #[trigger] pair_ok_upto(t, pre, words, i, k),
        forall|v: int|
            #[trigger] is_candidate(t, v) && v < i ==> exists|k: int|
                0 <= k < pre.len() && bits_set(pre[k].0@) == crate::bitset::canon_set(
                    split_set(t, v),
                    leaf_count(t),
                ),
        forall|k: int, l: int| 0 <= k < l < pre.len() ==> pre[k].0@ != pre[l].0@,
        0 <= idx < pre.len(),
        post == pre.update(idx, (canon, length)),
        pre[idx].0@ == canon@,
        is_candidate(t, i),
        canon@.len() == words,
        canon@ == crate::bitset::encode(bits_set(canon@), words),
        bits_set(canon@) == crate::bitset::canon_set(split_set(t, i), leaf_count(t)),
        length == edge_code(t, i),
    ensures
        forall|k: int| 0 <= k < post.len() ==> #[trigger] pair_ok_upto(t, post, words, i + 1, k),
        forall|v: int|
            #[trigger] is_candidate(t, v) && v < i + 1 ==> exists|k: int|
                0 <= k < post.len() && bits_set(post[k].0@) == crate::bitset::canon_set(
                    split_set(t, v),
                    leaf_count(t),
                ),
        forall|k: int, l: int| 0 <= k < l < post.len() ==> post[k].0@ != post[l].0@,
{
    assert forall|k: int| 0 <= k < post.len() implies #[trigger] pair_ok_upto(t, post, words, i + 1, k) by {
        if k == idx {
            assert(post[k].0@ == canon@ && post[k].1 == length);
            assert(is_split_len_upto(t, i + 1, bits_set(canon@), length)) by {
                assert forall|w: int|
                    i < w < i + 1 && #[trigger] is_candidate(t, w) implies crate::bitset::canon_set(
                    split_set(t, w),
                    leaf_count(t),
                ) != bits_set(canon@) by {}
            }
        } else {
            assert(pair_ok_upto(t, pre, words, i, k));
            assert(post[k] == pre[k]);
            let st = bits_set(pre[k].0@);
            let v0 = choose|v0: int|
                {
                    &&& #[trigger] is_candidate(t, v0)
                    &&& v0 < i
                    &&& crate::bitset::canon_set(split_set(t, v0), leaf_count(t)) == st
                    &&& edge_code(t, v0) == pre[k].1
                    &&& forall|w: int|
                        v0 < w < i && #[trigger] is_candidate(t, w) ==> crate::bitset::canon_set(
                            split_set(t, w),
                            leaf_count(t),
                        ) != st
                };
            assert(is_split_len_upto(t, i + 1, st, post[k].1)) by {
                assert forall|w: int|
                    v0 < w < i + 1 && #[trigger] is_candidate(t, w) implies crate::bitset::canon_set(
                    split_set(t, w),
                    leaf_count(t),
                ) != st by {
                    if w == i {
                        // node i's canonical split is the key at idx, which differs from this one
                        if crate::bitset::canon_set(split_set(t, w), leaf_count(t)) == st {
                            assert(bits_set(canon@) == st);
                            assert(crate::bitset::encode(st, words) == pre[k].0@);
                            assert(canon@ == pre[k].0@);
                            assert(pre[idx].0@ == pre[k].0@);
                        }
                    }
                }
            }
        }
    }
    assert forall|v: int|
        #[trigger] is_candidate(t, v) && v < i + 1 implies exists|k: int|
            0 <= k < post.len() && bits_set(post[k].0@) == crate::bitset::canon_set(
                split_set(t, v),
                leaf_count(t),
            ) by {
        if v < i {
            let k = choose|k: int|
                0 <= k < pre.len() && bits_set(pre[k].0@) == crate::bitset::canon_set(
                    split_set(t, v),
                    leaf_count(t),
                );
            if k == idx {
                assert(bits_set(post[idx].0@) == bits_set(pre[idx].0@));
            } else {
                assert(post[k] == pre[k]);
            }
        } else {
            assert(bits_set(post[idx].0@) == crate::bitset::canon_set(
                split_set(t, v),
                leaf_count(t),
            ));
        }
    }
    assert forall|k: int, l: int| 0 <= k < l < post.len() implies post[k].0@ != post[l].0@ by {
        assert(post[k].0@ == pre[k].0@ && post[l].0@ == pre[l].0@);
    }
}

/// Appending a fresh pair records node `i`'s new canonical split.
proof fn lemma_collect_push(
    t: TreeData,
    pre: Seq<(Bitset, u64)>,
    post: Seq<(Bitset, u64)>,
    words: int,
    i: int,
    canon: Bitset,
    length: u64,
)
    requires
        forall|k: int| 0 <= k < pre.len() ==> #[trigger] pair_ok_upto(t, pre, words, i, k),
        forall|v: int|
            #[trigger] is_candidate(t, v) && v < i ==> exists|k: int|
                0 <= k < pre.len() && bits_set(pre[k].0@) == crate::bitset::canon_set(
                    split_set(t, v),
                    leaf_count(t),
                ),
        forall|k: int, l: int| 0 <= k < l < pre.len() ==> pre[k].0@ != pre[l].0@,
        post == pre.push((canon, length)),
        forall|k: int| 0 <= k < pre.len() ==> (#[trigger] pre[k].0)@ != canon@,
        is_candidate(t, i),
        canon@.len() == words,
        canon@ == crate::bitset::encode(bits_set(canon@), words),
        bits_set(canon@) == crate::bitset::canon_set(split_set(t, i), leaf_count(t)),
        length == edge_code(t, i),
    ensures
        forall|k: int| 0 <= k < post.len() ==> #[trigger] pair_ok_upto(t, post, words, i + 1, k),
        forall|v: int|
            #[trigger] is_candidate(t, v) && v < i + 1 ==> exists|k: int|
                0 <= k < post.len() && bits_set(post[k].0@) == crate::bitset::canon_set(
                    split_set(t, v),
                    leaf_count(t),
                ),
        forall|k: int, l: int| 0 <= k < l < post.len() ==> post[k].0@ != post[l].0@,
{
    assert forall|k: int| 0 <= k < post.len() implies #[trigger] pair_ok_upto(t, post, words, i + 1, k) by {
        if k == post.len() - 1 {
            assert(post[k] == (canon, length));
            assert(is_split_len_upto(t, i + 1, bits_set(canon@), length)) by {
                assert forall|w: int|
                    i < w < i + 1 && #[trigger] is_candidate(t, w) implies crate::bitset::canon_set(
                    split_set(t, w),
                    leaf_count(t),
                ) != bits_set(canon@) by {}
            }
        } else {
            assert(pair_ok_upto(t, pre, words, i, k));
            assert(post[k] == pre[k]);
            let st = bits_set(pre[k].0@);
            let v0 = choose|v0: int|
                {
                    &&& #[trigger] is_candidate(t, v0)
                    &&& v0 < i
                    &&& crate::bitset::canon_set(split_set(t, v0), leaf_count(t)) == st
                    &&& edge_code(t, v0) == pre[k].1
                    &&& forall|w: int|
                        v0 < w < i && #[trigger] is_candidate(t, w) ==> crate::bitset::canon_set(
                            split_set(t, w),
                            leaf_count(t),
                        ) != st
                };
            assert(is_split_len_upto(t, i + 1, st, post[k].1)) by {
                assert forall|w: int|
                    v0 < w < i + 1 && #[trigger] is_candidate(t, w) implies crate::bitset::canon_set(
                    split_set(t, w),
                    leaf_count(t),
                ) != st by {
                    if w == i {
                        if crate::bitset::canon_set(split_set(t, w), leaf_count(t)) == st {
                            assert(crate::bitset::encode(st, words) == pre[k].0@);
                            assert(canon@ == pre[k].0@);
                        }
                    }
                }
            }
        }
    }
    assert forall|v: int|
        #[trigger] is_candidate(t, v) && v < i + 1 implies exists|k: int|
            0 <= k < post.len() && bits_set(post[k].0@) == crate::bitset::canon_set(
                split_set(t, v),
                leaf_count(t),
            ) by {
        if v < i {
            let k = choose|k: int|
                0 <= k < pre.len() && bits_set(pre[k].0@) == crate::bitset::canon_set(
                    split_set(t, v),
                    leaf_count(t),
                );
            assert(post[k] == pre[k]);
        } else {
            assert(bits_set(post[post.len() - 1].0@) == crate::bitset::canon_set(
                split_set(t, v),
                leaf_count(t),
            ));
        }
    }
    assert forall|k: int, l: int| 0 <= k < l < post.len() implies post[k].0@ != post[l].0@ by {
        if l < post.len() - 1 {
            assert(post[k].0@ == pre[k].0@ && post[l].0@ == pre[l].0@);
        } else {
            assert(post[k].0@ == pre[k].0@ && post[l].0@ == canon@);
        }
    }
}

/// A node that contributes no candidate split leaves the collection as it
/// stands, with its guarantees extended past `i`.
proof fn lemma_collect_skip(t: TreeData, pairs: Seq<(Bitset, u64)>, words: int, i: int)
    requires
        forall|k: int| 0 <= k < pairs.len() ==> #[trigger] pair_ok_upto(t, pairs, words, i, k),
        !is_candidate(t, i),
    ensures
        forall|k: int| 0 <= k < pairs.len() ==> #[trigger] pair_ok_upto(t, pairs, words, i + 1, k),
{
    assert forall|k: int| 0 <= k < pairs.len() implies #[trigger] pair_ok_upto(t, pairs, words, i + 1, k) by {
        assert(pair_ok_upto(t, pairs, words, i, k));
        let st = bits_set(pairs[k].0@);
        let v0 = choose|v0: int|
            {
                &&& #[trigger] is_candidate(t, v0)
                &&& v0 < i
                &&& crate::bitset::canon_set(split_set(t, v0), leaf_count(t)) == st
                &&& edge_code(t, v0) == pairs[k].1
                &&& forall|w: int|
                    v0 < w < i && #[trigger] is_candidate(t, w) ==> crate::bitset::canon_set(
                        split_set(t, w),
                        leaf_count(t),
                    ) != st
            };
        assert(is_split_len_upto(t, i + 1, st, pairs[k].1)) by {
            assert forall|w: int|
                v0 < w < i + 1 && #[trigger] is_candidate(t, w) implies crate::bitset::canon_set(
                split_set(t, w),
                leaf_count(t),
            ) != st by {}
        }
    }
}

} // verus!

verus! {

/// Collects the raw split vector of each immediate child of the root, in
/// child-list order.
fn gather_root_children(t: &TreeData, done: &Vec<Option<Bitset>>, words: usize) -> (r: Vec<Bitset>)
    requires
        node_count(*t) <= usize::MAX,
        (t.root as int) < node_count(*t),
        leaf_count(*t) <= words * 64,
        done@.len() == node_count(*t),
        !has_dangling(*t),
        forall|u: int|
            0 <= u < node_count(*t) ==> ((#[trigger] done@[u]).is_some() <==> reaches(
                *t,
                t.root as int,
                u,
            )),
        forall|u: int|
            0 <= u < node_count(*t) && (#[trigger] done@[u]).is_some() ==> done_bits(
                done@,
                u,
            ).len() == words,
        forall|u: int, j: int|
            0 <= u < node_count(*t) && done@[u].is_some() ==> (#[trigger] bit_at(
                done_bits(done@, u),
                j,
            ) <==> split_set(*t, u).contains(j)),
    ensures
        crate::order::views_of(r@) == children_of(*t, t.root as int).map_values(
            split_enc_fn(*t, words as int),
        ),
{
    proof {
        crate::tree::lemma_reaches_self(*t, t.root as int);
    }
    let root = t.root;
    let m = t.nodes[root].children.len();
    let mut out: Vec<Bitset> = Vec::new();
    let mut k: usize = 0;
    while k < m
        invariant
            k <= m,
            m == children_of(*t, t.root as int).len(),
            node_count(*t) <= usize::MAX,
            (t.root as int) < node_count(*t),
            leaf_count(*t) <= words * 64,
            done@.len() == node_count(*t),
            root == t.root,
            !has_dangling(*t),
            reaches(*t, t.root as int, t.root as int),
            forall|u: int|
                0 <= u < node_count(*t) ==> ((#[trigger] done@[u]).is_some() <==> reaches(
                    *t,
                    t.root as int,
                    u,
                )),
            forall|u: int|
                0 <= u < node_count(*t) && (#[trigger] done@[u]).is_some() ==> done_bits(
                    done@,
                    u,
                ).len() == words,
            forall|u: int, j: int|
                0 <= u < node_count(*t) && done@[u].is_some() ==> (#[trigger] bit_at(
                    done_bits(done@, u),
                    j,
                ) <==> split_set(*t, u).contains(j)),
            crate::order::views_of(out@) == children_of(*t, t.root as int).subrange(
                0,
                k as int,
            ).map_values(split_enc_fn(*t, words as int)),
        decreases m - k,
    {
        let child = t.nodes[root].children[k];
        proof {
            if (child as int) >= node_count(*t) {
                assert(children_of(*t, t.root as int)[k as int] >= node_count(*t));
                assert(has_dangling(*t));
            }
            assert(children_of(*t, t.root as int).contains(child));
            assert(child_edge(*t, t.root as int, child as int));
            crate::tree::lemma_reaches_step(*t, t.root as int, t.root as int, child as int);
            assert(done@[child as int].is_some());
        }
        let ghost pre = out@;
        match &done[child] {
            Some(b) => {
                proof {
                    assert(b@ == done_bits(done@, child as int));
                    assert forall|j: int| bits_set(b@).contains(j) implies 0 <= j < words * 64 by {
                        assert(bit_at(b@, j));
                        assert(split_set(*t, child as int).contains(j));
                        let u = choose|u: int|
                            0 <= u < node_count(*t) && is_leaf(*t, u) && #[trigger] reaches(
                                *t,
                                child as int,
                                u,
                            ) && leaf_rank(*t, u) == j;
                        lemma_leaf_rank_facts(*t, u);
                    }
                    assert forall|j: int| bit_at(b@, j) == bits_set(b@).contains(j) by {}
                    crate::bitset::lemma_encode_exact(b@, bits_set(b@), words as int);
                    assert(bits_set(b@) =~= split_set(*t, child as int));
                }
                let copy = b.duplicate();
                out.push(copy);
                proof {
                    assert(crate::order::views_of(out@) =~= crate::order::views_of(pre).push(b@));
                    assert(b@ == split_enc_fn(*t, words as int)(child));
                    assert(children_of(*t, t.root as int).subrange(0, k + 1 as int).map_values(
                        split_enc_fn(*t, words as int),
                    ) =~= children_of(*t, t.root as int).subrange(0, k as int).map_values(
                        split_enc_fn(*t, words as int),
                    ).push(split_enc_fn(*t, words as int)(child)));
                }
            },
            None => {
                proof {
                    assert(false);
                }
            },
        }
        k = k + 1;
    }
    proof {
        assert(children_of(*t, t.root as int).subrange(
            0,
            m as int,
        ) =~= children_of(*t, t.root as int));
    }
    out
}

} // verus!

verus! {

impl TreeSnapshot {
    /// Builds the snapshot of one tree: leaves are ranked by taxon name,
    /// every reachable branch with more than one leaf below it contributes
    /// its canonical split and length, and the root's child splits form the
    /// root signature. Fails exactly on a missing root, a dangling child
    /// reference, or a cycle.
    #[verifier::rlimit(100)]
    pub fn from_tree(t: &TreeData) -> (r: Result<TreeSnapshot, TreeStructureError>)
        requires
            t.nodes@.len() < usize::MAX / 64,
        ensures
            match r {
                Ok(s) => snapshot_matches(*t, s) && well_formed(*t),
                Err(e) => {
                    &&& !well_formed(*t)
                    &&& ((e == TreeStructureError::MissingRoot) <==> (t.root as int) >= node_count(
                        *t,
                    ))
                    &&& (e == TreeStructureError::DanglingReference ==> has_dangling(*t))
                    &&& (e == TreeStructureError::CyclicReference ==> has_cycle(*t))
                    &&& e != TreeStructureError::UndeterminedRootedness
                },
            },
    {
        let n = t.nodes.len();
        if t.root >= n {
            proof {
                assert(!well_formed(*t));
            }
            return Err(TreeStructureError::MissingRoot);
        }
        let leaves = collect_leaves(t);
        let sorted = sort_leaves(leaves);
        proof {
            lemma_sorted_leaf_views(*t, crate::order::leaf_views_of(sorted@));
            assert(crate::order::leaf_views_of(sorted@).len() == sorted@.len());
            lemma_leaf_keys_shape(*t);
        }
        let num_leaves = sorted.len();
        let words = num_leaves / 64 + (if num_leaves % 64 != 0 {
            1
        } else {
            0
        });
        proof {
            let l = num_leaves as int;
            assert(l == leaf_count(*t));
            assert(l == 64 * (l / 64) + (l % 64));
            assert(0 <= l % 64 < 64);
            if l % 64 == 0 {
                assert((l + 63) / 64 == l / 64) by (nonlinear_arith)
                    requires
                        l >= 0,
                        l % 64 == 0,
                ;
                assert(words * 64 == l) by (nonlinear_arith)
                    requires
                        words == l / 64,
                        l % 64 == 0,
                        l >= 0,
                ;
            } else {
                assert((l + 63) / 64 == l / 64 + 1) by (nonlinear_arith)
                    requires
                        l >= 0,
                        l % 64 != 0,
                ;
                assert(l <= words * 64) by (nonlinear_arith)
                    requires
                        words == l / 64 + 1,
                        l >= 0,
                ;
            }
            assert(words == (leaf_count(*t) + 63) / 64);
            assert(leaf_count(*t) <= words * 64);
            assert(l <= n as int);
            assert(words * 64 <= usize::MAX) by (nonlinear_arith)
                requires
                    words <= l / 64 + 1,
                    l <= n as int,
                    (n as int) < usize::MAX / 64,
                    usize::MAX >= 0xffff_ffff,
                    l >= 0,
            ;
        }
        let leaf_idx = build_leaf_index(t, &sorted);
        proof {
            assert forall|u: int|
                0 <= u < node_count(*t) && is_leaf(*t, u) implies #[trigger] leaf_idx@[u] == Some(
                leaf_rank(*t, u) as usize,
            ) && 0 <= leaf_rank(*t, u) < words * 64 by {
                lemma_leaf_rank_facts(*t, u);
            }
        }
        let done = match compute_bitsets(t, &leaf_idx, words) {
            Ok(d) => d,
            Err(e) => {
                proof {
                    assert(!well_formed(*t));
                }
                return Err(e);
            },
        };
        let pairs = collect_splits(t, &done, num_leaves, words);
        let ghost pre_pairs = pairs@;
        let sorted_pairs = crate::order::sort_keyed_splits(pairs);
        proof {
            lemma_sorted_pairs_facts(*t, pre_pairs, sorted_pairs@, words as int);
        }
        let mut parts: Vec<Bitset> = Vec::new();
        let mut lengths: Vec<u64> = Vec::new();
        let mut k: usize = 0;
        let plen = sorted_pairs.len();
        while k < plen
            invariant
                k <= plen,
                plen == sorted_pairs@.len(),
                parts@.len() == k,
                lengths@.len() == k,
                forall|k1: int|
                    0 <= k1 < k ==> (#[trigger] parts@[k1])@ == sorted_pairs@[k1].0@,
                forall|k1: int| 0 <= k1 < k ==> #[trigger] lengths@[k1] == sorted_pairs@[k1].1,
            decreases plen - k,
        {
            let copy = sorted_pairs[k].0.duplicate();
            parts.push(copy);
            lengths.push(sorted_pairs[k].1);
            k = k + 1;
        }
        let raw_children = gather_root_children(t, &done, words);
        let ghost raw_views = crate::order::views_of(raw_children@);
        let root_children = crate::order::sort_bitsets(raw_children);
        proof {
            crate::order::lemma_word_le_total();
            children_of(*t, t.root as int).map_values(
                split_enc_fn(*t, words as int),
            ).lemma_sort_by_ensures(crate::order::word_le_fn());
            vstd::seq_lib::lemma_sorted_unique(
                crate::order::views_of(root_children@),
                children_of(*t, t.root as int).map_values(split_enc_fn(*t, words as int)).sort_by(
                    crate::order::word_le_fn(),
                ),
                crate::order::word_le_fn(),
            );
        }
        let s = TreeSnapshot {
            parts,
            lengths,
            root_children,
            words,
            num_leaves,
            rooted: t.rooted,
        };
        proof {
            broadcast use vstd::seq_lib::group_to_multiset_ensures;

            assert forall|k1: int|
                0 <= k1 < s.root_children@.len() implies (#[trigger] s.root_children@[k1])@.len()
                == s.words by {
                let sorted_spec = children_of(*t, t.root as int).map_values(
                    split_enc_fn(*t, words as int),
                ).sort_by(crate::order::word_le_fn());
                assert(crate::order::views_of(s.root_children@)[k1] == sorted_spec[k1]);
                assert(sorted_spec.contains(sorted_spec[k1]));
                assert(sorted_spec.to_multiset().contains(sorted_spec[k1]));
                let base = children_of(*t, t.root as int).map_values(
                    split_enc_fn(*t, words as int),
                );
                assert(base.to_multiset().contains(sorted_spec[k1]));
                assert(base.contains(sorted_spec[k1]));
                let k2 = choose|k2: int| 0 <= k2 < base.len() && base[k2] == sorted_spec[k1];
                assert(base[k2] == split_enc_fn(*t, words as int)(
                    children_of(*t, t.root as int)[k2],
                ));
                crate::bitset::lemma_encode_bits(
                    split_set(*t, children_of(*t, t.root as int)[k2] as int),
                    words as int,
                );
            }
            assert forall|k1: int|
                0 <= k1 < s.parts@.len() implies spec_parts(*t).contains(
                bits_set((#[trigger] s.parts@[k1])@),
            ) && (#[trigger] s.parts@[k1])@ == crate::bitset::encode(
                bits_set(s.parts@[k1]@),
                s.words as int,
            ) && s.parts@[k1]@.len() == s.words by {
                assert(pair_ok_upto(*t, sorted_pairs@, words as int, node_count(*t), k1));
                assert(s.parts@[k1]@ == sorted_pairs@[k1].0@);
                let st = bits_set(sorted_pairs@[k1].0@);
                let v = choose|v: int|
                    #[trigger] is_candidate(*t, v) && v < node_count(*t)
                        && crate::bitset::canon_set(split_set(*t, v), leaf_count(*t)) == st;
                assert(spec_parts(*t).contains(st));
            }
            assert forall|k1: int|
                0 <= k1 < s.lengths@.len() implies is_split_len(
                *t,
                bits_set(s.parts@[k1]@),
                #[trigger] s.lengths@[k1],
            ) by {
                assert(pair_ok_upto(*t, sorted_pairs@, words as int, node_count(*t), k1));
                assert(s.parts@[k1]@ == sorted_pairs@[k1].0@);
                assert(s.lengths@[k1] == sorted_pairs@[k1].1);
                let st = bits_set(sorted_pairs@[k1].0@);
                let v0 = choose|v0: int|
                    {
                        &&& #[trigger] is_candidate(*t, v0)
                        &&& v0 < node_count(*t)
                        &&& crate::bitset::canon_set(split_set(*t, v0), leaf_count(*t)) == st
                        &&& edge_code(*t, v0) == sorted_pairs@[k1].1
                        &&& forall|w: int|
                            v0 < w < node_count(*t) && #[trigger] is_candidate(*t, w)
                                ==> crate::bitset::canon_set(split_set(*t, w), leaf_count(*t))
                                != st
                    };
                assert(is_split_len(*t, st, sorted_pairs@[k1].1));
            }
            assert forall|p: Set<int>|
                #[trigger] spec_parts(*t).contains(p) implies exists|k1: int|
                    0 <= k1 < s.parts@.len() && bits_set(s.parts@[k1]@) == p by {
                let v = choose|v: int| #[trigger]
                    is_candidate(*t, v) && p == crate::bitset::canon_set(
                        split_set(*t, v),
                        leaf_count(*t),
                    );
                let k1 = choose|k1: int|
                    0 <= k1 < sorted_pairs@.len() && bits_set(sorted_pairs@[k1].0@)
                        == crate::bitset::canon_set(split_set(*t, v), leaf_count(*t));
                assert(bits_set(s.parts@[k1]@) == p);
            }
            assert forall|k1: int, l1: int|
                0 <= k1 < l1 < s.parts@.len() implies crate::order::words_lt(
                s.parts@[k1]@,
                s.parts@[l1]@,
            ) by {
                assert(crate::order::words_lt(sorted_pairs@[k1].0@, sorted_pairs@[l1].0@));
            }
            assert(s.wf());
            assert(snapshot_matches(*t, s));
        }
        Ok(s)
    }
}

/// Facts about the split listing carry over to its sorted permutation, and
/// distinct keys make the sorted order strict.
proof fn lemma_sorted_pairs_facts(
    t: TreeData,
    pre: Seq<(Bitset, u64)>,
    post: Seq<(Bitset, u64)>,
    words: int,
)
    requires
        forall|k: int| 0 <= k < pre.len() ==> #[trigger] pair_ok_upto(t, pre, words, node_count(t), k),
        forall|v: int|
            #[trigger] is_candidate(t, v) ==> exists|k: int|
                0 <= k < pre.len() && bits_set(pre[k].0@) == crate::bitset::canon_set(
                    split_set(t, v),
                    leaf_count(t),
                ),
        forall|k: int, l: int| 0 <= k < l < pre.len() ==> pre[k].0@ != pre[l].0@,
        sorted_by(crate::order::pair_views_of(post), crate::order::pair_le_fn()),
        crate::order::pair_views_of(post).to_multiset() == crate::order::pair_views_of(
            pre,
        ).to_multiset(),
    ensures
        post.len() == pre.len(),
        forall|k: int| 0 <= k < post.len() ==> #[trigger] pair_ok_upto(t, post, words, node_count(t), k),
        forall|v: int|
            #[trigger] is_candidate(t, v) ==> exists|k: int|
                0 <= k < post.len() && bits_set(post[k].0@) == crate::bitset::canon_set(
                    split_set(t, v),
                    leaf_count(t),
                ),
        forall|k: int, l: int|
            0 <= k < l < post.len() ==> crate::order::words_lt(post[k].0@, post[l].0@),
{
    broadcast use vstd::seq_lib::group_to_multiset_ensures;

    let pv_pre = crate::order::pair_views_of(pre);
    let pv_post = crate::order::pair_views_of(post);
    assert(pv_pre.len() == pre.len() && pv_post.len() == post.len());
    assert(pv_post.to_multiset().len() == pv_pre.to_multiset().len());
    assert(post.len() == pre.len());
    // each sorted entry is some original entry
    assert forall|k: int| #![trigger pv_post[k]]
        0 <= k < post.len() implies exists|k0: int|
        0 <= k0 < pre.len() && #[trigger] pv_pre[k0] == pv_post[k] by {
        assert(pv_post.contains(pv_post[k]));
        assert(pv_post.to_multiset().contains(pv_post[k]));
        assert(pv_pre.to_multiset().contains(pv_post[k]));
        assert(pv_pre.contains(pv_post[k]));
    }
    assert forall|k: int|
        0 <= k < post.len() implies #[trigger] pair_ok_upto(t, post, words, node_count(t), k) by {
        let k0 = choose|k0: int| 0 <= k0 < pre.len() && #[trigger] pv_pre[k0] == pv_post[k];
        assert(pair_ok_upto(t, pre, words, node_count(t), k0));
        assert(pre[k0].0@ == post[k].0@ && pre[k0].1 == post[k].1);
    }
    assert forall|v: int|
        #[trigger] is_candidate(t, v) implies exists|k: int|
            0 <= k < post.len() && bits_set(post[k].0@) == crate::bitset::canon_set(
                split_set(t, v),
                leaf_count(t),
            ) by {
        let k0 = choose|k0: int|
            0 <= k0 < pre.len() && bits_set(pre[k0].0@) == crate::bitset::canon_set(
                split_set(t, v),
                leaf_count(t),
            );
        assert(pv_pre.contains(pv_pre[k0]));
        assert(pv_pre.to_multiset().contains(pv_pre[k0]));
        assert(pv_post.to_multiset().contains(pv_pre[k0]));
        assert(pv_post.contains(pv_pre[k0]));
        let k = choose|k: int| 0 <= k < pv_post.len() && pv_post[k] == pv_pre[k0];
        assert(bits_set(post[k].0@) == bits_set(pre[k0].0@));
    }
    // distinct keys survive the permutation, making the order strict
    assert forall|k1: int, l1: int|
        0 <= k1 < l1 < pv_pre.len() implies pv_pre[k1] != pv_pre[l1] by {
        assert(pre[k1].0@ != pre[l1].0@);
    }
    assert(pv_pre.no_duplicates());
    pv_pre.lemma_multiset_has_no_duplicates();
    pv_post.lemma_multiset_has_no_duplicates_conv();
    assert(pv_post.no_duplicates());
    assert forall|k: int, l: int|
        0 <= k < l < post.len() implies crate::order::words_lt(post[k].0@, post[l].0@) by {
        let leq = crate::order::pair_le_fn();
        assert(leq(pv_post[k], pv_post[l]));
        assert(crate::order::words_le(post[k].0@, post[l].0@));
        if post[k].0@ == post[l].0@ {
            let k0 = choose|k0: int| 0 <= k0 < pre.len() && #[trigger] pv_pre[k0] == pv_post[k];
            let l0 = choose|l0: int| 0 <= l0 < pre.len() && #[trigger] pv_pre[l0] == pv_post[l];
            if k0 == l0 {
                assert(pv_post[k] == pv_post[l]);
            } else {
                assert(pre[k0].0@ != pre[l0].0@);
            }
        }
    }
}

} // verus!
