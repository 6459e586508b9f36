//! All-pairs distance computation and the batch-level input check.
//!
//! A batch of trees is comparable when it holds at least two trees and all
//! of them carry the same set of taxon names; [`sanity_check_trees`] decides
//! exactly that. [`rf_pairwise_matrix`] is the sequential reference for the
//! all-pairs computation: a square matrix holding the unweighted distance of
//! every snapshot pair, zero on the diagonal and symmetric by construction.
//! A caller that spreads the pair computations over workers must land on the
//! same matrix, because every cell is pinned to [`spec_rf`] of its pair.
//! [`pair_indices`] enumerates the unordered index pairs once for such a
//! caller.

use crate::distances::{rf_from_snapshots, spec_rf, lemma_rf_symmetric,
    lemma_self_distance_unweighted};
use crate::order::{byte_views, bytes_cmp, bytes_lt, leaf_le, lemma_bytes_lt_props, lemma_bytes_lt_trans};
use crate::snapshot::TreeSnapshot;
use crate::tree::{leaf_keys, TreeData};
use vstd::prelude::*;
use vstd::seq_lib::group_to_multiset_ensures;

verus! {

/// Why a batch of trees cannot be compared.
#[derive(Clone, Copy, Debug, PartialEq, Eq, Structural)]
pub enum InputValidationError {
    /// The batch holds no tree at all.
    NoTrees,
    /// The batch holds a single tree; pairwise comparison needs two.
    TooFewTrees,
    /// The tree at this index has a different number of distinct taxon names
    /// than the first tree.
    LeafCountMismatch(usize),
    /// The tree at this index has the same number of distinct taxon names as
    /// the first tree, but not the same names.
    LeafSetMismatch(usize),
}

/// The name components of a key listing.
pub open spec fn key_names(s: Seq<(Seq<u8>, usize)>) -> Seq<Seq<u8>> {
    s.map_values(|k: (Seq<u8>, usize)| k.0)
}

/// The set of taxon names on the leaves of `t`.
pub open spec fn leaf_name_set(t: TreeData) -> Set<Seq<u8>> {
    key_names(leaf_keys(t)).to_set()
}

/// The sorted distinct taxon names of one tree: a canonical value for its
/// leaf name set.
fn name_set_key(t: &TreeData) -> (r: Vec<Vec<u8>>)
    ensures
        forall|k: int, l: int| 0 <= k < l < r@.len() ==> bytes_lt(r@[k]@, r@[l]@),
        byte_views(r@).to_set() == leaf_name_set(*t),
{
    broadcast use group_to_multiset_ensures;

    let keys = crate::snapshot::collect_leaves(t);
    let sorted = crate::order::sort_leaves(keys);
    let ghost sorted_views = crate::order::leaf_views_of(sorted@);
    let ghost all_names = key_names(leaf_keys(*t));
    proof {
        // a name occurs among the sorted keys exactly when some leaf key
        // carries it: sorting permutes the keys
        assert forall|nm: Seq<u8>|
            (exists|k: int|
                0 <= k < sorted_views.len() && (#[trigger] sorted_views[k]).0 == nm)
                <==> leaf_name_set(*t).contains(nm) by {
            if exists|k: int|
                0 <= k < sorted_views.len() && (#[trigger] sorted_views[k]).0 == nm {
                let k = choose|k: int|
                    0 <= k < sorted_views.len() && (#[trigger] sorted_views[k]).0 == nm;
                assert(sorted_views.contains(sorted_views[k]));
                assert(sorted_views.to_multiset().contains(sorted_views[k]));
                assert(leaf_keys(*t).to_multiset().contains(sorted_views[k]));
                assert(leaf_keys(*t).contains(sorted_views[k]));
                let k2 = choose|k2: int|
                    0 <= k2 < leaf_keys(*t).len() && leaf_keys(*t)[k2] == sorted_views[k];
                assert(all_names[k2] == nm);
                assert(all_names.contains(nm));
            }
            if leaf_name_set(*t).contains(nm) {
                let k2 = choose|k2: int| 0 <= k2 < all_names.len() && all_names[k2] == nm;
                assert(leaf_keys(*t)[k2].0 == nm);
                assert(leaf_keys(*t).contains(leaf_keys(*t)[k2]));
                assert(leaf_keys(*t).to_multiset().contains(leaf_keys(*t)[k2]));
                assert(sorted_views.to_multiset().contains(leaf_keys(*t)[k2]));
                assert(sorted_views.contains(leaf_keys(*t)[k2]));
                let k = choose|k: int|
                    0 <= k < sorted_views.len() && sorted_views[k] == leaf_keys(*t)[k2];
                assert(sorted_views[k].0 == nm);
            }
        }
    }
    let n = sorted.len();
    let mut out: Vec<Vec<u8>> = Vec::new();
    let mut i: usize = 0;
    while i < n
        invariant
            i <= n,
            n == sorted@.len(),
            sorted_views == crate::order::leaf_views_of(sorted@),
            vstd::relations::sorted_by(sorted_views, crate::order::leaf_le_fn()),
            forall|k: int, l: int| 0 <= k < l < out@.len() ==> bytes_lt(out@[k]@, out@[l]@),
            out@.len() > 0 ==> i > 0 && out@[out@.len() - 1]@ == sorted_views[i - 1].0,
            forall|nm: Seq<u8>|
                byte_views(out@).to_set().contains(nm) <==> (exists|k: int|
                    0 <= k < i && (#[trigger] sorted_views[k]).0 == nm),
            i > 0 ==> out@.len() > 0,
        decreases n - i,
    {
        let ghost pre = out@;
        let mut push_it = true;
        if out.len() > 0 {
            let last = out.len() - 1;
            let c = bytes_cmp(&out[last], &sorted[i].0);
            if c == 0 {
                push_it = false;
            }
            proof {
                if c != 0 {
                    // names never decrease along the sorted keys, so an
                    // unequal name is strictly larger than the last one kept
                    assert(leaf_le((sorted_views[i - 1].0, sorted_views[i - 1].1), (sorted_views[i as int].0, sorted_views[i as int].1))) by {
                        let leq = crate::order::leaf_le_fn();
                        assert(leq(sorted_views[i - 1], sorted_views[i as int]));
                    }
                    lemma_bytes_lt_props(out@[last as int]@, sorted_views[i as int].0);
                }
            }
        }
        if push_it {
            let name = crate::order::copy_bytes(&sorted[i].0);
            out.push(name);
            proof {
                assert forall|k: int, l: int|
                    0 <= k < l < out@.len() implies bytes_lt(out@[k]@, out@[l]@) by {
                    if l == out@.len() - 1 && k < l {
                        if k < pre.len() - 1 {
                            lemma_bytes_lt_trans(pre[k]@, pre[pre.len() - 1]@, out@[l]@);
                        }
                    } else {
                        assert(out@[k] == pre[k] && out@[l] == pre[l]);
                    }
                }
                assert forall|nm: Seq<u8>|
                    byte_views(out@).to_set().contains(nm) <==> (exists|k: int|
                        0 <= k < i + 1 && (#[trigger] sorted_views[k]).0 == nm) by {
                    let mapped = byte_views(out@);
                    if mapped.to_set().contains(nm) {
                        let k = choose|k: int| 0 <= k < mapped.len() && mapped[k] == nm;
                        if k < pre.len() {
                            assert(byte_views(pre).to_set().contains(nm)) by {
                                assert(byte_views(pre)[k] == nm);
                                assert(byte_views(pre).contains(nm));
                            }
                        } else {
                            assert(sorted_views[i as int].0 == nm);
                        }
                    }
                    if exists|k: int| 0 <= k < i + 1 && (#[trigger] sorted_views[k]).0 == nm {
                        let k = choose|k: int|
                            0 <= k < i + 1 && (#[trigger] sorted_views[k]).0 == nm;
                        if k < i {
                            assert(byte_views(pre).to_set().contains(nm));
                            let k2 = choose|k2: int|
                                0 <= k2 < byte_views(pre).len() && byte_views(pre)[k2] == nm;
                            assert(mapped[k2] == nm);
                            assert(mapped.contains(nm));
                        } else {
                            assert(mapped[mapped.len() - 1] == nm);
                            assert(mapped.contains(nm));
                        }
                    }
                }
            }
        } else {
            proof {
                assert(out@[out@.len() - 1]@ == sorted_views[i as int].0);
                assert forall|nm: Seq<u8>|
                    byte_views(out@).to_set().contains(nm) <==> (exists|k: int|
                        0 <= k < i + 1 && (#[trigger] sorted_views[k]).0 == nm) by {
                    if exists|k: int| 0 <= k < i + 1 && (#[trigger] sorted_views[k]).0 == nm {
                        let k = choose|k: int|
                            0 <= k < i + 1 && (#[trigger] sorted_views[k]).0 == nm;
                        if k == i {
                            let mapped = byte_views(out@);
                            assert(mapped[mapped.len() - 1] == nm);
                            assert(mapped.contains(nm));
                        }
                    }
                }
            }
        }
        i = i + 1;
    }
    proof {
        assert(byte_views(out@).to_set() =~= leaf_name_set(*t));
    }
    out
}

} // verus!

verus! {

/// Two strictly ascending name listings with the same name set are equal.
proof fn lemma_name_key_unique(x: Seq<Vec<u8>>, y: Seq<Vec<u8>>)
    requires
        forall|k: int, l: int| 0 <= k < l < x.len() ==> bytes_lt(x[k]@, x[l]@),
        forall|k: int, l: int| 0 <= k < l < y.len() ==> bytes_lt(y[k]@, y[l]@),
        byte_views(x).to_set() == byte_views(y).to_set(),
    ensures
        byte_views(x) == byte_views(y),
{
    broadcast use group_to_multiset_ensures;

    let xv = byte_views(x);
    let yv = byte_views(y);
    assert forall|k: int, l: int| 0 <= k < l < xv.len() implies xv[k] != xv[l] by {
        lemma_bytes_lt_props(x[k]@, x[l]@);
    }
    assert forall|k: int, l: int| 0 <= k < l < yv.len() implies yv[k] != yv[l] by {
        lemma_bytes_lt_props(y[k]@, y[l]@);
    }
    assert(xv.no_duplicates() && yv.no_duplicates());
    xv.lemma_multiset_has_no_duplicates();
    yv.lemma_multiset_has_no_duplicates();
    assert(xv.to_multiset() =~= yv.to_multiset()) by {
        assert forall|nm: Seq<u8>| #[trigger] xv.to_multiset().count(nm) == yv.to_multiset().count(
            nm,
        ) by {
            if xv.contains(nm) {
                assert(xv.to_set().contains(nm));
                assert(yv.to_set().contains(nm));
                assert(yv.contains(nm));
            } else {
                if yv.contains(nm) {
                    assert(yv.to_set().contains(nm));
                    assert(xv.to_set().contains(nm));
                }
                assert(xv.to_multiset().count(nm) == 0 && yv.to_multiset().count(nm) == 0);
            }
        }
    }
    crate::order::lemma_bytes_le_total();
    vstd::seq_lib::lemma_sorted_unique(
        xv,
        yv,
        crate::order::byte_le_fn(),
    );
}

/// Whether two name listings hold the same byte strings in order.
fn names_equal(a: &Vec<Vec<u8>>, b: &Vec<Vec<u8>>) -> (r: bool)
    ensures
        r == (byte_views(a@) == byte_views(b@)),
{
    let n = a.len();
    if n != b.len() {
        proof {
            assert(byte_views(a@).len() != byte_views(b@).len());
        }
        return false;
    }
    let mut i: usize = 0;
    while i < n
        invariant
            i <= n,
            n == a@.len(),
            n == b@.len(),
            forall|k: int| 0 <= k < i ==> (#[trigger] a@[k])@ == b@[k]@,
        decreases n - i,
    {
        let c = bytes_cmp(&a[i], &b[i]);
        if c != 0 {
            proof {
                assert(byte_views(a@)[i as int] != byte_views(b@)[i as int]);
            }
            return false;
        }
        i = i + 1;
    }
    proof {
        assert(byte_views(a@) =~= byte_views(b@));
    }
    true
}

/// Checks that a batch can be compared: at least two trees, all with the
/// same taxon name set. Each error names exactly the first offending tree.
pub fn sanity_check_trees(trees: &Vec<TreeData>) -> (r: Result<(), InputValidationError>)
    ensures
        match r {
            Ok(()) => trees@.len() >= 2 && forall|i: int|
                0 <= i < trees@.len() ==> leaf_name_set(#[trigger] trees@[i]) == leaf_name_set(
                    trees@[0],
                ),
            Err(e) => match e {
                InputValidationError::NoTrees => trees@.len() == 0,
                InputValidationError::TooFewTrees => trees@.len() == 1,
                InputValidationError::LeafCountMismatch(i) => {
                    &&& 1 <= i < trees@.len()
                    &&& leaf_name_set(trees@[i as int]).len() != leaf_name_set(trees@[0]).len()
                    &&& forall|k: int|
                        0 <= k < i ==> leaf_name_set(#[trigger] trees@[k]) == leaf_name_set(
                            trees@[0],
                        )
                },
                InputValidationError::LeafSetMismatch(i) => {
                    &&& 1 <= i < trees@.len()
                    &&& leaf_name_set(trees@[i as int]).len() == leaf_name_set(trees@[0]).len()
                    &&& leaf_name_set(trees@[i as int]) != leaf_name_set(trees@[0])
                    &&& forall|k: int|
                        0 <= k < i ==> leaf_name_set(#[trigger] trees@[k]) == leaf_name_set(
                            trees@[0],
                        )
                },
            },
        },
{
    broadcast use vstd::seq_lib::seq_to_set_is_finite;

    let n = trees.len();
    if n == 0 {
        return Err(InputValidationError::NoTrees);
    }
    if n == 1 {
        return Err(InputValidationError::TooFewTrees);
    }
    let first = name_set_key(&trees[0]);
    proof {
        lemma_name_card(first@, trees@[0]);
    }
    let flen = first.len();
    let mut idx: usize = 1;
    while idx < n
        invariant
            1 <= idx <= n,
            n == trees@.len(),
            n >= 2,
            flen == first@.len(),
            forall|k: int, l: int| 0 <= k < l < first@.len() ==> bytes_lt(first@[k]@, first@[l]@),
            byte_views(first@).to_set() == leaf_name_set(trees@[0]),
            flen == leaf_name_set(trees@[0]).len(),
            forall|k: int|
                0 <= k < idx ==> leaf_name_set(#[trigger] trees@[k]) == leaf_name_set(trees@[0]),
        decreases n - idx,
    {
        let rep = name_set_key(&trees[idx]);
        proof {
            lemma_name_card(rep@, trees@[idx as int]);
        }
        if rep.len() != flen {
            return Err(InputValidationError::LeafCountMismatch(idx));
        }
        if !names_equal(&rep, &first) {
            proof {
                if leaf_name_set(trees@[idx as int]) == leaf_name_set(trees@[0]) {
                    lemma_name_key_unique(rep@, first@);
                }
            }
            return Err(InputValidationError::LeafSetMismatch(idx));
        }
        proof {
            assert(byte_views(rep@).to_set() =~= byte_views(first@).to_set());
        }
        idx = idx + 1;
    }
    Ok(())
}

/// A strictly ascending name listing has as many entries as its name set.
proof fn lemma_name_card(x: Seq<Vec<u8>>, t: TreeData)
    requires
        forall|k: int, l: int| 0 <= k < l < x.len() ==> bytes_lt(x[k]@, x[l]@),
        byte_views(x).to_set() == leaf_name_set(t),
    ensures
        leaf_name_set(t).len() == x.len(),
{
    broadcast use vstd::seq_lib::seq_to_set_is_finite;

    assert forall|k: int, l: int| 0 <= k < l < byte_views(x).len() implies byte_views(x)[k]
        != byte_views(x)[l] by {
        lemma_bytes_lt_props(x[k]@, x[l]@);
    }
    byte_views(x).unique_seq_to_set();
}

/// The pair `(i, j)` occurs in the listing `r`.
pub open spec fn pair_listed(r: Seq<(usize, usize)>, i: int, j: int) -> bool {
    exists|k: int| 0 <= k < r.len() && #[trigger] r[k] == (i as usize, j as usize)
}

/// The unordered index pairs `(i, j)` with `i < j < n`, listed once each in
/// ascending order of `i` and then `j`.
pub fn pair_indices(n: usize) -> (r: Vec<(usize, usize)>)
    ensures
        forall|k: int| 0 <= k < r@.len() ==> (#[trigger] r@[k]).0 < r@[k].1 < n,
        forall|k: int, l: int| 0 <= k < l < r@.len() ==> r@[k] != r@[l],
        forall|i: int, j: int| 0 <= i < j < n ==> #[trigger] pair_listed(r@, i, j),
{
    let mut out: Vec<(usize, usize)> = Vec::new();
    let mut i: usize = 0;
    while i < n
        invariant
            i <= n,
            forall|k: int| 0 <= k < out@.len() ==> (#[trigger] out@[k]).0 < out@[k].1 < n,
            forall|k: int| 0 <= k < out@.len() ==> (#[trigger] out@[k]).0 < i,
            forall|k: int, l: int| 0 <= k < l < out@.len() ==> out@[k] != out@[l],
            forall|i0: int, j0: int|
                0 <= i0 < j0 < n && i0 < i ==> #[trigger] pair_listed(out@, i0, j0),
        decreases n - i,
    {
        let mut j: usize = i + 1;
        while j < n
            invariant
                i < j <= n || (i + 1 > n && j == i + 1),
                i < n,
                forall|k: int| 0 <= k < out@.len() ==> (#[trigger] out@[k]).0 < out@[k].1 < n,
                forall|k: int|
                    0 <= k < out@.len() ==> ((#[trigger] out@[k]).0 < i || (out@[k].0 == i
                        && out@[k].1 < j)),
                forall|k: int, l: int| 0 <= k < l < out@.len() ==> out@[k] != out@[l],
                forall|i0: int, j0: int|
                    0 <= i0 < j0 < n && i0 < i ==> #[trigger] pair_listed(out@, i0, j0),
                forall|j0: int| i < j0 < j ==> #[trigger] pair_listed(out@, i as int, j0),
            decreases n - j,
        {
            let ghost pre = out@;
            out.push((i, j));
            proof {
                assert(out@[out@.len() - 1] == (i, j));
                assert forall|i0: int, j0: int|
                    0 <= i0 < j0 < n && i0 < i implies #[trigger] pair_listed(out@, i0, j0) by {
                    assert(pair_listed(pre, i0, j0));
                    let k = choose|k: int|
                        0 <= k < pre.len() && #[trigger] pre[k] == (i0 as usize, j0 as usize);
                    assert(out@[k] == (i0 as usize, j0 as usize));
                }
                assert forall|j0: int|
                    i < j0 < j + 1 implies #[trigger] pair_listed(out@, i as int, j0) by {
                    if j0 < j {
                        assert(pair_listed(pre, i as int, j0));
                        let k = choose|k: int|
                            0 <= k < pre.len() && #[trigger] pre[k] == (i as usize, j0 as usize);
                        assert(out@[k] == (i as usize, j0 as usize));
                    } else {
                        assert(out@[out@.len() - 1] == (i as usize, j0 as usize));
                    }
                }
            }
            j = j + 1;
        }
        proof {
            assert forall|i0: int, j0: int|
                0 <= i0 < j0 < n && i0 < i + 1 implies #[trigger] pair_listed(out@, i0, j0) by {}
        }
        i = i + 1;
    }
    out
}

/// The all-pairs matrix of unweighted distances, computed sequentially: cell
/// `(i, j)` is exactly the unweighted distance of snapshots `i` and `j`, so
/// the matrix is symmetric with a zero diagonal, and any scattering of the
/// pair computations over workers must reproduce it cell for cell.
pub fn rf_pairwise_matrix(snaps: &Vec<TreeSnapshot>) -> (r: Vec<Vec<usize>>)
    requires
        forall|k: int| 0 <= k < snaps@.len() ==> (#[trigger] snaps@[k]).wf(),
        forall|k: int|
            0 <= k < snaps@.len() ==> (#[trigger] snaps@[k]).parts@.len() <= usize::MAX / 4,
    ensures
        r@.len() == snaps@.len(),
        forall|i: int| 0 <= i < r@.len() ==> (#[trigger] r@[i])@.len() == snaps@.len(),
        forall|i: int, j: int|
            0 <= i < snaps@.len() && 0 <= j < snaps@.len() ==> r@[i]@[j] == spec_rf(
                snaps@[i],
                snaps@[j],
            ),
        forall|i: int| 0 <= i < snaps@.len() ==> (#[trigger] r@[i])@[i] == 0,
        forall|i: int, j: int|
            0 <= i < snaps@.len() && 0 <= j < snaps@.len() ==> r@[i]@[j] == r@[j]@[i],
{
    let n = snaps.len();
    let mut out: Vec<Vec<usize>> = Vec::new();
    let mut i: usize = 0;
    while i < n
        invariant
            i <= n,
            n == snaps@.len(),
            out@.len() == i,
            forall|k: int| 0 <= k < snaps@.len() ==> (#[trigger] snaps@[k]).wf(),
            forall|k: int|
                0 <= k < snaps@.len() ==> (#[trigger] snaps@[k]).parts@.len() <= usize::MAX / 4,
            forall|i0: int| 0 <= i0 < i ==> (#[trigger] out@[i0])@.len() == n,
            forall|i0: int, j0: int|
                0 <= i0 < i && 0 <= j0 < n ==> out@[i0]@[j0] == spec_rf(snaps@[i0], snaps@[j0]),
        decreases n - i,
    {
        let mut row: Vec<usize> = Vec::new();
        let mut j: usize = 0;
        while j < n
            invariant
                j <= n,
                i < n,
                n == snaps@.len(),
                out@.len() == i,
                row@.len() == j,
                forall|k: int| 0 <= k < snaps@.len() ==> (#[trigger] snaps@[k]).wf(),
                forall|k: int|
                    0 <= k < snaps@.len() ==> (#[trigger] snaps@[k]).parts@.len() <= usize::MAX
                        / 4,
                forall|i0: int| 0 <= i0 < i ==> (#[trigger] out@[i0])@.len() == n,
                forall|i0: int, j0: int|
                    0 <= i0 < i && 0 <= j0 < n ==> out@[i0]@[j0] == spec_rf(snaps@[i0], snaps@[j0]),
                forall|j0: int| 0 <= j0 < j ==> row@[j0] == spec_rf(snaps@[i as int], snaps@[j0]),
            decreases n - j,
        {
            if j < i {
                let v = out[j][i];
                proof {
                    lemma_rf_symmetric(snaps@[i as int], snaps@[j as int]);
                }
                row.push(v);
            } else if j == i {
                proof {
                    lemma_self_distance_unweighted(snaps@[i as int]);
                }
                row.push(0);
            } else {
                let d = rf_from_snapshots(&snaps[i], &snaps[j]);
                row.push(d);
            }
            j = j + 1;
        }
        out.push(row);
        i = i + 1;
    }
    proof {
        assert forall|i: int| 0 <= i < snaps@.len() implies (#[trigger] out@[i])@[i] == 0 by {
            lemma_self_distance_unweighted(snaps@[i]);
        }
        assert forall|i: int, j: int|
            0 <= i < snaps@.len() && 0 <= j < snaps@.len() implies out@[i]@[j] == out@[j]@[i] by {
            lemma_rf_symmetric(snaps@[i], snaps@[j]);
        }
    }
    out
}

} // verus!
