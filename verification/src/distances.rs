//! The three split-set metrics over snapshot pairs.
//!
//! The unweighted distance counts the splits the two trees do not share,
//! with the documented rooted-pair adjustment of two extra splits when the
//! root signatures differ. The two length-weighted metrics share one
//! traversal shape: walk the union of the split sets and pair each split's
//! two length codes, an absent side reading as code 0. That pairing is
//! computed and specified here; summing `|x - y|` or `sqrt(sum((x - y)^2))`
//! over the decoded pairs is floating-point arithmetic and stays with the
//! caller.

use crate::bitset::Bitset;
use crate::order::{views_of, words_cmp, words_lt, lemma_words_lt_props, lemma_words_lt_trans};
use crate::snapshot::TreeSnapshot;
use crate::tree::{TreeData, TreeStructureError};
use vstd::prelude::*;

verus! {

/// The split set of a snapshot: its part vectors as a set of word sequences.
pub open spec fn parts_set(s: TreeSnapshot) -> Set<Seq<u64>> {
    views_of(s.parts@).to_set()
}

/// The unadjusted split-count distance: `|A| + |B| - 2 |A meet B|`.
pub open spec fn rf_base(a: TreeSnapshot, b: TreeSnapshot) -> int {
    a.parts@.len() + b.parts@.len() - 2 * parts_set(a).intersect(parts_set(b)).len()
}

/// The unweighted distance: the unadjusted count, plus 2 when two rooted
/// trees with differing topology also hang their roots differently.
pub open spec fn spec_rf(a: TreeSnapshot, b: TreeSnapshot) -> int {
    let base = rf_base(a, b);
    if a.rooted && b.rooted && base != 0 && views_of(a.root_children@) != views_of(
        b.root_children@,
    ) {
        base + 2
    } else {
        base
    }
}

/// The (length in a, length in b) pairs over the union of two sorted split
/// listings, in ascending split order; an absent side contributes code 0.
pub open spec fn spec_pairs(
    ap: Seq<Seq<u64>>,
    al: Seq<u64>,
    bp: Seq<Seq<u64>>,
    bl: Seq<u64>,
) -> Seq<(u64, u64)>
    decreases ap.len() + bp.len(),
{
    if ap.len() == 0 && bp.len() == 0 {
        Seq::empty()
    } else if bp.len() == 0 || (ap.len() > 0 && words_lt(ap[0], bp[0])) {
        seq![(al[0], 0u64)] + spec_pairs(ap.drop_first(), al.drop_first(), bp, bl)
    } else if ap.len() == 0 || words_lt(bp[0], ap[0]) {
        seq![(0u64, bl[0])] + spec_pairs(ap, al, bp.drop_first(), bl.drop_first())
    } else {
        seq![(al[0], bl[0])] + spec_pairs(
            ap.drop_first(),
            al.drop_first(),
            bp.drop_first(),
            bl.drop_first(),
        )
    }
}

/// Finds the position of `key` in a strictly ascending split listing.
fn find_split(parts: &Vec<Bitset>, key: &Bitset) -> (r: Option<usize>)
    requires
        forall|k: int, l: int|
            0 <= k < l < parts@.len() ==> words_lt((#[trigger] parts@[k])@, (#[trigger] parts@[l])@),
    ensures
        match r {
            Some(idx) => 0 <= idx < parts@.len() && parts@[idx as int]@ == key@,
            None => forall|k: int| 0 <= k < parts@.len() ==> (#[trigger] parts@[k])@ != key@,
        },
{
    let mut lo: usize = 0;
    let mut hi: usize = parts.len();
    while lo < hi
        invariant
            0 <= lo <= hi <= parts@.len(),
            forall|k: int, l: int|
                0 <= k < l < parts@.len() ==> words_lt(
                    (#[trigger] parts@[k])@,
                    (#[trigger] parts@[l])@,
                ),
            forall|k: int| 0 <= k < lo ==> words_lt((#[trigger] parts@[k])@, key@),
            forall|k: int| hi <= k < parts@.len() ==> words_lt(key@, (#[trigger] parts@[k])@),
        decreases hi - lo,
    {
        let mid = lo + (hi - lo) / 2;
        let c = words_cmp(&parts[mid].0, &key.0);
        if c == 0 {
            return Some(mid);
        } else if c == -1 {
            proof {
                assert forall|k: int| 0 <= k < mid + 1 implies words_lt(
                    (#[trigger] parts@[k])@,
                    key@,
                ) by {
                    if k < mid {
                        lemma_words_lt_trans(parts@[k]@, parts@[mid as int]@, key@);
                    }
                }
            }
            lo = mid + 1;
        } else {
            proof {
                assert forall|k: int| mid <= k < parts@.len() implies words_lt(
                    key@,
                    (#[trigger] parts@[k])@,
                ) by {
                    if k > mid {
                        lemma_words_lt_trans(key@, parts@[mid as int]@, parts@[k]@);
                    }
                }
            }
            hi = mid;
        }
    }
    proof {
        assert forall|k: int| 0 <= k < parts@.len() implies (#[trigger] parts@[k])@ != key@ by {
            lemma_words_lt_props(parts@[k]@, key@);
        }
    }
    None
}

/// Whether two root signatures list the same split vectors in order.
fn signatures_equal(a: &Vec<Bitset>, b: &Vec<Bitset>) -> (r: bool)
    ensures
        r == (views_of(a@) == views_of(b@)),
{
    let n = a.len();
    if n != b.len() {
        proof {
            assert(views_of(a@).len() != views_of(b@).len());
        }
        return false;
    }
    let mut i: usize = 0;
    while i < n
        invariant
            i <= n,
            n == a@.len(),
            n == b@.len(),
            forall|k: int| 0 <= k < i ==> (#[trigger] a@[k])@ == b@[k]@,
        decreases n - i,
    {
        let c = words_cmp(&a[i].0, &b[i].0);
        if c != 0 {
            proof {
                assert(views_of(a@)[i as int] != views_of(b@)[i as int]);
            }
            return false;
        }
        i = i + 1;
    }
    proof {
        assert(views_of(a@) =~= views_of(b@));
    }
    true
}

/// Computes the unweighted split distance of two snapshots.
///
/// The result is exactly [`spec_rf`]: the size of the symmetric difference
/// of the two canonical split sets, plus 2 for a rooted pair whose
/// topologies and root signatures both differ.
pub fn rf_from_snapshots(a: &TreeSnapshot, b: &TreeSnapshot) -> (r: usize)
    requires
        a.wf(),
        b.wf(),
        a.parts@.len() + b.parts@.len() + 2 <= usize::MAX,
    ensures
        r == spec_rf(*a, *b),
{
    broadcast use vstd::seq_lib::seq_to_set_is_finite;

    let alen = a.parts.len();
    let blen = b.parts.len();
    let mut inter: usize = 0;
    let mut k: usize = 0;
    proof {
        assert(views_of(a.parts@).take(0).to_set() =~= Set::empty());
        assert(Set::empty().intersect(parts_set(*b)) =~= Set::<Seq<u64>>::empty());
    }
    while k < alen
        invariant
            k <= alen,
            alen == a.parts@.len(),
            blen == b.parts@.len(),
            a.wf(),
            b.wf(),
            inter == views_of(a.parts@).take(k as int).to_set().intersect(parts_set(*b)).len(),
            inter <= k,
        decreases alen - k,
    {
        broadcast use vstd::seq_lib::seq_to_set_is_finite;

        let ghost pre = views_of(a.parts@).take(k as int).to_set().intersect(parts_set(*b));
        let ghost now = views_of(a.parts@).take(k + 1).to_set().intersect(parts_set(*b));
        let found = find_split(&b.parts, &a.parts[k]);
        proof {
            let x = a.parts@[k as int]@;
            assert(views_of(a.parts@).take(k + 1) =~= views_of(a.parts@).take(k as int).push(x));
            assert forall|y: Seq<u64>|
                views_of(a.parts@).take(k + 1).to_set().contains(y) implies (views_of(
                a.parts@,
            ).take(k as int).to_set().contains(y) || y == x) by {
                let ki = choose|ki: int|
                    0 <= ki < views_of(a.parts@).take(k + 1).len() && #[trigger] views_of(
                        a.parts@,
                    ).take(k + 1)[ki] == y;
                if ki < k {
                    assert(views_of(a.parts@).take(k as int)[ki] == y);
                }
            }
            // the new split never occurs among the earlier, strictly smaller ones
            assert(!views_of(a.parts@).take(k as int).to_set().contains(x)) by {
                if views_of(a.parts@).take(k as int).to_set().contains(x) {
                    let ki = choose|ki: int|
                        0 <= ki < views_of(a.parts@).take(k as int).len() && views_of(
                            a.parts@,
                        ).take(k as int)[ki] == x;
                    assert(words_lt(a.parts@[ki]@, a.parts@[k as int]@));
                    lemma_words_lt_props(a.parts@[ki]@, a.parts@[k as int]@);
                }
            }
            assert forall|y: Seq<u64>| pre.contains(y) implies now.contains(y) by {
                let ki = choose|ki: int|
                    0 <= ki < views_of(a.parts@).take(k as int).len() && #[trigger] views_of(
                        a.parts@,
                    ).take(k as int)[ki] == y;
                assert(views_of(a.parts@).take(k + 1)[ki] == y);
                assert(views_of(a.parts@).take(k + 1).contains(y));
            }
            match found {
                Some(idx) => {
                    assert(views_of(b.parts@)[idx as int] == x);
                    assert(views_of(b.parts@).contains(x));
                    assert(parts_set(*b).contains(x));
                    assert(views_of(a.parts@).take(k + 1)[k as int] == x);
                    assert(views_of(a.parts@).take(k + 1).contains(x));
                    assert(now.contains(x));
                    assert(now =~= pre.insert(x));
                    assert(!pre.contains(x));
                    assert(now.len() == pre.len() + 1);
                },
                None => {
                    assert(!parts_set(*b).contains(x)) by {
                        if parts_set(*b).contains(x) {
                            let ki = choose|ki: int|
                                0 <= ki < views_of(b.parts@).len() && views_of(b.parts@)[ki] == x;
                            assert(b.parts@[ki]@ == x);
                        }
                    }
                    assert(now =~= pre);
                },
            }
        }
        if found.is_some() {
            inter = inter + 1;
        }
        k = k + 1;
    }
    proof {
        assert(views_of(a.parts@).take(alen as int) =~= views_of(a.parts@));
        // the intersection is no larger than either split listing
        vstd::set_lib::lemma_len_subset(
            parts_set(*a).intersect(parts_set(*b)),
            parts_set(*a),
        );
        vstd::set_lib::lemma_len_subset(
            parts_set(*a).intersect(parts_set(*b)),
            parts_set(*b),
        );
        assert forall|k1: int, l1: int|
            0 <= k1 < l1 < views_of(a.parts@).len() implies views_of(a.parts@)[k1] != views_of(
            a.parts@,
        )[l1] by {
            assert(words_lt(a.parts@[k1]@, a.parts@[l1]@));
            lemma_words_lt_props(a.parts@[k1]@, a.parts@[l1]@);
        }
        views_of(a.parts@).unique_seq_to_set();
        assert forall|k1: int, l1: int|
            0 <= k1 < l1 < views_of(b.parts@).len() implies views_of(b.parts@)[k1] != views_of(
            b.parts@,
        )[l1] by {
            assert(words_lt(b.parts@[k1]@, b.parts@[l1]@));
            lemma_words_lt_props(b.parts@[k1]@, b.parts@[l1]@);
        }
        views_of(b.parts@).unique_seq_to_set();
        assert(inter <= alen && inter <= blen);
    }
    let base = alen + blen - 2 * inter;
    let same_root = signatures_equal(&a.root_children, &b.root_children);
    if a.rooted && b.rooted && base != 0 && !same_root {
        base + 2
    } else {
        base
    }
}

/// Builds a snapshot for each tree and compares them by the unweighted
/// split distance.
pub fn robinson_foulds(tree_a: &TreeData, tree_b: &TreeData) -> (r: Result<
    usize,
    TreeStructureError,
>)
    requires
        tree_a.nodes@.len() < usize::MAX / 64,
        tree_b.nodes@.len() < usize::MAX / 64,
    ensures
        match r {
            Ok(d) => {
                &&& crate::tree::well_formed(*tree_a)
                &&& crate::tree::well_formed(*tree_b)
                &&& exists|sa: TreeSnapshot, sb: TreeSnapshot|
                    {
                        &&& #[trigger] crate::snapshot::snapshot_matches(*tree_a, sa)
                        &&& #[trigger] crate::snapshot::snapshot_matches(*tree_b, sb)
                        &&& d == spec_rf(sa, sb)
                    }
            },
            Err(_) => !(crate::tree::well_formed(*tree_a) && crate::tree::well_formed(*tree_b)),
        },
{
    let snap_a = match TreeSnapshot::from_tree(tree_a) {
        Ok(s) => s,
        Err(e) => {
            return Err(e);
        },
    };
    let snap_b = match TreeSnapshot::from_tree(tree_b) {
        Ok(s) => s,
        Err(e) => {
            return Err(e);
        },
    };
    proof {
        assert(snap_a.parts@.len() + snap_b.parts@.len() + 2 <= usize::MAX) by {
            assert(snap_a.parts@.len() <= crate::tree::node_count(*tree_a));
            assert(snap_b.parts@.len() <= crate::tree::node_count(*tree_b));
        }
    }
    Ok(rf_from_snapshots(&snap_a, &snap_b))
}

} // verus!

verus! {

/// Pairs the two branch length codes of every split of either snapshot, in
/// ascending split order; a split absent from one side pairs its length with
/// code 0. The weighted distance is the sum of `|x - y|` over the decoded
/// pairs and the branch-score distance is the root of the sum of squared
/// differences, both computed by the caller that owns the decoding.
pub fn paired_lengths(a: &TreeSnapshot, b: &TreeSnapshot) -> (r: Vec<(u64, u64)>)
    requires
        a.wf(),
        b.wf(),
        a.parts@.len() + b.parts@.len() <= usize::MAX,
    ensures
        r@ == spec_pairs(views_of(a.parts@), a.lengths@, views_of(b.parts@), b.lengths@),
{
    let alen = a.parts.len();
    let blen = b.parts.len();
    let mut out: Vec<(u64, u64)> = Vec::new();
    let mut i: usize = 0;
    let mut j: usize = 0;
    let ghost ap = views_of(a.parts@);
    let ghost al = a.lengths@;
    let ghost bp = views_of(b.parts@);
    let ghost bl = b.lengths@;
    proof {
        assert(ap.skip(0) =~= ap && al.skip(0) =~= al && bp.skip(0) =~= bp && bl.skip(0) =~= bl);
        assert(Seq::<(u64, u64)>::empty() + spec_pairs(ap, al, bp, bl) =~= spec_pairs(
            ap,
            al,
            bp,
            bl,
        ));
    }
    while i < alen || j < blen
        invariant
            i <= alen,
            j <= blen,
            alen == a.parts@.len(),
            blen == b.parts@.len(),
            a.wf(),
            b.wf(),
            ap == views_of(a.parts@),
            al == a.lengths@,
            bp == views_of(b.parts@),
            bl == b.lengths@,
            spec_pairs(ap, al, bp, bl) == out@ + spec_pairs(
                ap.skip(i as int),
                al.skip(i as int),
                bp.skip(j as int),
                bl.skip(j as int),
            ),
        decreases alen - i + blen - j,
    {
        let ghost aps = ap.skip(i as int);
        let ghost als = al.skip(i as int);
        let ghost bps = bp.skip(j as int);
        let ghost bls = bl.skip(j as int);
        let ghost pre = out@;
        proof {
            if i < alen {
                assert(aps[0] == ap[i as int] && als[0] == al[i as int]);
                assert(aps.drop_first() =~= ap.skip(i + 1));
                assert(als.drop_first() =~= al.skip(i + 1));
            }
            if j < blen {
                assert(bps[0] == bp[j as int] && bls[0] == bl[j as int]);
                assert(bps.drop_first() =~= bp.skip(j + 1));
                assert(bls.drop_first() =~= bl.skip(j + 1));
            }
        }
        if j >= blen {
            out.push((a.lengths[i], 0u64));
            proof {
                assert(spec_pairs(aps, als, bps, bls) == seq![(al[i as int], 0u64)] + spec_pairs(
                    aps.drop_first(),
                    als.drop_first(),
                    bps,
                    bls,
                ));
                assert(out@ =~= pre.push((al[i as int], 0u64)));
                assert(pre + spec_pairs(aps, als, bps, bls) =~= out@ + spec_pairs(
                    ap.skip(i + 1),
                    al.skip(i + 1),
                    bps,
                    bls,
                ));
            }
            i = i + 1;
        } else if i >= alen {
            out.push((0u64, b.lengths[j]));
            proof {
                assert(spec_pairs(aps, als, bps, bls) == seq![(0u64, bl[j as int])] + spec_pairs(
                    aps,
                    als,
                    bps.drop_first(),
                    bls.drop_first(),
                ));
                assert(out@ =~= pre.push((0u64, bl[j as int])));
                assert(pre + spec_pairs(aps, als, bps, bls) =~= out@ + spec_pairs(
                    aps,
                    als,
                    bp.skip(j + 1),
                    bl.skip(j + 1),
                ));
            }
            j = j + 1;
        } else {
            let c = words_cmp(&a.parts[i].0, &b.parts[j].0);
            if c == -1 {
                out.push((a.lengths[i], 0u64));
                proof {
                    assert(words_lt(aps[0], bps[0]));
                    assert(spec_pairs(aps, als, bps, bls) == seq![(al[i as int], 0u64)]
                        + spec_pairs(aps.drop_first(), als.drop_first(), bps, bls));
                    assert(out@ =~= pre.push((al[i as int], 0u64)));
                    assert(pre + spec_pairs(aps, als, bps, bls) =~= out@ + spec_pairs(
                        ap.skip(i + 1),
                        al.skip(i + 1),
                        bps,
                        bls,
                    ));
                }
                i = i + 1;
            } else if c == 1 {
                out.push((0u64, b.lengths[j]));
                proof {
                    assert(words_lt(bps[0], aps[0]));
                    lemma_words_lt_props(aps[0], bps[0]);
                    assert(spec_pairs(aps, als, bps, bls) == seq![(0u64, bl[j as int])]
                        + spec_pairs(aps, als, bps.drop_first(), bls.drop_first()));
                    assert(out@ =~= pre.push((0u64, bl[j as int])));
                    assert(pre + spec_pairs(aps, als, bps, bls) =~= out@ + spec_pairs(
                        aps,
                        als,
                        bp.skip(j + 1),
                        bl.skip(j + 1),
                    ));
                }
                j = j + 1;
            } else {
                out.push((a.lengths[i], b.lengths[j]));
                proof {
                    assert(aps[0] == bps[0]);
                    lemma_words_lt_props(aps[0], bps[0]);
                    assert(spec_pairs(aps, als, bps, bls) == seq![(al[i as int], bl[j as int])]
                        + spec_pairs(
                        aps.drop_first(),
                        als.drop_first(),
                        bps.drop_first(),
                        bls.drop_first(),
                    ));
                    assert(out@ =~= pre.push((al[i as int], bl[j as int])));
                    assert(pre + spec_pairs(aps, als, bps, bls) =~= out@ + spec_pairs(
                        ap.skip(i + 1),
                        al.skip(i + 1),
                        bp.skip(j + 1),
                        bl.skip(j + 1),
                    ));
                }
                i = i + 1;
                j = j + 1;
            }
        }
    }
    proof {
        assert(ap.skip(alen as int).len() == 0 && bp.skip(blen as int).len() == 0);
        assert(spec_pairs(
            ap.skip(alen as int),
            al.skip(alen as int),
            bp.skip(blen as int),
            bl.skip(blen as int),
        ) == Seq::<(u64, u64)>::empty());
        assert(out@ + Seq::<(u64, u64)>::empty() =~= out@);
    }
    out
}

/// A snapshot compared with itself shows unweighted distance 0: the split
/// sets coincide, so the unadjusted count vanishes and no rooted adjustment
/// applies.
pub proof fn lemma_self_distance_unweighted(a: TreeSnapshot)
    requires
        a.wf(),
    ensures
        spec_rf(a, a) == 0,
{
    broadcast use vstd::seq_lib::seq_to_set_is_finite;

    assert forall|k1: int, l1: int|
        0 <= k1 < l1 < views_of(a.parts@).len() implies views_of(a.parts@)[k1] != views_of(
        a.parts@,
    )[l1] by {
        assert(words_lt(a.parts@[k1]@, a.parts@[l1]@));
        lemma_words_lt_props(a.parts@[k1]@, a.parts@[l1]@);
    }
    views_of(a.parts@).unique_seq_to_set();
    assert(parts_set(a).intersect(parts_set(a)) =~= parts_set(a));
    assert(rf_base(a, a) == 0);
}

/// A snapshot paired with itself pairs every split's length with itself, so
/// both weighted sums are built from zero differences.
pub proof fn lemma_self_distance_pairs(ap: Seq<Seq<u64>>, al: Seq<u64>)
    ensures
        forall|k: int|
            0 <= k < spec_pairs(ap, al, ap, al).len() ==> (#[trigger] spec_pairs(
                ap,
                al,
                ap,
                al,
            )[k]).0 == spec_pairs(ap, al, ap, al)[k].1,
    decreases ap.len(),
{
    if ap.len() > 0 {
        lemma_words_lt_props(ap[0], ap[0]);
        lemma_self_distance_pairs(ap.drop_first(), al.drop_first());
        assert(spec_pairs(ap, al, ap, al) == seq![(al[0], al[0])] + spec_pairs(
            ap.drop_first(),
            al.drop_first(),
            ap.drop_first(),
            al.drop_first(),
        ));
    }
}

/// The unweighted distance is symmetric in its two snapshots.
pub proof fn lemma_rf_symmetric(a: TreeSnapshot, b: TreeSnapshot)
    ensures
        spec_rf(a, b) == spec_rf(b, a),
{
    assert(parts_set(a).intersect(parts_set(b)) =~= parts_set(b).intersect(parts_set(a)));
}

/// The length pairing is symmetric up to swapping each pair's components, so
/// both weighted metrics are symmetric: `|x - y|` and `(x - y)^2` do not
/// mind the swap.
pub proof fn lemma_pairs_symmetric(
    ap: Seq<Seq<u64>>,
    al: Seq<u64>,
    bp: Seq<Seq<u64>>,
    bl: Seq<u64>,
)
    ensures
        spec_pairs(bp, bl, ap, al) == spec_pairs(ap, al, bp, bl).map_values(
            |p: (u64, u64)| (p.1, p.0),
        ),
    decreases ap.len() + bp.len(),
{
    let swap = |p: (u64, u64)| (p.1, p.0);
    if ap.len() == 0 && bp.len() == 0 {
        assert(spec_pairs(bp, bl, ap, al) =~= spec_pairs(ap, al, bp, bl).map_values(swap));
    } else if bp.len() == 0 || (ap.len() > 0 && words_lt(ap[0], bp[0])) {
        if ap.len() > 0 && bp.len() > 0 {
            lemma_words_lt_props(ap[0], bp[0]);
        }
        lemma_pairs_symmetric(ap.drop_first(), al.drop_first(), bp, bl);
        assert(spec_pairs(bp, bl, ap, al) == seq![(0u64, al[0])] + spec_pairs(
            bp,
            bl,
            ap.drop_first(),
            al.drop_first(),
        ));
        assert(spec_pairs(bp, bl, ap, al) =~= spec_pairs(ap, al, bp, bl).map_values(swap));
    } else if ap.len() == 0 || words_lt(bp[0], ap[0]) {
        if ap.len() > 0 && bp.len() > 0 {
            lemma_words_lt_props(ap[0], bp[0]);
        }
        lemma_pairs_symmetric(ap, al, bp.drop_first(), bl.drop_first());
        assert(spec_pairs(bp, bl, ap, al) == seq![(bl[0], 0u64)] + spec_pairs(
            bp.drop_first(),
            bl.drop_first(),
            ap,
            al,
        ));
        assert(spec_pairs(bp, bl, ap, al) =~= spec_pairs(ap, al, bp, bl).map_values(swap));
    } else {
        lemma_words_lt_props(ap[0], bp[0]);
        lemma_pairs_symmetric(ap.drop_first(), al.drop_first(), bp.drop_first(), bl.drop_first());
        assert(spec_pairs(bp, bl, ap, al) == seq![(bl[0], al[0])] + spec_pairs(
            bp.drop_first(),
            bl.drop_first(),
            ap.drop_first(),
            al.drop_first(),
        ));
        assert(spec_pairs(bp, bl, ap, al) =~= spec_pairs(ap, al, bp, bl).map_values(swap));
    }
}

/// The rooted adjustment adds exactly 2 when two rooted snapshots with
/// differing splits also carry differing root signatures, and nothing
/// otherwise: against a pair that hangs its roots alike but shows the same
/// unadjusted count, the distance is exactly 2 greater, unless the
/// unadjusted count is already 0.
pub proof fn lemma_rooted_adjustment(
    a: TreeSnapshot,
    b: TreeSnapshot,
    a2: TreeSnapshot,
    b2: TreeSnapshot,
)
    requires
        a.rooted && b.rooted && a2.rooted && b2.rooted,
        rf_base(a2, b2) == rf_base(a, b),
        views_of(a.root_children@) != views_of(b.root_children@),
        views_of(a2.root_children@) == views_of(b2.root_children@),
    ensures
        rf_base(a, b) != 0 ==> spec_rf(a, b) == spec_rf(a2, b2) + 2,
        rf_base(a, b) == 0 ==> spec_rf(a, b) == spec_rf(a2, b2),
{
}

} // verus!
