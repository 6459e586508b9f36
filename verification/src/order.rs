//! Lexicographic orders on packed word vectors and on byte strings, with
//! verified comparators and sorts.
//!
//! Splits are ordered by their word sequences and taxon names by their bytes,
//! both lexicographically with a shorter prefix ordered first. The sorts
//! return a permutation of their input that is sorted by the respective
//! order; snapshots built from the same splits therefore list them in one
//! agreed order, whatever order the tree handed them over in.

use crate::bitset::Bitset;
use vstd::multiset::Multiset;
use vstd::prelude::*;
use vstd::relations::{sorted_by, total_ordering};
use vstd::seq_lib::group_to_multiset_ensures;

verus! {

/// Strict lexicographic order on word sequences; a proper prefix comes first.
pub open spec fn words_lt(a: Seq<u64>, b: Seq<u64>) -> bool
    decreases a.len(),
{
    if b.len() == 0 {
        false
    } else if a.len() == 0 {
        true
    } else if a[0] != b[0] {
        a[0] < b[0]
    } else {
        words_lt(a.drop_first(), b.drop_first())
    }
}

/// Reflexive closure of [`words_lt`].
pub open spec fn words_le(a: Seq<u64>, b: Seq<u64>) -> bool {
    a == b || words_lt(a, b)
}

/// [`words_le`] as a relation value, for use with vstd's ordering lemmas.
pub open spec fn word_le_fn() -> spec_fn(Seq<u64>, Seq<u64>) -> bool {
    |a: Seq<u64>, b: Seq<u64>| words_le(a, b)
}

/// Strict lexicographic order on byte strings; a proper prefix comes first.
pub open spec fn bytes_lt(a: Seq<u8>, b: Seq<u8>) -> bool
    decreases a.len(),
{
    if b.len() == 0 {
        false
    } else if a.len() == 0 {
        true
    } else if a[0] != b[0] {
        a[0] < b[0]
    } else {
        bytes_lt(a.drop_first(), b.drop_first())
    }
}

/// Order on (taxon name, node index) pairs: by name, ties by index.
pub open spec fn leaf_le(a: (Seq<u8>, usize), b: (Seq<u8>, usize)) -> bool {
    bytes_lt(a.0, b.0) || (a.0 == b.0 && a.1 <= b.1)
}

/// [`leaf_le`] as a relation value.
pub open spec fn leaf_le_fn() -> spec_fn((Seq<u8>, usize), (Seq<u8>, usize)) -> bool {
    |a: (Seq<u8>, usize), b: (Seq<u8>, usize)| leaf_le(a, b)
}

/// Exactly one of `words_lt(a, b)`, `a == b`, `words_lt(b, a)` holds.
pub proof fn lemma_words_lt_props(a: Seq<u64>, b: Seq<u64>)
    ensures
        words_lt(a, b) || words_lt(b, a) || a == b,
        !(words_lt(a, b) && words_lt(b, a)),
        words_lt(a, b) ==> a != b,
    decreases a.len(),
{
    if a.len() > 0 && b.len() > 0 && a[0] == b[0] {
        lemma_words_lt_props(a.drop_first(), b.drop_first());
        if a.drop_first() == b.drop_first() {
            assert forall|k: int| 0 <= k < a.len() implies a[k] == b[k] by {
                if k > 0 {
                    assert(a.drop_first()[k - 1] == b.drop_first()[k - 1]);
                }
            }
            assert(a =~= b);
        }
        if a == b {
            assert(a.drop_first() =~= b.drop_first());
        }
    } else if a == b {
        assert(a.len() == b.len());
    }
}

/// Transitivity of [`words_lt`].
pub proof fn lemma_words_lt_trans(a: Seq<u64>, b: Seq<u64>, c: Seq<u64>)
    requires
        words_lt(a, b),
        words_lt(b, c),
    ensures
        words_lt(a, c),
    decreases a.len(),
{
    if a.len() > 0 && b.len() > 0 && c.len() > 0 && a[0] == b[0] && b[0] == c[0] {
        lemma_words_lt_trans(a.drop_first(), b.drop_first(), c.drop_first());
    }
}

/// [`words_le`] is a total ordering on word sequences.
pub proof fn lemma_word_le_total()
    ensures
        total_ordering(word_le_fn()),
{
    let leq = word_le_fn();
    assert forall|x: Seq<u64>, y: Seq<u64>| #[trigger] leq(x, y) && #[trigger] leq(y, x)
        implies x == y by {
        lemma_words_lt_props(x, y);
    }
    assert forall|x: Seq<u64>, y: Seq<u64>, z: Seq<u64>|
        #[trigger] leq(x, y) && #[trigger] leq(y, z) implies leq(x, z) by {
        if x != y && y != z {
            lemma_words_lt_trans(x, y, z);
        }
    }
    assert forall|x: Seq<u64>, y: Seq<u64>| #[trigger] leq(x, y) || #[trigger] leq(y, x) by {
        lemma_words_lt_props(x, y);
    }
}

/// The reflexive closure of [`bytes_lt`] as a relation value.
pub open spec fn byte_le_fn() -> spec_fn(Seq<u8>, Seq<u8>) -> bool {
    |a: Seq<u8>, b: Seq<u8>| a == b || bytes_lt(a, b)
}

/// [`byte_le_fn`] is a total ordering on byte strings.
pub proof fn lemma_bytes_le_total()
    ensures
        total_ordering(byte_le_fn()),
{
    let leq = byte_le_fn();
    assert forall|x: Seq<u8>, y: Seq<u8>| #[trigger] leq(x, y) && #[trigger] leq(y, x)
        implies x == y by {
        lemma_bytes_lt_props(x, y);
    }
    assert forall|x: Seq<u8>, y: Seq<u8>, z: Seq<u8>|
        #[trigger] leq(x, y) && #[trigger] leq(y, z) implies leq(x, z) by {
        if x != y && y != z {
            lemma_bytes_lt_trans(x, y, z);
        }
    }
    assert forall|x: Seq<u8>, y: Seq<u8>| #[trigger] leq(x, y) || #[trigger] leq(y, x) by {
        lemma_bytes_lt_props(x, y);
    }
}

/// Exactly one of `bytes_lt(a, b)`, `a == b`, `bytes_lt(b, a)` holds.
pub proof fn lemma_bytes_lt_props(a: Seq<u8>, b: Seq<u8>)
    ensures
        bytes_lt(a, b) || bytes_lt(b, a) || a == b,
        !(bytes_lt(a, b) && bytes_lt(b, a)),
        bytes_lt(a, b) ==> a != b,
    decreases a.len(),
{
    if a.len() > 0 && b.len() > 0 && a[0] == b[0] {
        lemma_bytes_lt_props(a.drop_first(), b.drop_first());
        if a.drop_first() == b.drop_first() {
            assert forall|k: int| 0 <= k < a.len() implies a[k] == b[k] by {
                if k > 0 {
                    assert(a.drop_first()[k - 1] == b.drop_first()[k - 1]);
                }
            }
            assert(a =~= b);
        }
        if a == b {
            assert(a.drop_first() =~= b.drop_first());
        }
    } else if a == b {
        assert(a.len() == b.len());
    }
}

/// Transitivity of [`bytes_lt`].
pub proof fn lemma_bytes_lt_trans(a: Seq<u8>, b: Seq<u8>, c: Seq<u8>)
    requires
        bytes_lt(a, b),
        bytes_lt(b, c),
    ensures
        bytes_lt(a, c),
    decreases a.len(),
{
    if a.len() > 0 && b.len() > 0 && c.len() > 0 && a[0] == b[0] && b[0] == c[0] {
        lemma_bytes_lt_trans(a.drop_first(), b.drop_first(), c.drop_first());
    }
}

/// [`leaf_le`] is a total ordering on (name, index) pairs.
pub proof fn lemma_leaf_le_total()
    ensures
        total_ordering(leaf_le_fn()),
{
    let leq = leaf_le_fn();
    assert forall|x: (Seq<u8>, usize), y: (Seq<u8>, usize)|
        #[trigger] leq(x, y) && #[trigger] leq(y, x) implies x == y by {
        lemma_bytes_lt_props(x.0, y.0);
    }
    assert forall|x: (Seq<u8>, usize), y: (Seq<u8>, usize), z: (Seq<u8>, usize)|
        #[trigger] leq(x, y) && #[trigger] leq(y, z) implies leq(x, z) by {
        if bytes_lt(x.0, y.0) && bytes_lt(y.0, z.0) {
            lemma_bytes_lt_trans(x.0, y.0, z.0);
        }
    }
    assert forall|x: (Seq<u8>, usize), y: (Seq<u8>, usize)|
        #[trigger] leq(x, y) || #[trigger] leq(y, x) by {
        lemma_bytes_lt_props(x.0, y.0);
    }
}

/// A difference at position `i` after an equal prefix decides the order.
proof fn lemma_words_lt_diff(a: Seq<u64>, b: Seq<u64>, i: int)
    requires
        0 <= i < a.len(),
        i < b.len(),
        forall|k: int| 0 <= k < i ==> a[k] == b[k],
        a[i] < b[i],
    ensures
        words_lt(a, b),
    decreases i,
{
    if i > 0 {
        lemma_words_lt_diff(a.drop_first(), b.drop_first(), i - 1);
    }
}

/// With an equal prefix covering the shorter operand, lengths decide.
proof fn lemma_words_prefix_exhaust(a: Seq<u64>, b: Seq<u64>, i: int)
    requires
        0 <= i <= a.len(),
        i <= b.len(),
        i == a.len() || i == b.len(),
        forall|k: int| 0 <= k < i ==> a[k] == b[k],
    ensures
        a.len() < b.len() ==> words_lt(a, b),
        a.len() == b.len() ==> a == b,
        a.len() > b.len() ==> words_lt(b, a),
    decreases i,
{
    if i == 0 {
        if a.len() == b.len() {
            assert(a =~= b);
        }
    } else {
        lemma_words_prefix_exhaust(a.drop_first(), b.drop_first(), i - 1);
        if a.len() == b.len() {
            assert(a =~= b);
        }
    }
}

/// A difference at position `i` after an equal prefix decides the order.
proof fn lemma_bytes_lt_diff(a: Seq<u8>, b: Seq<u8>, i: int)
    requires
        0 <= i < a.len(),
        i < b.len(),
        forall|k: int| 0 <= k < i ==> a[k] == b[k],
        a[i] < b[i],
    ensures
        bytes_lt(a, b),
    decreases i,
{
    if i > 0 {
        lemma_bytes_lt_diff(a.drop_first(), b.drop_first(), i - 1);
    }
}

/// With an equal prefix covering the shorter operand, lengths decide.
proof fn lemma_bytes_prefix_exhaust(a: Seq<u8>, b: Seq<u8>, i: int)
    requires
        0 <= i <= a.len(),
        i <= b.len(),
        i == a.len() || i == b.len(),
        forall|k: int| 0 <= k < i ==> a[k] == b[k],
    ensures
        a.len() < b.len() ==> bytes_lt(a, b),
        a.len() == b.len() ==> a == b,
        a.len() > b.len() ==> bytes_lt(b, a),
    decreases i,
{
    if i == 0 {
        if a.len() == b.len() {
            assert(a =~= b);
        }
    } else {
        lemma_bytes_prefix_exhaust(a.drop_first(), b.drop_first(), i - 1);
        if a.len() == b.len() {
            assert(a =~= b);
        }
    }
}

/// Three-way comparison of word vectors under the lexicographic order:
/// `-1` for less, `0` for equal, `1` for greater.
pub fn words_cmp(a: &Vec<u64>, b: &Vec<u64>) -> (r: i8)
    ensures
        r == -1 || r == 0 || r == 1,
        (r == -1) == words_lt(a@, b@),
        (r == 0) == (a@ == b@),
        (r == 1) == words_lt(b@, a@),
{
    proof {
        lemma_words_lt_props(a@, b@);
    }
    let alen = a.len();
    let blen = b.len();
    let mut i: usize = 0;
    while i < alen && i < blen
        invariant
            alen == a@.len(),
            blen == b@.len(),
            0 <= i <= alen,
            i <= blen,
            forall|k: int| 0 <= k < i ==> a@[k] == b@[k],
        decreases alen - i,
    {
        if a[i] < b[i] {
            proof {
                lemma_words_lt_diff(a@, b@, i as int);
                lemma_words_lt_props(a@, b@);
            }
            return -1;
        }
        if a[i] > b[i] {
            proof {
                lemma_words_lt_diff(b@, a@, i as int);
                lemma_words_lt_props(a@, b@);
            }
            return 1;
        }
        i = i + 1;
    }
    proof {
        lemma_words_prefix_exhaust(a@, b@, i as int);
        lemma_words_lt_props(a@, b@);
    }
    if alen < blen {
        -1
    } else if alen == blen {
        0
    } else {
        1
    }
}

/// Three-way comparison of byte strings under the lexicographic order:
/// `-1` for less, `0` for equal, `1` for greater.
pub fn bytes_cmp(a: &Vec<u8>, b: &Vec<u8>) -> (r: i8)
    ensures
        r == -1 || r == 0 || r == 1,
        (r == -1) == bytes_lt(a@, b@),
        (r == 0) == (a@ == b@),
        (r == 1) == bytes_lt(b@, a@),
{
    proof {
        lemma_bytes_lt_props(a@, b@);
    }
    let alen = a.len();
    let blen = b.len();
    let mut i: usize = 0;
    while i < alen && i < blen
        invariant
            alen == a@.len(),
            blen == b@.len(),
            0 <= i <= alen,
            i <= blen,
            forall|k: int| 0 <= k < i ==> a@[k] == b@[k],
        decreases alen - i,
    {
        if a[i] < b[i] {
            proof {
                lemma_bytes_lt_diff(a@, b@, i as int);
                lemma_bytes_lt_props(a@, b@);
            }
            return -1;
        }
        if a[i] > b[i] {
            proof {
                lemma_bytes_lt_diff(b@, a@, i as int);
                lemma_bytes_lt_props(a@, b@);
            }
            return 1;
        }
        i = i + 1;
    }
    proof {
        lemma_bytes_prefix_exhaust(a@, b@, i as int);
        lemma_bytes_lt_props(a@, b@);
    }
    if alen < blen {
        -1
    } else if alen == blen {
        0
    } else {
        1
    }
}

/// The byte views of a listing of byte strings.
pub open spec fn byte_views(s: Seq<Vec<u8>>) -> Seq<Seq<u8>> {
    s.map_values(|v: Vec<u8>| v@)
}

/// An exact copy of a byte string.
pub fn copy_bytes(v: &Vec<u8>) -> (r: Vec<u8>)
    ensures
        r@ == v@,
{
    let n = v.len();
    let mut out: Vec<u8> = Vec::new();
    let mut i: usize = 0;
    while i < n
        invariant
            i <= n,
            n == v@.len(),
            out@ == v@.subrange(0, i as int),
        decreases n - i,
    {
        out.push(v[i]);
        assert(out@ =~= v@.subrange(0, i + 1 as int));
        i = i + 1;
    }
    assert(out@ =~= v@);
    out
}

/// The word sequences of a sequence of bitsets.
pub open spec fn views_of(s: Seq<Bitset>) -> Seq<Seq<u64>> {
    s.map_values(|b: Bitset| b@)
}

/// The (key words, length) pairs of a sequence of keyed splits.
pub open spec fn pair_views_of(s: Seq<(Bitset, u64)>) -> Seq<(Seq<u64>, u64)> {
    s.map_values(|p: (Bitset, u64)| (p.0@, p.1))
}

/// The (name bytes, node index) pairs of a leaf listing.
pub open spec fn leaf_views_of(s: Seq<(Vec<u8>, usize)>) -> Seq<(Seq<u8>, usize)> {
    s.map_values(|p: (Vec<u8>, usize)| (p.0@, p.1))
}

/// [`words_le`] on the keys of keyed splits, as a relation value.
pub open spec fn pair_le_fn() -> spec_fn((Seq<u64>, u64), (Seq<u64>, u64)) -> bool {
    |a: (Seq<u64>, u64), b: (Seq<u64>, u64)| words_le(a.0, b.0)
}

/// Sorts bitsets by their word sequences; the result is a permutation of the
/// input sorted by [`words_le`].
pub fn sort_bitsets(v: Vec<Bitset>) -> (r: Vec<Bitset>)
    ensures
        sorted_by(views_of(r@), word_le_fn()),
        views_of(r@).to_multiset() == views_of(v@).to_multiset(),
{
    proof {
        lemma_word_le_total();
        broadcast use group_to_multiset_ensures;
    }
    let ghost orig = views_of(v@).to_multiset();
    let mut rest = v;
    let mut out: Vec<Bitset> = Vec::new();
    while rest.len() > 0
        invariant
            views_of(out@).to_multiset().add(views_of(rest@).to_multiset()) == orig,
            sorted_by(views_of(out@), word_le_fn()),
            forall|k: int, l: int|
                0 <= k < out@.len() && 0 <= l < rest@.len() ==> words_le(out@[k]@, rest@[l]@),
        decreases rest.len(),
    {
        proof {
            lemma_word_le_total();
            broadcast use group_to_multiset_ensures;
        }
        let n = rest.len();
        let mut min_i: usize = 0;
        let mut i: usize = 1;
        while i < n
            invariant
                n == rest@.len(),
                min_i < i <= n,
                forall|l: int| 0 <= l < i ==> words_le(rest@[min_i as int]@, rest@[l]@),
            decreases n - i,
        {
            proof {
                lemma_word_le_total();
            }
            let c = words_cmp(&rest[i].0, &rest[min_i].0);
            if c == -1 {
                proof {
                    let leq = word_le_fn();
                    assert forall|l: int| 0 <= l < i + 1 implies words_le(rest@[i as int]@, rest@[l]@) by {
                        if l < i {
                            assert(leq(rest@[i as int]@, rest@[min_i as int]@));
                            assert(leq(rest@[min_i as int]@, rest@[l]@));
                        }
                    }
                }
                min_i = i;
            } else {
                proof {
                    assert(words_le(rest@[min_i as int]@, rest@[i as int]@));
                }
            }
            i = i + 1;
        }
        let ghost old_rest = rest@;
        let ghost old_out = out@;
        let x = rest.remove(min_i);
        out.push(x);
        proof {
            assert(views_of(rest@) =~= views_of(old_rest).remove(min_i as int));
            assert(views_of(out@) =~= views_of(old_out).push(x@));
            assert(views_of(old_rest)[min_i as int] == x@);
            assert(views_of(out@).to_multiset() =~= views_of(old_out).to_multiset().insert(x@));
            assert(views_of(rest@).to_multiset() =~= views_of(old_rest).to_multiset().remove(x@));
            assert(views_of(old_rest).to_multiset().contains(x@));
            assert(views_of(out@).to_multiset().add(views_of(rest@).to_multiset()) =~= orig);
            let leq = word_le_fn();
            assert forall|k: int, l: int|
                0 <= k < l < views_of(out@).len() implies #[trigger] leq(
                views_of(out@)[k],
                views_of(out@)[l],
            ) by {
                if l < old_out.len() {
                    assert(leq(views_of(old_out)[k], views_of(old_out)[l]));
                } else {
                    assert(words_le(old_out[k]@, old_rest[min_i as int]@));
                }
            }
            assert forall|k: int, l: int|
                0 <= k < out@.len() && 0 <= l < rest@.len() implies words_le(
                out@[k]@,
                rest@[l]@,
            ) by {
                let lo = if l < min_i { l } else { l + 1 };
                assert(rest@[l] == old_rest[lo]);
                if k < old_out.len() {
                    assert(words_le(old_out[k]@, old_rest[lo]@));
                } else {
                    assert(words_le(old_rest[min_i as int]@, old_rest[lo]@));
                }
            }
        }
    }
    proof {
        assert(views_of(rest@).to_multiset() =~= Multiset::empty());
        assert(views_of(out@).to_multiset() =~= orig);
    }
    out
}

/// Sorts keyed splits by their key words; the result is a permutation of the
/// input whose key sequence is sorted by [`words_le`].
pub fn sort_keyed_splits(v: Vec<(Bitset, u64)>) -> (r: Vec<(Bitset, u64)>)
    ensures
        sorted_by(pair_views_of(r@), pair_le_fn()),
        pair_views_of(r@).to_multiset() == pair_views_of(v@).to_multiset(),
{
    proof {
        lemma_word_le_total();
        broadcast use group_to_multiset_ensures;
    }
    let ghost orig = pair_views_of(v@).to_multiset();
    let mut rest = v;
    let mut out: Vec<(Bitset, u64)> = Vec::new();
    while rest.len() > 0
        invariant
            pair_views_of(out@).to_multiset().add(pair_views_of(rest@).to_multiset()) == orig,
            sorted_by(pair_views_of(out@), pair_le_fn()),
            forall|k: int, l: int|
                0 <= k < out@.len() && 0 <= l < rest@.len() ==> words_le(out@[k].0@, rest@[l].0@),
        decreases rest.len(),
    {
        proof {
            lemma_word_le_total();
            broadcast use group_to_multiset_ensures;
        }
        let n = rest.len();
        let mut min_i: usize = 0;
        let mut i: usize = 1;
        while i < n
            invariant
                n == rest@.len(),
                min_i < i <= n,
                forall|l: int| 0 <= l < i ==> words_le(rest@[min_i as int].0@, rest@[l].0@),
            decreases n - i,
        {
            proof {
                lemma_word_le_total();
            }
            let c = words_cmp(&rest[i].0.0, &rest[min_i].0.0);
            if c == -1 {
                proof {
                    let leq = word_le_fn();
                    assert forall|l: int| 0 <= l < i + 1 implies words_le(
                        rest@[i as int].0@,
                        rest@[l].0@,
                    ) by {
                        if l < i {
                            assert(leq(rest@[i as int].0@, rest@[min_i as int].0@));
                            assert(leq(rest@[min_i as int].0@, rest@[l].0@));
                        }
                    }
                }
                min_i = i;
            } else {
                proof {
                    assert(words_le(rest@[min_i as int].0@, rest@[i as int].0@));
                }
            }
            i = i + 1;
        }
        let ghost old_rest = rest@;
        let ghost old_out = out@;
        let x = rest.remove(min_i);
        out.push(x);
        proof {
            let xv = (x.0@, x.1);
            assert(pair_views_of(rest@) =~= pair_views_of(old_rest).remove(min_i as int));
            assert(pair_views_of(out@) =~= pair_views_of(old_out).push(xv));
            assert(pair_views_of(old_rest)[min_i as int] == xv);
            assert(pair_views_of(out@).to_multiset() =~= pair_views_of(
                old_out,
            ).to_multiset().insert(xv));
            assert(pair_views_of(rest@).to_multiset() =~= pair_views_of(
                old_rest,
            ).to_multiset().remove(xv));
            assert(pair_views_of(old_rest).to_multiset().contains(xv));
            assert(pair_views_of(out@).to_multiset().add(pair_views_of(rest@).to_multiset())
                =~= orig);
            let leq = pair_le_fn();
            assert forall|k: int, l: int|
                0 <= k < l < pair_views_of(out@).len() implies #[trigger] leq(
                pair_views_of(out@)[k],
                pair_views_of(out@)[l],
            ) by {
                if l < old_out.len() {
                    assert(leq(pair_views_of(old_out)[k], pair_views_of(old_out)[l]));
                } else {
                    assert(words_le(old_out[k].0@, old_rest[min_i as int].0@));
                }
            }
            assert forall|k: int, l: int|
                0 <= k < out@.len() && 0 <= l < rest@.len() implies words_le(
                out@[k].0@,
                rest@[l].0@,
            ) by {
                let lo = if l < min_i { l } else { l + 1 };
                assert(rest@[l] == old_rest[lo]);
                if k < old_out.len() {
                    assert(words_le(old_out[k].0@, old_rest[lo].0@));
                } else {
                    assert(words_le(old_rest[min_i as int].0@, old_rest[lo].0@));
                }
            }
        }
    }
    proof {
        assert(pair_views_of(rest@).to_multiset() =~= Multiset::empty());
        assert(pair_views_of(out@).to_multiset() =~= orig);
    }
    out
}

/// Sorts a leaf listing by taxon name, ties broken by node index; the result
/// is a permutation of the input sorted by [`leaf_le`].
pub fn sort_leaves(v: Vec<(Vec<u8>, usize)>) -> (r: Vec<(Vec<u8>, usize)>)
    ensures
        sorted_by(leaf_views_of(r@), leaf_le_fn()),
        leaf_views_of(r@).to_multiset() == leaf_views_of(v@).to_multiset(),
{
    proof {
        lemma_leaf_le_total();
        broadcast use group_to_multiset_ensures;
    }
    let ghost orig = leaf_views_of(v@).to_multiset();
    let mut rest = v;
    let mut out: Vec<(Vec<u8>, usize)> = Vec::new();
    while rest.len() > 0
        invariant
            leaf_views_of(out@).to_multiset().add(leaf_views_of(rest@).to_multiset()) == orig,
            sorted_by(leaf_views_of(out@), leaf_le_fn()),
            forall|k: int, l: int|
                0 <= k < out@.len() && 0 <= l < rest@.len() ==> leaf_le(
                    (out@[k].0@, out@[k].1),
                    (rest@[l].0@, rest@[l].1),
                ),
        decreases rest.len(),
    {
        proof {
            lemma_leaf_le_total();
            broadcast use group_to_multiset_ensures;
        }
        let n = rest.len();
        let mut min_i: usize = 0;
        let mut i: usize = 1;
        while i < n
            invariant
                n == rest@.len(),
                min_i < i <= n,
                forall|l: int| 0 <= l < i ==> leaf_le(
                    (rest@[min_i as int].0@, rest@[min_i as int].1),
                    (rest@[l].0@, rest@[l].1),
                ),
            decreases n - i,
        {
            proof {
                lemma_leaf_le_total();
            }
            let c = bytes_cmp(&rest[i].0, &rest[min_i].0);
            let smaller = c == -1 || (c == 0 && rest[i].1 < rest[min_i].1);
            if smaller {
                proof {
                    let leq = leaf_le_fn();
                    let xi = (rest@[i as int].0@, rest@[i as int].1);
                    let xm = (rest@[min_i as int].0@, rest@[min_i as int].1);
                    assert(leq(xi, xm));
                    assert forall|l: int| 0 <= l < i + 1 implies leaf_le(
                        xi,
                        (rest@[l].0@, rest@[l].1),
                    ) by {
                        if l < i {
                            assert(leq(xm, (rest@[l].0@, rest@[l].1)));
                        }
                    }
                }
                min_i = i;
            } else {
                proof {
                    let xi = (rest@[i as int].0@, rest@[i as int].1);
                    let xm = (rest@[min_i as int].0@, rest@[min_i as int].1);
                    assert(leaf_le(xm, xi));
                }
            }
            i = i + 1;
        }
        let ghost old_rest = rest@;
        let ghost old_out = out@;
        let x = rest.remove(min_i);
        out.push(x);
        proof {
            let xv = (x.0@, x.1);
            assert(leaf_views_of(rest@) =~= leaf_views_of(old_rest).remove(min_i as int));
            assert(leaf_views_of(out@) =~= leaf_views_of(old_out).push(xv));
            assert(leaf_views_of(old_rest)[min_i as int] == xv);
            assert(leaf_views_of(out@).to_multiset() =~= leaf_views_of(
                old_out,
            ).to_multiset().insert(xv));
            assert(leaf_views_of(rest@).to_multiset() =~= leaf_views_of(
                old_rest,
            ).to_multiset().remove(xv));
            assert(leaf_views_of(old_rest).to_multiset().contains(xv));
            assert(leaf_views_of(out@).to_multiset().add(leaf_views_of(rest@).to_multiset())
                =~= orig);
            let leq = leaf_le_fn();
            assert forall|k: int, l: int|
                0 <= k < l < leaf_views_of(out@).len() implies #[trigger] leq(
                leaf_views_of(out@)[k],
                leaf_views_of(out@)[l],
            ) by {
                if l < old_out.len() {
                    assert(leq(leaf_views_of(old_out)[k], leaf_views_of(old_out)[l]));
                } else {
                    assert(leaf_le((old_out[k].0@, old_out[k].1), xv));
                }
            }
            assert forall|k: int, l: int|
                0 <= k < out@.len() && 0 <= l < rest@.len() implies leaf_le(
                (out@[k].0@, out@[k].1),
                (rest@[l].0@, rest@[l].1),
            ) by {
                let lo = if l < min_i { l } else { l + 1 };
                assert(rest@[l] == old_rest[lo]);
                if k < old_out.len() {
                    assert(leaf_le((old_out[k].0@, old_out[k].1), (old_rest[lo].0@, old_rest[lo].1)));
                } else {
                    assert(leaf_le(xv, (old_rest[lo].0@, old_rest[lo].1)));
                }
            }
        }
    }
    proof {
        assert(leaf_views_of(rest@).to_multiset() =~= Multiset::empty());
        assert(leaf_views_of(out@).to_multiset() =~= orig);
    }
    out
}

} // verus!
