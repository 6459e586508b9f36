//! Word-packed membership sets over leaf indices.
//!
//! Bit `i` stands for leaf index `i` and lives at bit `i % 64` of word
//! `i / 64`. Every vector taking part in one comparison batch has the same
//! word count, so equality of the word sequences is equality of the encoded
//! leaf sets.

use vstd::prelude::*;

verus! {

/// True when bit `b` of word `w` is set. Meaningful for `0 <= b < 64`.
pub open spec fn word_bit(w: u64, b: int) -> bool {
    0 <= b < 64 && (w >> (b as u64)) & 1u64 == 1u64
}

/// True when bit `i` of the packed word sequence `s` is set.
pub open spec fn bit_at(s: Seq<u64>, i: int) -> bool {
    0 <= i < s.len() * 64 && word_bit(s[i / 64], i % 64)
}

/// Number of set bits among positions `0 .. n` of `s`.
pub open spec fn ones_below(s: Seq<u64>, n: int) -> nat
    decreases n,
{
    if n <= 0 {
        0
    } else {
        ones_below(s, n - 1) + (if bit_at(s, n - 1) {
            1nat
        } else {
            0nat
        })
    }
}

/// Total number of set bits of `s`.
pub open spec fn ones(s: Seq<u64>) -> nat {
    ones_below(s, s.len() * 64 as int)
}

proof fn lemma_or_one_bit(w: u64, b: u64, k: u64)
    by (bit_vector)
    requires
        b < 64,
        k < 64,
    ensures
        (((w | (1u64 << b)) >> k) & 1u64 == 1u64) == (k == b || (w >> k) & 1u64 == 1u64),
{
}

proof fn lemma_or_words(x: u64, y: u64, k: u64)
    by (bit_vector)
    requires
        k < 64,
    ensures
        (((x | y) >> k) & 1u64 == 1u64) == ((x >> k) & 1u64 == 1u64 || (y >> k) & 1u64 == 1u64),
{
}

proof fn lemma_zero_word(k: u64)
    by (bit_vector)
    requires
        k < 64,
    ensures
        (0u64 >> k) & 1u64 == 0u64,
{
}

proof fn lemma_usize_word_split(idx: usize)
    by (bit_vector)
    ensures
        idx >> 6 == idx / 64,
        idx & 63 == idx % 64,
{
}

/// A packed bit vector: one `u64` word per 64 leaf indices.
#[derive(Clone, Debug, Eq, PartialEq, Hash)]
pub struct Bitset(pub Vec<u64>);

impl View for Bitset {
    type V = Seq<u64>;

    open spec fn view(&self) -> Seq<u64> {
        self.0@
    }
}

impl Bitset {
    /// Creates a bitset of `words` words with every bit clear.
    pub fn zeros(words: usize) -> (r: Bitset)
        ensures
            r@.len() == words,
            forall|i: int| 0 <= i < words ==> r@[i] == 0u64,
            forall|j: int| !bit_at(r@, j),
    {
        let mut v: Vec<u64> = Vec::new();
        let mut i: usize = 0;
        while i < words
            invariant
                i <= words,
                v@.len() == i,
                forall|k: int| 0 <= k < i ==> v@[k] == 0u64,
            decreases words - i,
        {
            v.push(0u64);
            i = i + 1;
        }
        proof {
            assert forall|j: int| !bit_at(v@, j) by {
                if 0 <= j < v@.len() * 64 {
                    assert(v@[j / 64] == 0u64);
                    lemma_zero_word((j % 64) as u64);
                }
            }
        }
        Bitset(v)
    }

    /// Sets the bit at `idx`; all other bits keep their value.
    pub fn set(&mut self, idx: usize)
        requires
            idx < old(self)@.len() * 64,
        ensures
            final(self)@.len() == old(self)@.len(),
            forall|j: int| bit_at(final(self)@, j) == (j == idx || bit_at(old(self)@, j)),
    {
        proof {
            lemma_usize_word_split(idx);
        }
        let word: usize = idx >> 6;
        let bit: usize = idx & 63;
        let w: u64 = self.0[word] | (1u64 << (bit as u64));
        self.0.set(word, w);
        proof {
            let s0 = old(self)@;
            let s1 = self@;
            assert forall|j: int| bit_at(s1, j) == (j == idx || bit_at(s0, j)) by {
                if 0 <= j < s1.len() * 64 {
                    if j / 64 == word {
                        let k = (j % 64) as u64;
                        lemma_or_one_bit(s0[word as int], bit as u64, k);
                        assert(s1[j / 64] == s0[word as int] | (1u64 << (bit as u64)));
                        assert(word_bit(s1[j / 64], j % 64) == (k == bit as u64 || word_bit(
                            s0[j / 64],
                            j % 64,
                        )));
                        assert(j == 64 * (j / 64) + j % 64);
                        assert(idx == 64 * (idx as int / 64) + idx as int % 64);
                        assert((j == idx) == (j / 64 == word && j % 64 == bit));
                    } else {
                        assert(s1[j / 64] == s0[j / 64]);
                        assert(j != idx);
                    }
                } else {
                    assert(j != idx);
                }
            }
        }
    }

    /// Word-wise union: every bit set in `other` becomes set in `self`.
    pub fn or_assign(&mut self, other: &Bitset)
        requires
            old(self)@.len() == other@.len(),
        ensures
            final(self)@.len() == old(self)@.len(),
            forall|i: int|
                0 <= i < final(self)@.len() ==> final(self)@[i] == (old(self)@[i] | other@[i]),
            forall|j: int| bit_at(final(self)@, j) == (bit_at(old(self)@, j) || bit_at(other@, j)),
    {
        let n = self.0.len();
        let mut i: usize = 0;
        while i < n
            invariant
                i <= n,
                n == self@.len(),
                self@.len() == old(self)@.len(),
                other@.len() == old(self)@.len(),
                forall|k: int| 0 <= k < i ==> self@[k] == (old(self)@[k] | other@[k]),
                forall|k: int| i <= k < n ==> self@[k] == old(self)@[k],
            decreases n - i,
        {
            let w: u64 = self.0[i] | other.0[i];
            self.0.set(i, w);
            i = i + 1;
        }
        proof {
            let s0 = old(self)@;
            let s1 = self@;
            assert forall|j: int| bit_at(s1, j) == (bit_at(s0, j) || bit_at(other@, j)) by {
                if 0 <= j < s1.len() * 64 {
                    lemma_or_words(s0[j / 64], other@[j / 64], (j % 64) as u64);
                }
            }
        }
    }

    /// Counts the set bits: the number of leaves in the encoded set.
    pub fn count_ones(&self) -> (r: usize)
        requires
            self@.len() * 64 <= usize::MAX,
        ensures
            r == ones(self@),
    {
        let n = self.0.len();
        let mut count: usize = 0;
        let mut i: usize = 0;
        while i < n
            invariant
                i <= n,
                n == self@.len(),
                self@.len() * 64 <= usize::MAX,
                count == ones_below(self@, i * 64),
            decreases n - i,
        {
            let w: u64 = self.0[i];
            let mut b: usize = 0;
            while b < 64
                invariant
                    b <= 64,
                    i < n,
                    n == self@.len(),
                    self@.len() * 64 <= usize::MAX,
                    w == self@[i as int],
                    count == ones_below(self@, i * 64 + b),
                decreases 64 - b,
            {
                proof {
                    lemma_ones_below_le(self@, i * 64 + b + 1);
                    assert(i * 64 + b < n * 64) by (nonlinear_arith)
                        requires
                            i < n,
                            b < 64,
                    ;
                }
                proof {
                    let j: int = i * 64 + b;
                    assert(j / 64 == i && j % 64 == b) by (nonlinear_arith)
                        requires
                            j == i * 64 + b,
                            0 <= b < 64,
                            0 <= i,
                    ;
                }
                if (w >> (b as u64)) & 1u64 == 1u64 {
                    assert(bit_at(self@, i * 64 + b));
                    count = count + 1;
                } else {
                    assert(!bit_at(self@, i * 64 + b));
                }
                b = b + 1;
            }
            i = i + 1;
        }
        count
    }
}

/// The set of positions whose bit is set in `s`.
pub open spec fn bits_set(s: Seq<u64>) -> Set<int> {
    Set::new(|i: int| bit_at(s, i))
}

/// The canonical encoding of the split `s` over `num_leaves` leaves: the side
/// that does not hold leaf 0. When leaf 0 lies in `s`, that is the complement
/// of `s` within `0 .. num_leaves`; otherwise `s` itself.
pub open spec fn canon_set(s: Set<int>, num_leaves: int) -> Set<int> {
    if s.contains(0) {
        vstd::set_lib::set_int_range(0, num_leaves).difference(s)
    } else {
        s
    }
}

/// Canonicalization is idempotent: a canonical side stays itself.
pub proof fn lemma_canonical_idempotent(s: Set<int>, num_leaves: int)
    requires
        s.subset_of(vstd::set_lib::set_int_range(0, num_leaves)),
    ensures
        canon_set(canon_set(s, num_leaves), num_leaves) == canon_set(s, num_leaves),
{
    if s.contains(0) {
        assert(!canon_set(s, num_leaves).contains(0));
    }
}

impl Bitset {
    /// An exact copy, word for word.
    pub fn duplicate(&self) -> (r: Bitset)
        ensures
            r@ == self@,
    {
        let n = self.0.len();
        let mut v: Vec<u64> = Vec::new();
        let mut i: usize = 0;
        while i < n
            invariant
                i <= n,
                n == self@.len(),
                v@ == self@.subrange(0, i as int),
            decreases n - i,
        {
            v.push(self.0[i]);
            assert(v@ =~= self@.subrange(0, i + 1 as int));
            i = i + 1;
        }
        assert(v@ =~= self@);
        Bitset(v)
    }

    /// True when bit 0 is set, i.e. when the encoded side holds leaf 0.
    pub fn holds_leaf_zero(&self) -> (r: bool)
        requires
            self@.len() >= 1,
        ensures
            r == bit_at(self@, 0),
    {
        let w = self.0[0];
        proof {
            assert((w >> 0u64) & 1u64 == w & 1u64) by (bit_vector);
        }
        w & 1u64 == 1u64
    }

    /// The complement within `0 .. num_leaves`: bit `i` is set exactly when
    /// `i < num_leaves` and bit `i` is clear in `self`.
    pub fn complement(&self, num_leaves: usize) -> (r: Bitset)
        requires
            num_leaves <= self@.len() * 64,
        ensures
            r@.len() == self@.len(),
            forall|j: int| bit_at(r@, j) == (0 <= j < num_leaves && !bit_at(self@, j)),
    {
        let words = self.0.len();
        let mut r = Bitset::zeros(words);
        let mut i: usize = 0;
        while i < num_leaves
            invariant
                i <= num_leaves,
                num_leaves <= self@.len() * 64,
                words == self@.len(),
                r@.len() == words,
                forall|j: int| bit_at(r@, j) == (0 <= j < i && !bit_at(self@, j)),
            decreases num_leaves - i,
        {
            proof {
                lemma_usize_word_split(i);
            }
            let word: usize = i >> 6;
            let bit: usize = i & 63;
            if (self.0[word] >> (bit as u64)) & 1u64 != 1u64 {
                assert(!word_bit(self@[i as int / 64], i as int % 64));
                assert(!bit_at(self@, i as int));
                r.set(i);
            } else {
                assert(bit_at(self@, i as int));
            }
            i = i + 1;
        }
        r
    }

    /// The canonical encoding of this split: flipped to its complement when
    /// leaf 0 is set, kept word for word otherwise.
    pub fn canonical(&self, num_leaves: usize) -> (r: Bitset)
        requires
            num_leaves <= self@.len() * 64,
            forall|j: int| bit_at(self@, j) ==> j < num_leaves,
        ensures
            r@.len() == self@.len(),
            bits_set(r@) == canon_set(bits_set(self@), num_leaves as int),
            !bit_at(self@, 0) ==> r@ == self@,
            !bit_at(r@, 0),
    {
        if self.0.len() > 0 && self.holds_leaf_zero() {
            let r = self.complement(num_leaves);
            proof {
                assert(num_leaves > 0);
                assert(bits_set(r@) =~= canon_set(bits_set(self@), num_leaves as int));
            }
            r
        } else {
            let r = self.duplicate();
            proof {
                if self@.len() == 0 {
                    assert(!bit_at(self@, 0));
                }
                assert(bits_set(r@) =~= canon_set(bits_set(self@), num_leaves as int));
            }
            r
        }
    }
}

/// The low `b` bits of a word, as a mask.
pub open spec fn low_mask(b: u64) -> u64 {
    if b >= 64 {
        0xFFFF_FFFF_FFFF_FFFFu64
    } else {
        ((1u64 << b) - 1) as u64
    }
}

proof fn lemma_mask_step(z: u64, b: u64)
    by (bit_vector)
    requires
        1 <= b <= 64,
        (z >> (b - 1) as u64) & 1u64 != 1u64,
        z & low_mask((b - 1) as u64) == 0u64,
    ensures
        z & low_mask(b) == 0u64,
{
}

/// A word with no set bit among `0 .. b` vanishes under the mask of its low
/// `b` bits.
proof fn lemma_word_no_bits(z: u64, b: u64)
    requires
        b <= 64,
        forall|k: int| 0 <= k < b ==> !word_bit(z, k),
    ensures
        z & low_mask(b) == 0u64,
    decreases b,
{
    if b == 0 {
        assert(z & low_mask(0u64) == 0u64) by (bit_vector);
    } else {
        lemma_word_no_bits(z, (b - 1) as u64);
        assert(!word_bit(z, b - 1));
        assert((z >> ((b - 1) as int as u64)) & 1u64 != 1u64);
        assert((b - 1) as int as u64 == (b - 1) as u64);
        lemma_mask_step(z, b);
    }
}

/// Two words with the same bits are equal.
pub proof fn lemma_word_bit_ext(x: u64, y: u64)
    requires
        forall|k: int| 0 <= k < 64 ==> word_bit(x, k) == word_bit(y, k),
    ensures
        x == y,
{
    let z = x ^ y;
    assert forall|k: int| 0 <= k < 64 implies !word_bit(z, k) by {
        let ku = k as u64;
        assert((((x ^ y) >> ku) & 1u64 == 1u64) == (((x >> ku) & 1u64 == 1u64) != ((y >> ku) & 1u64
            == 1u64))) by (bit_vector)
            requires
                ku < 64,
        ;
        assert(word_bit(x, k) == word_bit(y, k));
        assert(word_bit(x, k) == ((x >> ku) & 1u64 == 1u64));
        assert(word_bit(y, k) == ((y >> ku) & 1u64 == 1u64));
        assert(word_bit(z, k) == ((z >> ku) & 1u64 == 1u64));
    }
    lemma_word_no_bits(z, 64);
    assert(z & low_mask(64u64) == z) by (bit_vector);
    assert(x ^ y == 0u64 ==> x == y) by (bit_vector);
}

/// Two word sequences of equal length with the same bits are equal.
pub proof fn lemma_words_bit_ext(a: Seq<u64>, b: Seq<u64>)
    requires
        a.len() == b.len(),
        forall|j: int| bit_at(a, j) == bit_at(b, j),
    ensures
        a == b,
{
    assert forall|w: int| 0 <= w < a.len() implies a[w] == b[w] by {
        assert forall|k: int| 0 <= k < 64 implies word_bit(a[w], k) == word_bit(b[w], k) by {
            let j = w * 64 + k;
            assert(j / 64 == w && j % 64 == k) by (nonlinear_arith)
                requires
                    j == w * 64 + k,
                    0 <= k < 64,
                    0 <= w,
            ;
            assert(0 <= j < a.len() * 64) by (nonlinear_arith)
                requires
                    j == w * 64 + k,
                    0 <= k < 64,
                    0 <= w < a.len(),
            ;
            assert(bit_at(a, j) == bit_at(b, j));
        }
        lemma_word_bit_ext(a[w], b[w]);
    }
    assert(a =~= b);
}

/// The word holding bits `wi * 64 .. wi * 64 + b` of the index set `s`.
pub open spec fn word_from(s: Set<int>, wi: int, b: int) -> u64
    decreases b,
{
    if b <= 0 {
        0u64
    } else {
        word_from(s, wi, b - 1) | (if s.contains(wi * 64 + (b - 1)) {
            (1u64 << ((b - 1) as u64))
        } else {
            0u64
        })
    }
}

/// The packed encoding of the index set `s` into `words` words.
pub open spec fn encode(s: Set<int>, words: int) -> Seq<u64> {
    Seq::new(words as nat, |wi: int| word_from(s, wi, 64))
}

proof fn lemma_word_from_bits(s: Set<int>, wi: int, b: int)
    requires
        0 <= b <= 64,
    ensures
        forall|k: int|
            0 <= k < 64 ==> word_bit(word_from(s, wi, b), k) == (k < b && s.contains(wi * 64 + k)),
    decreases b,
{
    if b == 0 {
        assert forall|k: int| 0 <= k < 64 implies !word_bit(0u64, k) by {
            lemma_zero_word(k as u64);
        }
    } else {
        lemma_word_from_bits(s, wi, b - 1);
        let x = word_from(s, wi, b - 1);
        if s.contains(wi * 64 + (b - 1)) {
            assert forall|k: int|
                0 <= k < 64 implies word_bit(word_from(s, wi, b), k) == (k < b && s.contains(
                wi * 64 + k,
            )) by {
                lemma_or_one_bit(x, (b - 1) as u64, k as u64);
                assert(word_from(s, wi, b) == x | (1u64 << ((b - 1) as u64)));
                assert(word_bit(x, k) == (k < b - 1 && s.contains(wi * 64 + k)));
                assert(word_bit(word_from(s, wi, b), k) == ((word_from(s, wi, b) >> (k as u64))
                    & 1u64 == 1u64));
                assert((k as u64 == (b - 1) as u64) == (k == b - 1));
            }
        } else {
            assert(word_from(s, wi, b) == x | 0u64);
            assert(x | 0u64 == x) by (bit_vector);
        }
    }
}

/// Bit `j` of the encoding is set exactly when `j` lies in the encoded set.
pub proof fn lemma_encode_bits(s: Set<int>, words: int)
    requires
        words >= 0,
    ensures
        encode(s, words).len() == words,
        forall|j: int| bit_at(encode(s, words), j) == (0 <= j < words * 64 && s.contains(j)),
{
    let e = encode(s, words);
    assert forall|j: int| bit_at(e, j) == (0 <= j < words * 64 && s.contains(j)) by {
        if 0 <= j < words * 64 {
            lemma_word_from_bits(s, j / 64, 64);
            assert(j == 64 * (j / 64) + j % 64);
            assert((j / 64) * 64 + j % 64 == j);
        }
    }
}

/// A word sequence is the encoding of its own bit set, given the length fits.
pub proof fn lemma_encode_exact(a: Seq<u64>, s: Set<int>, words: int)
    requires
        a.len() == words,
        forall|j: int| bit_at(a, j) == s.contains(j),
        forall|j: int| s.contains(j) ==> 0 <= j < words * 64,
    ensures
        a == encode(s, words),
{
    lemma_encode_bits(s, words);
    assert forall|j: int| bit_at(a, j) == bit_at(encode(s, words), j) by {
        if s.contains(j) {
            assert(0 <= j < words * 64);
        }
    }
    lemma_words_bit_ext(a, encode(s, words));
}

/// The set bits among positions `0 .. m`.
pub open spec fn bits_below(s: Seq<u64>, m: int) -> Set<int> {
    Set::new(|i: int| bit_at(s, i) && i < m)
}

proof fn lemma_ones_below_card(s: Seq<u64>, m: int)
    requires
        0 <= m,
    ensures
        bits_below(s, m).finite(),
        bits_below(s, m).len() == ones_below(s, m),
    decreases m,
{
    if m == 0 {
        assert(bits_below(s, 0) =~= Set::empty());
    } else {
        lemma_ones_below_card(s, m - 1);
        if bit_at(s, m - 1) {
            assert(bits_below(s, m) =~= bits_below(s, m - 1).insert(m - 1));
            assert(!bits_below(s, m - 1).contains(m - 1));
        } else {
            assert(bits_below(s, m) =~= bits_below(s, m - 1));
        }
    }
}

/// The popcount of a word sequence is the size of its bit set.
pub proof fn lemma_ones_card(s: Seq<u64>)
    ensures
        bits_set(s).finite(),
        bits_set(s).len() == ones(s),
{
    lemma_ones_below_card(s, s.len() * 64 as int);
    assert(bits_set(s) =~= bits_below(s, s.len() * 64 as int));
}

/// The count of set bits below `n` never exceeds `n`.
proof fn lemma_ones_below_le(s: Seq<u64>, n: int)
    ensures
        ones_below(s, n) <= (if n <= 0 {
            0int
        } else {
            n
        }),
    decreases n,
{
    if n > 0 {
        lemma_ones_below_le(s, n - 1);
    }
}

} // verus!
