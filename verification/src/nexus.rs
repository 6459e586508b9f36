//! Byte-level scanning of tree-file text.
//!
//! The reader that owns the file I/O hands whole file contents and single
//! tree strings in here as bytes. These functions strip inline annotations
//! from tree strings, pull the generation number out of a tree header, cut
//! the tree statements out of a file, and read the taxon translation table.
//! All of them work on ASCII structure only and leave every other byte as it
//! stands, so text in any encoding passes through unchanged.

use vstd::prelude::*;

verus! {

/// ASCII whitespace, as the trimming below understands it.
pub open spec fn is_ws(b: u8) -> bool {
    b == 32 || b == 9 || b == 10 || b == 13 || b == 11 || b == 12
}

/// ASCII uppercasing of one byte.
pub open spec fn upper(b: u8) -> u8 {
    if 97 <= b <= 122 {
        (b - 32) as u8
    } else {
        b
    }
}

/// What remains of an annotated tree string after the bracketed annotations
/// opened by `[&` are removed; `in_ann` tells whether the scan stands inside
/// such an annotation.
pub open spec fn strip_ann(s: Seq<u8>, in_ann: bool) -> Seq<u8>
    decreases s.len(),
{
    if s.len() == 0 {
        Seq::empty()
    } else if s[0] == 91 && s.len() > 1 && s[1] == 38 {
        strip_ann(s.drop_first(), true)
    } else if s[0] == 93 && in_ann {
        strip_ann(s.drop_first(), false)
    } else if !in_ann {
        seq![s[0]] + strip_ann(s.drop_first(), false)
    } else {
        strip_ann(s.drop_first(), true)
    }
}

/// Removes bracketed `[&...]` annotations from a tree string, keeping
/// everything that stands outside them, branch lengths included.
pub fn strip_beast_annotations(newick: &Vec<u8>) -> (r: Vec<u8>)
    ensures
        r@ == strip_ann(newick@, false),
{
    let n = newick.len();
    let mut out: Vec<u8> = Vec::new();
    let mut in_ann = false;
    let mut i: usize = 0;
    proof {
        assert(newick@.skip(0) =~= newick@);
        assert(Seq::<u8>::empty() + strip_ann(newick@, false) =~= strip_ann(newick@, false));
    }
    while i < n
        invariant
            i <= n,
            n == newick@.len(),
            strip_ann(newick@, false) == out@ + strip_ann(newick@.skip(i as int), in_ann),
        decreases n - i,
    {
        let ghost suf = newick@.skip(i as int);
        let ghost pre = out@;
        proof {
            assert(suf[0] == newick@[i as int]);
            assert(suf.drop_first() =~= newick@.skip(i + 1));
            if i + 1 < n {
                assert(suf[1] == newick@[i + 1]);
            }
        }
        let b = newick[i];
        if b == 91 && i + 1 < n && newick[i + 1] == 38 {
            in_ann = true;
        } else if b == 93 && in_ann {
            in_ann = false;
        } else if !in_ann {
            out.push(b);
            proof {
                assert(strip_ann(suf, false) == seq![suf[0]] + strip_ann(suf.drop_first(), false));
                assert(pre + strip_ann(suf, false) =~= out@ + strip_ann(newick@.skip(i + 1), false));
            }
        }
        i = i + 1;
    }
    proof {
        assert(newick@.skip(n as int).len() == 0);
        assert(out@ + strip_ann(newick@.skip(n as int), in_ann) =~= out@);
    }
    out
}

/// The tag `STATE_` matches at position `i` of `s`, ignoring letter case.
pub open spec fn state_tag_at(s: Seq<u8>, i: int) -> bool {
    &&& 0 <= i
    &&& i + 6 <= s.len()
    &&& upper(s[i]) == 83
    &&& upper(s[i + 1]) == 84
    &&& upper(s[i + 2]) == 65
    &&& upper(s[i + 3]) == 84
    &&& upper(s[i + 4]) == 69
    &&& s[i + 5] == 95
}

/// An ASCII decimal digit.
pub open spec fn is_digit(b: u8) -> bool {
    48 <= b <= 57
}

/// The value of a decimal digit string.
pub open spec fn dec_val(s: Seq<u8>) -> int
    decreases s.len(),
{
    if s.len() == 0 {
        0
    } else {
        dec_val(s.drop_last()) * 10 + (s.last() - 48)
    }
}

/// The first position at or after `i` where the state tag matches; -1 when
/// it matches nowhere.
pub open spec fn first_state_tag(s: Seq<u8>, i: int) -> int
    decreases s.len() - i,
{
    if i + 6 > s.len() || i < 0 {
        -1
    } else if state_tag_at(s, i) {
        i
    } else {
        first_state_tag(s, i + 1)
    }
}

/// The end of the digit run starting at `i`.
pub open spec fn digit_run_end(s: Seq<u8>, i: int) -> int
    decreases s.len() - i,
{
    if i < 0 || i >= s.len() || !is_digit(s[i]) {
        i
    } else {
        digit_run_end(s, i + 1)
    }
}

/// The generation number a tree header carries: the decimal run right after
/// the first case-insensitive `STATE_` tag. Headers without the tag, with no
/// digit after it, or with a number too large for the machine read as 0.
pub open spec fn spec_extract_state(s: Seq<u8>) -> int {
    let i = first_state_tag(s, 0);
    if i == -1 {
        0
    } else {
        let d0 = i + 6;
        let d1 = digit_run_end(s, d0);
        if d1 == d0 {
            0
        } else {
            let v = dec_val(s.subrange(d0, d1));
            if v <= usize::MAX {
                v
            } else {
                0
            }
        }
    }
}

/// ASCII uppercasing of one byte, executable.
fn upper_byte(b: u8) -> (r: u8)
    ensures
        r == upper(b),
{
    if 97 <= b && b <= 122 {
        b - 32
    } else {
        b
    }
}

/// Reads the generation number out of a tree header: the decimal run after
/// the first case-insensitive `STATE_` tag, or 0 when there is none, the run
/// is empty, or the number overflows the machine word.
pub fn extract_state(header: &Vec<u8>) -> (r: usize)
    ensures
        r == spec_extract_state(header@),
{
    let n = header.len();
    if n < 6 {
        proof {
            assert(first_state_tag(header@, 0) == -1);
            assert(spec_extract_state(header@) == 0);
        }
        return 0;
    }
    let mut i: usize = 0;
    let mut tag: usize = n;
    let mut found = false;
    while !found && i <= n - 6
        invariant
            0 <= i,
            n >= 6,
            n == header@.len(),
            !found ==> first_state_tag(header@, 0) == first_state_tag(header@, i as int),
            !found ==> i <= n - 5,
            found ==> tag == first_state_tag(header@, 0) && state_tag_at(header@, tag as int)
                && tag as int + 6 <= n,
        decreases n - i, (if found { 0int } else { 1int }),
    {
        let m = upper_byte(header[i]) == 83 && upper_byte(header[i + 1]) == 84 && upper_byte(
            header[i + 2],
        ) == 65 && upper_byte(header[i + 3]) == 84 && upper_byte(header[i + 4]) == 69 && header[i
            + 5] == 95;
        if m {
            proof {
                assert(state_tag_at(header@, i as int));
            }
            tag = i;
            found = true;
        } else {
            proof {
                assert(!state_tag_at(header@, i as int));
            }
            i = i + 1;
        }
    }
    if !found {
        proof {
            assert(first_state_tag(header@, i as int) == -1);
            assert(spec_extract_state(header@) == 0);
        }
        return 0;
    }
    let d0 = tag + 6;
    let ghost dend = digit_run_end(header@, d0 as int);
    let mut j = d0;
    let mut val: usize = 0;
    let mut overflow = false;
    proof {
        assert(header@.subrange(d0 as int, d0 as int) =~= Seq::<u8>::empty());
    }
    while j < n && header[j] >= 48 && header[j] <= 57
        invariant
            d0 <= j <= n,
            n == header@.len(),
            tag as int + 6 == d0,
            state_tag_at(header@, tag as int),
            tag == first_state_tag(header@, 0),
            forall|k: int| d0 <= k < j ==> is_digit(#[trigger] header@[k]),
            digit_run_end(header@, d0 as int) == digit_run_end(header@, j as int),
            !overflow ==> val == dec_val(header@.subrange(d0 as int, j as int)),
            overflow ==> dec_val(header@.subrange(d0 as int, j as int)) > usize::MAX,
        decreases n - j,
    {
        let d = header[j];
        let ghost run = header@.subrange(d0 as int, j + 1);
        proof {
            assert(run.drop_last() =~= header@.subrange(d0 as int, j as int));
            assert(run.last() == header@[j as int]);
        }
        if !overflow {
            if val > (usize::MAX - (d - 48) as usize) / 10 {
                proof {
                    let prev = header@.subrange(d0 as int, j as int);
                    assert(dec_val(run) == dec_val(prev) * 10 + (d - 48));
                    assert(dec_val(run) > usize::MAX) by (nonlinear_arith)
                        requires
                            dec_val(run) == dec_val(prev) * 10 + (d - 48),
                            dec_val(prev) == val,
                            val > (usize::MAX - (d - 48) as usize) / 10,
                            0 <= (d - 48) <= 9,
                            val >= 0,
                    ;
                }
                overflow = true;
            } else {
                proof {
                    let prev = header@.subrange(d0 as int, j as int);
                    assert(dec_val(run) == dec_val(prev) * 10 + (d - 48));
                    assert(val * 10 + (d - 48) <= usize::MAX) by (nonlinear_arith)
                        requires
                            val <= (usize::MAX - (d - 48) as usize) / 10,
                            0 <= (d - 48) <= 9,
                            val >= 0,
                    ;
                }
                val = val * 10 + (d - 48) as usize;
            }
        } else {
            proof {
                let prev = header@.subrange(d0 as int, j as int);
                assert(dec_val(run) == dec_val(prev) * 10 + (d - 48));
                assert(dec_val(run) > usize::MAX) by (nonlinear_arith)
                    requires
                        dec_val(run) == dec_val(prev) * 10 + (d - 48),
                        dec_val(prev) > usize::MAX,
                        0 <= (d - 48),
                ;
            }
        }
        j = j + 1;
    }
    proof {
        assert(digit_run_end(header@, j as int) == j);
        assert(dend == j);
    }
    if j == d0 {
        proof {
            assert(spec_extract_state(header@) == 0);
        }
        return 0;
    }
    if overflow {
        proof {
            assert(spec_extract_state(header@) == 0);
        }
        return 0;
    }
    proof {
        assert(spec_extract_state(header@) == dec_val(
            header@.subrange(d0 as int, dend),
        ));
    }
    val
}

} // verus!

verus! {

/// The first newline at or after `i`, or the length when none follows.
pub open spec fn line_end(s: Seq<u8>, i: int) -> int
    decreases s.len() - i,
{
    if i < 0 || i >= s.len() {
        s.len() as int
    } else if s[i] == 10 {
        i
    } else {
        line_end(s, i + 1)
    }
}

/// A line without its trailing carriage return, if it carries one.
pub open spec fn strip_cr(l: Seq<u8>) -> Seq<u8> {
    if l.len() > 0 && l.last() == 13 {
        l.drop_last()
    } else {
        l
    }
}

/// A newline search never moves backwards and never leaves the text.
pub proof fn lemma_line_end_bounds(s: Seq<u8>, i: int)
    requires
        0 <= i <= s.len(),
    ensures
        i <= line_end(s, i) <= s.len(),
    decreases s.len() - i,
{
    if i < s.len() && s[i] != 10 {
        lemma_line_end_bounds(s, i + 1);
    }
}

/// The lines of `s` from position `i` on: split at newlines, each line
/// stripped of a trailing carriage return, no trailing empty line.
pub open spec fn spec_lines(s: Seq<u8>, i: int) -> Seq<Seq<u8>>
    decreases s.len() + 1 - i,
    via spec_lines_decreases
{
    if i < 0 || i >= s.len() {
        Seq::empty()
    } else {
        let e = line_end(s, i);
        seq![strip_cr(s.subrange(i, e))] + spec_lines(s, e + 1)
    }
}

#[via_fn]
proof fn spec_lines_decreases(s: Seq<u8>, i: int) {
    if 0 <= i < s.len() {
        lemma_line_end_bounds(s, i);
    }
}

/// The first position at or after `i` holding a byte outside the run that
/// `in_run` accepts, following `ws`: used for whitespace and token runs.
pub open spec fn ws_skip(s: Seq<u8>, i: int) -> int
    decreases s.len() - i,
{
    if i < 0 || i >= s.len() || !is_ws(s[i]) {
        i
    } else {
        ws_skip(s, i + 1)
    }
}

/// The end of the non-whitespace token starting at `i`.
pub open spec fn tok_end(s: Seq<u8>, i: int) -> int
    decreases s.len() - i,
{
    if i < 0 || i >= s.len() || is_ws(s[i]) {
        i
    } else {
        tok_end(s, i + 1)
    }
}

/// A byte string without its leading and trailing ASCII whitespace.
pub open spec fn trim_bytes(s: Seq<u8>) -> Seq<u8>
    decreases s.len(),
{
    if s.len() > 0 && is_ws(s[0]) {
        trim_bytes(s.drop_first())
    } else if s.len() > 0 && is_ws(s.last()) {
        trim_bytes(s.drop_last())
    } else {
        s
    }
}

/// A byte string without its trailing commas.
pub open spec fn strip_commas(s: Seq<u8>) -> Seq<u8>
    decreases s.len(),
{
    if s.len() > 0 && s.last() == 44 {
        strip_commas(s.drop_last())
    } else {
        s
    }
}

/// A byte string without its leading and trailing single quotes.
pub open spec fn strip_quotes(s: Seq<u8>) -> Seq<u8>
    decreases s.len(),
{
    if s.len() > 0 && s[0] == 39 {
        strip_quotes(s.drop_first())
    } else if s.len() > 0 && s.last() == 39 {
        strip_quotes(s.drop_last())
    } else {
        s
    }
}

/// The line opens a tree statement: it starts with `TREE ` in any case.
pub open spec fn starts_tree(l: Seq<u8>) -> bool {
    &&& l.len() >= 5
    &&& upper(l[0]) == 84
    &&& upper(l[1]) == 82
    &&& upper(l[2]) == 69
    &&& upper(l[3]) == 69
    &&& l[4] == 32
}

/// The line closes the block: trimmed, it starts with `END;` in any case.
pub open spec fn ends_block(l: Seq<u8>) -> bool {
    let t = trim_bytes(l);
    &&& t.len() >= 4
    &&& upper(t[0]) == 69
    &&& upper(t[1]) == 78
    &&& upper(t[2]) == 68
    &&& t[3] == 59
}

/// The line opens the taxon table: trimmed, it starts with `TRANSLATE` in
/// any case.
pub open spec fn starts_translate(l: Seq<u8>) -> bool {
    let t = trim_bytes(l);
    &&& t.len() >= 9
    &&& upper(t[0]) == 84
    &&& upper(t[1]) == 82
    &&& upper(t[2]) == 65
    &&& upper(t[3]) == 78
    &&& upper(t[4]) == 83
    &&& upper(t[5]) == 76
    &&& upper(t[6]) == 65
    &&& upper(t[7]) == 84
    &&& upper(t[8]) == 69
}

/// The line closes the taxon table: trimmed, it starts with `;`.
pub open spec fn starts_semi(l: Seq<u8>) -> bool {
    let t = trim_bytes(l);
    t.len() >= 1 && t[0] == 59
}

/// The separator ` = ` stands at position `k` of `l`.
pub open spec fn sep_at(l: Seq<u8>, k: int) -> bool {
    &&& 0 <= k
    &&& k + 3 <= l.len()
    &&& l[k] == 32
    &&& l[k + 1] == 61
    &&& l[k + 2] == 32
}

/// The first position at or after `i` where ` = ` stands, or -1.
pub open spec fn first_sep(l: Seq<u8>, i: int) -> int
    decreases l.len() - i,
{
    if i < 0 || i + 3 > l.len() {
        -1
    } else if sep_at(l, i) {
        i
    } else {
        first_sep(l, i + 1)
    }
}

/// The (header, body) pair a tree line contributes: the trimmed text on
/// either side of the first ` = `, or nothing when the line has none.
pub open spec fn block_of(l: Seq<u8>) -> Seq<(Seq<u8>, Seq<u8>)> {
    let k = first_sep(l, 0);
    if k == -1 {
        Seq::empty()
    } else {
        seq![(trim_bytes(l.subrange(0, k)), trim_bytes(l.subrange(k + 3, l.len() as int)))]
    }
}

/// The tree statements among the lines: scanning starts at the first line
/// that opens a tree statement and stops at the line that closes the block;
/// every line in between contributes its (header, body) pair if it has one.
pub open spec fn spec_blocks(ls: Seq<Seq<u8>>, started: bool) -> Seq<(Seq<u8>, Seq<u8>)>
    decreases ls.len(),
{
    if ls.len() == 0 {
        Seq::empty()
    } else {
        let l = ls[0];
        if started || starts_tree(l) {
            if ends_block(l) {
                Seq::empty()
            } else {
                block_of(l) + spec_blocks(ls.drop_first(), true)
            }
        } else {
            spec_blocks(ls.drop_first(), false)
        }
    }
}

/// The (identifier, label) pair a taxon table line contributes: its first
/// two whitespace-separated tokens, after dropping trailing commas, the
/// label stripped of its quotes; or nothing when a token is missing.
pub open spec fn taxon_of(l: Seq<u8>) -> Seq<(Seq<u8>, Seq<u8>)> {
    let t = strip_commas(trim_bytes(l));
    let a1 = ws_skip(t, 0);
    let e1 = tok_end(t, a1);
    let a2 = ws_skip(t, e1);
    let e2 = tok_end(t, a2);
    if e1 == a1 || e2 == a2 {
        Seq::empty()
    } else {
        seq![(t.subrange(a1, e1), strip_quotes(t.subrange(a2, e2)))]
    }
}

/// The taxon table entries among the lines: scanning starts right after the
/// line that opens the table and stops at the line that starts with `;`.
pub open spec fn spec_taxa(ls: Seq<Seq<u8>>, started: bool) -> Seq<(Seq<u8>, Seq<u8>)>
    decreases ls.len(),
{
    if ls.len() == 0 {
        Seq::empty()
    } else {
        let l = ls[0];
        if !started {
            spec_taxa(ls.drop_first(), starts_translate(l))
        } else if starts_semi(l) {
            Seq::empty()
        } else {
            taxon_of(l) + spec_taxa(ls.drop_first(), true)
        }
    }
}

} // verus!

verus! {

/// One tree statement: the text before the first ` = `, and the text after.
pub struct TreeBlock {
    /// The statement head, holding the tree's name and generation tag.
    pub header: Vec<u8>,
    /// The tree string itself.
    pub body: Vec<u8>,
}

/// The (header, body) views of a block listing.
pub open spec fn block_views(s: Seq<TreeBlock>) -> Seq<(Seq<u8>, Seq<u8>)> {
    s.map_values(|tb: TreeBlock| (tb.header@, tb.body@))
}

/// The (identifier, label) views of a taxon listing.
pub open spec fn taxa_views(s: Seq<(Vec<u8>, Vec<u8>)>) -> Seq<(Seq<u8>, Seq<u8>)> {
    s.map_values(|p: (Vec<u8>, Vec<u8>)| (p.0@, p.1@))
}

proof fn lemma_line_end_scan(s: Seq<u8>, i: int, e: int)
    requires
        0 <= i <= e <= s.len(),
        forall|k: int| i <= k < e ==> s[k] != 10,
        e == s.len() || s[e] == 10,
    ensures
        line_end(s, i) == e,
    decreases e - i,
{
    if i < e {
        lemma_line_end_scan(s, i + 1, e);
    }
}

proof fn lemma_ws_skip_scan(s: Seq<u8>, i: int, e: int)
    requires
        0 <= i <= e <= s.len(),
        forall|k: int| i <= k < e ==> is_ws(#[trigger] s[k]),
        e == s.len() || !is_ws(s[e]),
    ensures
        ws_skip(s, i) == e,
    decreases e - i,
{
    if i < e {
        lemma_ws_skip_scan(s, i + 1, e);
    }
}

proof fn lemma_tok_end_scan(s: Seq<u8>, i: int, e: int)
    requires
        0 <= i <= e <= s.len(),
        forall|k: int| i <= k < e ==> !is_ws(#[trigger] s[k]),
        e == s.len() || is_ws(s[e]),
    ensures
        tok_end(s, i) == e,
    decreases e - i,
{
    if i < e {
        lemma_tok_end_scan(s, i + 1, e);
    }
}

proof fn lemma_first_sep_scan(s: Seq<u8>, i: int, e: int)
    requires
        0 <= i <= e,
        forall|k: int| i <= k < e ==> !sep_at(s, k),
        e + 3 > s.len() || sep_at(s, e),
    ensures
        e + 3 <= s.len() ==> first_sep(s, i) == e,
        e + 3 > s.len() ==> first_sep(s, i) == -1,
    decreases e - i,
{
    if i < e {
        lemma_first_sep_scan(s, i + 1, e);
    } else {
        if e + 3 > s.len() {
            if i + 3 <= s.len() {
                assert(sep_at(s, e));
            }
        }
    }
}

proof fn lemma_trim_range(s: Seq<u8>, a: int, b: int)
    requires
        0 <= a <= b <= s.len(),
        forall|k: int| 0 <= k < a ==> is_ws(#[trigger] s[k]),
        forall|k: int| b <= k < s.len() ==> is_ws(#[trigger] s[k]),
        a < b ==> !is_ws(s[a]) && !is_ws(s[b - 1]),
    ensures
        trim_bytes(s) == s.subrange(a, b),
    decreases s.len(),
{
    if s.len() > 0 && is_ws(s[0]) {
        if a == 0 && a < b {
            assert(false);
        }
        if a == b {
            // the whole string is whitespace
            assert forall|k: int| 0 <= k < s.drop_first().len() implies is_ws(
                #[trigger] s.drop_first()[k],
            ) by {
                if k + 1 < a {
                } else {
                    assert(b <= k + 1 < s.len());
                }
            }
            lemma_trim_range(s.drop_first(), 0, 0);
            assert(s.subrange(a, b) =~= s.drop_first().subrange(0, 0));
        } else {
            lemma_trim_range(s.drop_first(), a - 1, b - 1);
            assert(s.subrange(a, b) =~= s.drop_first().subrange(a - 1, b - 1));
        }
    } else if s.len() > 0 && is_ws(s.last()) {
        assert(b < s.len()) by {
            if b == s.len() {
                if a < b {
                    assert(!is_ws(s[b - 1]));
                    assert(is_ws(s[s.len() - 1]));
                } else {
                    assert(is_ws(s[0]));
                }
            }
        }
        lemma_trim_range(s.drop_last(), a, b);
        assert(s.subrange(a, b) =~= s.drop_last().subrange(a, b));
    } else {
        if s.len() == 0 {
            assert(s.subrange(a, b) =~= s);
        } else {
            assert(a == 0) by {
                if a > 0 {
                    assert(is_ws(s[0]));
                }
            }
            assert(b == s.len()) by {
                if b < s.len() {
                    assert(is_ws(s[s.len() - 1]));
                }
            }
            assert(s.subrange(a, b) =~= s);
        }
    }
}

proof fn lemma_strip_commas_range(s: Seq<u8>, b: int)
    requires
        0 <= b <= s.len(),
        forall|k: int| b <= k < s.len() ==> s[k] == 44,
        b > 0 ==> s[b - 1] != 44,
    ensures
        strip_commas(s) == s.subrange(0, b),
    decreases s.len(),
{
    if s.len() > 0 && s.last() == 44 {
        assert(b < s.len()) by {
            if b == s.len() {
                assert(s[b - 1] != 44);
            }
        }
        lemma_strip_commas_range(s.drop_last(), b);
        assert(s.subrange(0, b) =~= s.drop_last().subrange(0, b));
    } else {
        assert(b == s.len()) by {
            if b < s.len() {
                assert(s[s.len() - 1] == 44);
            }
        }
        assert(s.subrange(0, b) =~= s);
    }
}

proof fn lemma_strip_quotes_range(s: Seq<u8>, a: int, b: int)
    requires
        0 <= a <= b <= s.len(),
        forall|k: int| 0 <= k < a ==> s[k] == 39,
        forall|k: int| b <= k < s.len() ==> #[trigger] s[k] == 39,
        a < b ==> s[a] != 39 && s[b - 1] != 39,
    ensures
        strip_quotes(s) == s.subrange(a, b),
    decreases s.len(),
{
    if s.len() > 0 && s[0] == 39 {
        if a == 0 && a < b {
            assert(false);
        }
        if a == b {
            assert forall|k: int| 0 <= k < s.drop_first().len() implies #[trigger] s.drop_first()[k]
                == 39 by {
                if k + 1 < a {
                } else {
                    assert(b <= k + 1 < s.len());
                }
            }
            lemma_strip_quotes_range(s.drop_first(), 0, 0);
            assert(s.subrange(a, b) =~= s.drop_first().subrange(0, 0));
        } else {
            lemma_strip_quotes_range(s.drop_first(), a - 1, b - 1);
            assert(s.subrange(a, b) =~= s.drop_first().subrange(a - 1, b - 1));
        }
    } else if s.len() > 0 && s.last() == 39 {
        assert(b < s.len()) by {
            if b == s.len() {
                if a < b {
                    assert(s[b - 1] != 39);
                } else {
                    assert(s[0] == 39);
                }
            }
        }
        lemma_strip_quotes_range(s.drop_last(), a, b);
        assert(s.subrange(a, b) =~= s.drop_last().subrange(a, b));
    } else {
        if s.len() == 0 {
            assert(s.subrange(a, b) =~= s);
        } else {
            assert(a == 0) by {
                if a > 0 {
                    assert(s[0] == 39);
                }
            }
            assert(b == s.len()) by {
                if b < s.len() {
                    assert(s[s.len() - 1] == 39);
                }
            }
            assert(s.subrange(a, b) =~= s);
        }
    }
}

/// The bytes of `v` from `a` (inclusive) to `b` (exclusive).
fn copy_range(v: &Vec<u8>, a: usize, b: usize) -> (r: Vec<u8>)
    requires
        a <= b <= v@.len(),
    ensures
        r@ == v@.subrange(a as int, b as int),
{
    let mut out: Vec<u8> = Vec::new();
    let mut i = a;
    while i < b
        invariant
            a <= i <= b <= v@.len(),
            out@ == v@.subrange(a as int, i as int),
        decreases b - i,
    {
        out.push(v[i]);
        assert(out@ =~= v@.subrange(a as int, i + 1));
        i = i + 1;
    }
    out
}

/// The text without its leading and trailing ASCII whitespace.
fn trim_ws(v: &Vec<u8>) -> (r: Vec<u8>)
    ensures
        r@ == trim_bytes(v@),
{
    let n = v.len();
    let mut a: usize = 0;
    while a < n && is_ws_byte(v[a])
        invariant
            a <= n,
            n == v@.len(),
            forall|k: int| 0 <= k < a ==> is_ws(#[trigger] v@[k]),
        decreases n - a,
    {
        a = a + 1;
    }
    let mut b: usize = n;
    while b > a && is_ws_byte(v[b - 1])
        invariant
            a <= b <= n,
            n == v@.len(),
            forall|k: int| 0 <= k < a ==> is_ws(#[trigger] v@[k]),
            forall|k: int| b <= k < n ==> is_ws(#[trigger] v@[k]),
        decreases b,
    {
        b = b - 1;
    }
    proof {
        if a < b {
            assert(!is_ws(v@[a as int]));
            assert(!is_ws(v@[b - 1]));
        }
        lemma_trim_range(v@, a as int, b as int);
    }
    copy_range(v, a, b)
}

/// Whether a byte is ASCII whitespace.
fn is_ws_byte(b: u8) -> (r: bool)
    ensures
        r == is_ws(b),
{
    b == 32 || b == 9 || b == 10 || b == 13 || b == 11 || b == 12
}

/// Splits file text into lines: at newlines, dropping one trailing carriage
/// return per line, with no trailing empty line.
pub fn split_lines(content: &Vec<u8>) -> (r: Vec<Vec<u8>>)
    ensures
        crate::order::byte_views(r@) == spec_lines(content@, 0),
{
    let n = content.len();
    let mut out: Vec<Vec<u8>> = Vec::new();
    let mut i: usize = 0;
    proof {
        assert(Seq::<Seq<u8>>::empty() + spec_lines(content@, 0) =~= spec_lines(content@, 0));
    }
    while i < n
        invariant
            i <= n,
            n == content@.len(),
            spec_lines(content@, 0) == crate::order::byte_views(out@) + spec_lines(
                content@,
                i as int,
            ),
        decreases n - i,
    {
        let ghost pre = out@;
        let mut e = i;
        while e < n && content[e] != 10
            invariant
                i <= e <= n,
                n == content@.len(),
                forall|k: int| i <= k < e ==> content@[k] != 10,
            decreases n - e,
        {
            e = e + 1;
        }
        proof {
            lemma_line_end_scan(content@, i as int, e as int);
        }
        let e2 = if e > i && content[e - 1] == 13 {
            e - 1
        } else {
            e
        };
        let line = copy_range(content, i, e2);
        proof {
            assert(line@ =~= strip_cr(content@.subrange(i as int, e as int))) by {
                if e > i && content@[e - 1] == 13 {
                    assert(content@.subrange(i as int, e as int).drop_last() =~= content@.subrange(
                        i as int,
                        e2 as int,
                    ));
                } else {
                    assert(content@.subrange(i as int, e as int) =~= content@.subrange(
                        i as int,
                        e2 as int,
                    ));
                }
            }
        }
        out.push(line);
        proof {
            assert(crate::order::byte_views(out@) =~= crate::order::byte_views(pre).push(line@));
            assert(spec_lines(content@, i as int) == seq![
                strip_cr(content@.subrange(i as int, e as int)),
            ] + spec_lines(content@, e + 1));
            assert(crate::order::byte_views(pre) + spec_lines(content@, i as int)
                =~= crate::order::byte_views(out@) + spec_lines(content@, e + 1));
        }
        if e >= n {
            proof {
                assert(spec_lines(content@, e + 1) == Seq::<Seq<u8>>::empty());
                assert(spec_lines(content@, n as int) == Seq::<Seq<u8>>::empty());
            }
            i = n;
        } else {
            i = e + 1;
        }
    }
    proof {
        assert(spec_lines(content@, i as int) == Seq::<Seq<u8>>::empty());
        assert(crate::order::byte_views(out@) + Seq::<Seq<u8>>::empty() =~= crate::order::byte_views(out@));
    }
    out
}

} // verus!

verus! {

/// Whether the line opens a tree statement.
fn starts_tree_exec(l: &Vec<u8>) -> (r: bool)
    ensures
        r == starts_tree(l@),
{
    l.len() >= 5 && upper_byte(l[0]) == 84 && upper_byte(l[1]) == 82 && upper_byte(l[2]) == 69
        && upper_byte(l[3]) == 69 && l[4] == 32
}

/// Whether the line closes the block.
fn ends_block_exec(l: &Vec<u8>) -> (r: bool)
    ensures
        r == ends_block(l@),
{
    let t = trim_ws(l);
    t.len() >= 4 && upper_byte(t[0]) == 69 && upper_byte(t[1]) == 78 && upper_byte(t[2]) == 68
        && t[3] == 59
}

/// Whether the line opens the taxon table.
fn starts_translate_exec(l: &Vec<u8>) -> (r: bool)
    ensures
        r == starts_translate(l@),
{
    let t = trim_ws(l);
    t.len() >= 9 && upper_byte(t[0]) == 84 && upper_byte(t[1]) == 82 && upper_byte(t[2]) == 65
        && upper_byte(t[3]) == 78 && upper_byte(t[4]) == 83 && upper_byte(t[5]) == 76
        && upper_byte(t[6]) == 65 && upper_byte(t[7]) == 84 && upper_byte(t[8]) == 69
}

/// Whether the line closes the taxon table.
fn starts_semi_exec(l: &Vec<u8>) -> (r: bool)
    ensures
        r == starts_semi(l@),
{
    let t = trim_ws(l);
    t.len() >= 1 && t[0] == 59
}

/// Cuts the tree statements out of file text: scanning starts at the first
/// line that opens a tree statement and stops at the closing line of the
/// block; every line with an ` = ` in that window contributes one block,
/// its head and tree string trimmed.
pub fn collect_tree_blocks(content: &Vec<u8>) -> (r: Vec<TreeBlock>)
    ensures
        block_views(r@) == spec_blocks(spec_lines(content@, 0), false),
{
    let ls = split_lines(content);
    let ghost lv = spec_lines(content@, 0);
    let n = ls.len();
    let mut out: Vec<TreeBlock> = Vec::new();
    let mut started = false;
    let mut idx: usize = 0;
    proof {
        assert(lv.skip(0) =~= lv);
        assert(Seq::<(Seq<u8>, Seq<u8>)>::empty() + spec_blocks(lv, false) =~= spec_blocks(
            lv,
            false,
        ));
    }
    while idx < n
        invariant
            idx <= n,
            n == ls@.len(),
            crate::order::byte_views(ls@) == lv,
            lv == spec_lines(content@, 0),
            spec_blocks(lv, false) == block_views(out@) + spec_blocks(
                lv.skip(idx as int),
                started,
            ),
        decreases n - idx,
    {
        let ghost suf = lv.skip(idx as int);
        let ghost pre = out@;
        proof {
            assert(suf[0] == lv[idx as int]);
            assert(lv[idx as int] == ls@[idx as int]@);
            assert(suf.drop_first() =~= lv.skip(idx + 1));
        }
        let line = &ls[idx];
        let tree_here = starts_tree_exec(line);
        if started || tree_here {
            if ends_block_exec(line) {
                proof {
                    assert(spec_blocks(suf, started) == Seq::<(Seq<u8>, Seq<u8>)>::empty());
                    assert(block_views(out@) + Seq::<(Seq<u8>, Seq<u8>)>::empty() =~= block_views(
                        out@,
                    ));
                }
                return out;
            }
            // find the first ` = ` of the line
            let llen = line.len();
            let mut e: usize = 0;
            let mut sep: usize = llen;
            let mut found = false;
            while !found && llen >= 3 && e <= llen - 3
                invariant
                    0 <= e,
                    llen == line@.len(),
                    !found ==> e <= llen && forall|k: int| 0 <= k < e ==> !sep_at(line@, k),
                    found ==> sep_at(line@, sep as int) && (forall|k: int|
                        0 <= k < sep ==> !sep_at(line@, k)) && sep as int + 3 <= llen,
                decreases llen - e, (if found { 0int } else { 1int }),
            {
                if line[e] == 32 && line[e + 1] == 61 && line[e + 2] == 32 {
                    proof {
                        assert(sep_at(line@, e as int));
                    }
                    sep = e;
                    found = true;
                } else {
                    proof {
                        assert(!sep_at(line@, e as int));
                    }
                    e = e + 1;
                }
            }
            if found {
                proof {
                    lemma_first_sep_scan(line@, 0, sep as int);
                    assert(first_sep(line@, 0) == sep as int);
                }
                let head_raw = copy_range(line, 0, sep);
                let body_raw = copy_range(line, sep + 3, llen);
                let header = trim_ws(&head_raw);
                let body = trim_ws(&body_raw);
                let ghost hb = (header@, body@);
                out.push(TreeBlock { header, body });
                proof {
                    assert(block_of(suf[0]) == seq![hb]);
                    assert(spec_blocks(suf, started) == seq![hb] + spec_blocks(
                        suf.drop_first(),
                        true,
                    ));
                    assert(block_views(out@) =~= block_views(pre).push(hb));
                    assert(block_views(pre) + spec_blocks(suf, started) =~= block_views(out@)
                        + spec_blocks(lv.skip(idx + 1), true));
                }
            } else {
                proof {
                    if e + 3 > llen {
                        lemma_first_sep_scan(line@, 0, e as int);
                    }
                    assert(first_sep(line@, 0) == -1);
                    assert(block_of(suf[0]) == Seq::<(Seq<u8>, Seq<u8>)>::empty());
                    assert(spec_blocks(suf, started) == Seq::<(Seq<u8>, Seq<u8>)>::empty()
                        + spec_blocks(suf.drop_first(), true));
                    assert(block_views(pre) + spec_blocks(suf, started) =~= block_views(out@)
                        + spec_blocks(lv.skip(idx + 1), true));
                }
            }
            started = true;
        } else {
            proof {
                assert(spec_blocks(suf, false) == spec_blocks(suf.drop_first(), false));
            }
        }
        idx = idx + 1;
    }
    proof {
        assert(lv.skip(n as int).len() == 0);
        assert(spec_blocks(lv.skip(n as int), started) == Seq::<(Seq<u8>, Seq<u8>)>::empty());
        assert(block_views(out@) + Seq::<(Seq<u8>, Seq<u8>)>::empty() =~= block_views(out@));
    }
    out
}

/// Strips the trailing commas off a trimmed line.
fn strip_commas_exec(v: &Vec<u8>) -> (r: Vec<u8>)
    ensures
        r@ == strip_commas(v@),
{
    let n = v.len();
    let mut b: usize = n;
    while b > 0 && v[b - 1] == 44
        invariant
            b <= n,
            n == v@.len(),
            forall|k: int| b <= k < n ==> v@[k] == 44,
        decreases b,
    {
        b = b - 1;
    }
    proof {
        lemma_strip_commas_range(v@, b as int);
    }
    copy_range(v, 0, b)
}

/// Strips the leading and trailing single quotes off a token.
fn strip_quotes_exec(v: &Vec<u8>) -> (r: Vec<u8>)
    ensures
        r@ == strip_quotes(v@),
{
    let n = v.len();
    let mut a: usize = 0;
    while a < n && v[a] == 39
        invariant
            a <= n,
            n == v@.len(),
            forall|k: int| 0 <= k < a ==> v@[k] == 39,
        decreases n - a,
    {
        a = a + 1;
    }
    let mut b: usize = n;
    while b > a && v[b - 1] == 39
        invariant
            a <= b <= n,
            n == v@.len(),
            forall|k: int| 0 <= k < a ==> v@[k] == 39,
            forall|k: int| b <= k < n ==> #[trigger] v@[k] == 39,
        decreases b,
    {
        b = b - 1;
    }
    proof {
        lemma_strip_quotes_range(v@, a as int, b as int);
    }
    copy_range(v, a, b)
}

/// Reads the taxon translation table out of file text: the lines after the
/// one that opens the table and before the one that starts with `;`, each
/// contributing its identifier and its unquoted label, in file order.
pub fn parse_taxon_block(content: &Vec<u8>) -> (r: Vec<(Vec<u8>, Vec<u8>)>)
    ensures
        taxa_views(r@) == spec_taxa(spec_lines(content@, 0), false),
{
    let ls = split_lines(content);
    let ghost lv = spec_lines(content@, 0);
    let n = ls.len();
    let mut out: Vec<(Vec<u8>, Vec<u8>)> = Vec::new();
    let mut started = false;
    let mut idx: usize = 0;
    proof {
        assert(lv.skip(0) =~= lv);
        assert(Seq::<(Seq<u8>, Seq<u8>)>::empty() + spec_taxa(lv, false) =~= spec_taxa(lv, false));
    }
    while idx < n
        invariant
            idx <= n,
            n == ls@.len(),
            crate::order::byte_views(ls@) == lv,
            lv == spec_lines(content@, 0),
            spec_taxa(lv, false) == taxa_views(out@) + spec_taxa(lv.skip(idx as int), started),
        decreases n - idx,
    {
        let ghost suf = lv.skip(idx as int);
        let ghost pre = out@;
        proof {
            assert(suf[0] == lv[idx as int]);
            assert(lv[idx as int] == ls@[idx as int]@);
            assert(suf.drop_first() =~= lv.skip(idx + 1));
        }
        let line = &ls[idx];
        if !started {
            started = starts_translate_exec(line);
            proof {
                assert(spec_taxa(suf, false) == spec_taxa(suf.drop_first(), starts_translate(
                    suf[0],
                )));
            }
        } else {
            if starts_semi_exec(line) {
                proof {
                    assert(spec_taxa(suf, true) == Seq::<(Seq<u8>, Seq<u8>)>::empty());
                    assert(taxa_views(out@) + Seq::<(Seq<u8>, Seq<u8>)>::empty() =~= taxa_views(
                        out@,
                    ));
                }
                return out;
            }
            let trimmed = trim_ws(line);
            let t = strip_commas_exec(&trimmed);
            let tlen = t.len();
            // first token
            let mut a1: usize = 0;
            while a1 < tlen && is_ws_byte(t[a1])
                invariant
                    a1 <= tlen,
                    tlen == t@.len(),
                    forall|k: int| 0 <= k < a1 ==> is_ws(#[trigger] t@[k]),
                decreases tlen - a1,
            {
                a1 = a1 + 1;
            }
            let mut e1: usize = a1;
            while e1 < tlen && !is_ws_byte(t[e1])
                invariant
                    a1 <= e1 <= tlen,
                    tlen == t@.len(),
                    forall|k: int| a1 <= k < e1 ==> !is_ws(#[trigger] t@[k]),
                decreases tlen - e1,
            {
                e1 = e1 + 1;
            }
            // second token
            let mut a2: usize = e1;
            while a2 < tlen && is_ws_byte(t[a2])
                invariant
                    e1 <= a2 <= tlen,
                    tlen == t@.len(),
                    forall|k: int| e1 <= k < a2 ==> is_ws(#[trigger] t@[k]),
                decreases tlen - a2,
            {
                a2 = a2 + 1;
            }
            let mut e2: usize = a2;
            while e2 < tlen && !is_ws_byte(t[e2])
                invariant
                    a2 <= e2 <= tlen,
                    tlen == t@.len(),
                    forall|k: int| a2 <= k < e2 ==> !is_ws(#[trigger] t@[k]),
                decreases tlen - e2,
            {
                e2 = e2 + 1;
            }
            proof {
                lemma_ws_skip_scan(t@, 0, a1 as int);
                lemma_tok_end_scan(t@, a1 as int, e1 as int);
                lemma_ws_skip_scan(t@, e1 as int, a2 as int);
                lemma_tok_end_scan(t@, a2 as int, e2 as int);
            }
            if e1 > a1 && e2 > a2 {
                let id = copy_range(&t, a1, e1);
                let tok2 = copy_range(&t, a2, e2);
                let label = strip_quotes_exec(&tok2);
                let ghost entry = (id@, label@);
                out.push((id, label));
                proof {
                    assert(taxon_of(suf[0]) == seq![entry]);
                    assert(spec_taxa(suf, true) == seq![entry] + spec_taxa(
                        suf.drop_first(),
                        true,
                    ));
                    assert(taxa_views(out@) =~= taxa_views(pre).push(entry));
                    assert(taxa_views(pre) + spec_taxa(suf, true) =~= taxa_views(out@)
                        + spec_taxa(lv.skip(idx + 1), true));
                }
            } else {
                proof {
                    assert(taxon_of(suf[0]) == Seq::<(Seq<u8>, Seq<u8>)>::empty());
                    assert(spec_taxa(suf, true) == Seq::<(Seq<u8>, Seq<u8>)>::empty() + spec_taxa(
                        suf.drop_first(),
                        true,
                    ));
                    assert(taxa_views(pre) + spec_taxa(suf, true) =~= taxa_views(out@)
                        + spec_taxa(lv.skip(idx + 1), true));
                }
            }
        }
        idx = idx + 1;
    }
    proof {
        assert(lv.skip(n as int).len() == 0);
        assert(spec_taxa(lv.skip(n as int), started) == Seq::<(Seq<u8>, Seq<u8>)>::empty());
        assert(taxa_views(out@) + Seq::<(Seq<u8>, Seq<u8>)>::empty() =~= taxa_views(out@));
    }
    out
}

} // verus!
