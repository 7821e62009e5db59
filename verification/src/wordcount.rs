//! The counting engine: in-place case folding, tokenization into maximal
//! alphabetic runs, zero-copy word references keyed by a packed
//! (hash, length) value, the length-gated fast equality comparator, and
//! the aggregation table that counts occurrences per word.

use std::collections::HashMap;

use vstd::arithmetic::div_mod::{lemma_fundamental_div_mod, lemma_mod_bound};
use vstd::prelude::*;

use crate::hash::{
    all_lowercase, fnv32, fnv32_spec, is_lowercase, lemma_pack_key_injective, lemma_pack_key_low,
    pack_key,
};

verus! {

/// Words of length below this bound are taken as equal once their word
/// keys agree; the census establishes that no two distinct lowercase
/// strings this short share a hash.
pub const FAST_EQ_THRESHOLD: usize = 6;

/// A byte in either letter range; everything else separates words.
pub open spec fn is_alpha_spec(b: u8) -> bool {
    (97 <= b && b <= 122) || (65 <= b && b <= 90)
}

/// What normalization does to one byte: letters fold to lower case by
/// setting bit five, anything else is left untouched.
pub open spec fn fold_byte(b: u8) -> u8 {
    if is_alpha_spec(b) {
        b | 0x20
    } else {
        b
    }
}

/// The whole buffer after in-place normalization.
pub open spec fn normalize_spec(s: Seq<u8>) -> Seq<u8> {
    Seq::new(s.len(), |i: int| fold_byte(s[i]))
}

/// Folding a letter lands in the lowercase range; folding anything else
/// changes nothing, so alphabetic-ness is preserved exactly.
pub proof fn lemma_fold_byte(b: u8)
    ensures
        is_alpha_spec(b) ==> is_lowercase(fold_byte(b)),
        is_alpha_spec(fold_byte(b)) == is_alpha_spec(b),
        !is_alpha_spec(b) ==> fold_byte(b) == b,
{
    if is_alpha_spec(b) {
        assert(((97 <= b && b <= 122) || (65 <= b && b <= 90)) ==> 97 <= (b | 0x20)
            && (b | 0x20) <= 122) by (bit_vector);
    }
}

/// Decides whether `byte` is a letter of either case.
pub fn is_alpha(byte: u8) -> (r: bool)
    ensures
        r == is_alpha_spec(byte),
{
    (97 <= byte && byte <= 122) || (65 <= byte && byte <= 90)
}

/// Folds one letter to lower case by setting bit five.  Only letters may
/// undergo this; the tokenizer guarantees it.
pub fn to_lower(byte: u8) -> (r: u8)
    requires
        is_alpha_spec(byte),
    ensures
        r == fold_byte(byte),
        is_lowercase(r),
{
    proof {
        lemma_fold_byte(byte);
    }
    byte | 0x20
}

/// Rewrites every letter of the buffer to lower case, in place, leaving
/// separators untouched.
pub fn normalize(text: &mut Vec<u8>)
    ensures
        final(text)@ == normalize_spec(old(text)@),
{
    let n = text.len();
    let mut i: usize = 0;
    while i < n
        invariant
            n == text@.len(),
            text@.len() == old(text)@.len(),
            0 <= i <= n,
            forall|j: int| 0 <= j < i ==> text@[j] == fold_byte(old(text)@[j]),
            forall|j: int| i <= j < n ==> text@[j] == old(text)@[j],
        decreases n - i,
    {
        let b = text[i];
        if is_alpha(b) {
            let f = to_lower(b);
            text[i] = f;
        }
        i = i + 1;
    }
    proof {
        assert(text@ =~= normalize_spec(old(text)@));
    }
}

/// A span `(start, length)` that is one maximal alphabetic run of `s`:
/// nonempty, all letters, and bounded by separators or buffer ends.
pub open spec fn valid_span(s: Seq<u8>, sp: (usize, usize)) -> bool {
    &&& sp.1 >= 1
    &&& sp.0 + sp.1 <= s.len()
    &&& forall|j: int| sp.0 <= j < sp.0 + sp.1 ==> is_alpha_spec(s[j])
    &&& (sp.0 == 0 || !is_alpha_spec(s[sp.0 - 1]))
    &&& (sp.0 + sp.1 == s.len() || !is_alpha_spec(s[sp.0 + sp.1]))
}

/// `spans` lists exactly the maximal alphabetic runs of `s`, in order of
/// their start positions: each span is a maximal run, starts strictly
/// increase, and every alphabetic position lies inside some span.
pub open spec fn spans_valid(s: Seq<u8>, spans: Seq<(usize, usize)>) -> bool {
    &&& forall|k: int| 0 <= k < spans.len() ==> valid_span(s, #[trigger] spans[k])
    &&& forall|k1: int, k2: int|
        0 <= k1 < k2 < spans.len() ==> (#[trigger] spans[k1]).0 < (#[trigger] spans[k2]).0
    &&& forall|j: int|
        0 <= j < s.len() && is_alpha_spec(s[j]) ==> exists|k: int|
            0 <= k < spans.len() && (#[trigger] spans[k]).0 <= j < spans[k].0 + spans[k].1
}

/// Scans the buffer and returns its maximal alphabetic runs, in order.
pub fn find_words(text: &Vec<u8>) -> (spans: Vec<(usize, usize)>)
    ensures
        spans_valid(text@, spans@),
{
    let n = text.len();
    let mut spans: Vec<(usize, usize)> = Vec::new();
    let mut i: usize = 0;
    while i < n
        invariant
            n == text@.len(),
            0 <= i <= n,
            forall|k: int| 0 <= k < spans@.len() ==> valid_span(text@, #[trigger] spans@[k]),
            forall|k: int|
                0 <= k < spans@.len() ==> (#[trigger] spans@[k]).0 + spans@[k].1 <= i,
            forall|k1: int, k2: int|
                0 <= k1 < k2 < spans@.len() ==> (#[trigger] spans@[k1]).0 < (
                #[trigger] spans@[k2]).0,
            forall|j: int|
                0 <= j < i && is_alpha_spec(text@[j]) ==> exists|k: int|
                    0 <= k < spans@.len() && (#[trigger] spans@[k]).0 <= j < spans@[k].0
                        + spans@[k].1,
            (i > 0 && is_alpha_spec(text@[i - 1])) ==> (spans@.len() > 0 && spans@.last().0
                + spans@.last().1 == i),
        decreases n - i,
    {
        if is_alpha(text[i]) {
            let start = i;
            let ghost pre = spans@;
            let mut e = i;
            while e < n && ((97 <= text[e] && text[e] <= 122) || (65 <= text[e] && text[e] <= 90))
                invariant
                    n == text@.len(),
                    start <= e <= n,
                    forall|j: int| start <= j < e ==> is_alpha_spec(text@[j]),
                    e == start ==> (start < n && is_alpha_spec(text@[start as int])),
                decreases n - e,
            {
                e = e + 1;
            }
            spans.push((start, e - start));
            proof {
                assert(spans@ == pre.push((start, (e - start) as usize)));
                assert(spans@[pre.len() as int] == (start, (e - start) as usize));
                assert forall|j: int| 0 <= j < e && is_alpha_spec(text@[j]) implies exists|k: int|
                    0 <= k < spans@.len() && (#[trigger] spans@[k]).0 <= j < spans@[k].0
                        + spans@[k].1 by {
                    if j < start {
                        let k = choose|k: int|
                            0 <= k < pre.len() && (#[trigger] pre[k]).0 <= j < pre[k].0
                                + pre[k].1;
                        assert(spans@[k] == pre[k]);
                        assert(spans@[k].0 <= j < spans@[k].0 + spans@[k].1);
                    } else {
                        let k = pre.len() as int;
                        assert(spans@[k].0 <= j < spans@[k].0 + spans@[k].1);
                    }
                }
            }
            i = e;
        } else {
            i = i + 1;
        }
    }
    spans
}

/// A compact reference to one word of the buffer: its start offset and
/// the packed word key, hash above length.  It never owns the bytes; the
/// backing buffer must outlive it.
#[derive(Clone, Copy)]
pub struct WordRef {
    start: usize,
    lenhash: u64,
}

impl WordRef {
    /// Offset of the word's first byte in the backing buffer.
    pub closed spec fn start_spec(self) -> usize {
        self.start
    }

    /// The packed word key: hash in the high half, length in the low half.
    pub closed spec fn key(self) -> u64 {
        self.lenhash
    }

    /// The word's byte length, read back out of the packed key.
    pub open spec fn len_spec(self) -> usize {
        (self.key() & 0xffff_ffff) as usize
    }

    /// The word's bytes as a window into the backing buffer.
    pub open spec fn bytes_of(self, s: Seq<u8>) -> Seq<u8> {
        s.subrange(self.start_spec() as int, self.start_spec() + self.len_spec())
    }

    /// Well-formed against a buffer: in bounds, all lowercase, and the
    /// key really is the packed hash and length of those bytes.
    pub open spec fn wf(self, s: Seq<u8>) -> bool {
        &&& self.start_spec() + self.len_spec() <= s.len()
        &&& all_lowercase(self.bytes_of(s))
        &&& self.key() == pack_key(fnv32_spec(self.bytes_of(s)), self.len_spec() as u32)
    }

    /// Builds a word reference from a span of the buffer.  The span must
    /// hold lowercase letters only, as the tokenizer guarantees.
    pub fn from_ascii_word(text: &Vec<u8>, start: usize, len: usize) -> (w: WordRef)
        requires
            start + len <= text@.len(),
            len < 0x1_0000_0000,
            all_lowercase(text@.subrange(start as int, start as int + len as int)),
        ensures
            w.wf(text@),
            w.start_spec() == start,
            w.len_spec() == len,
            w.key() == pack_key(fnv32_spec(text@.subrange(start as int, start as int + len as int)), len as u32),
    {
        let n = text.len();
        let h = fnv32(vstd::slice::slice_subrange(text.as_slice(), start, start + len));
        let lenhash: u64 = ((h as u64) << 32) | (len as u64);
        proof {
            lemma_pack_key_low(h, len as u32);
        }
        WordRef { start, lenhash }
    }

    /// The word's bytes, borrowed from the backing buffer.
    pub fn as_slice<'a>(&self, text: &'a Vec<u8>) -> (r: &'a [u8])
        requires
            self.wf(text@),
        ensures
            r@ == self.bytes_of(text@),
    {
        let n = text.len();
        let len_mask: u64 = self.lenhash & 0xffff_ffff;
        proof {
            let lh = self.lenhash;
            assert(lh & 0xffff_ffff < 0x1_0000_0000u64) by (bit_vector);
        }
        let len = len_mask as usize;
        vstd::slice::slice_subrange(text.as_slice(), self.start, self.start + len)
    }
}

/// Chunk equality: two little-endian 32-bit words built from four bytes
/// each agree exactly when all four byte pairs agree.
proof fn lemma_chunk_eq(a0: u8, a1: u8, a2: u8, a3: u8, b0: u8, b1: u8, b2: u8, b3: u8)
    by (bit_vector)
    ensures
        (((a0 as u32) | ((a1 as u32) << 8) | ((a2 as u32) << 16) | ((a3 as u32) << 24)) == ((
        b0 as u32) | ((b1 as u32) << 8) | ((b2 as u32) << 16) | ((b3 as u32) << 24))) <==> (a0 == b0
            && a1 == b1 && a2 == b2 && a3 == b3),
{
}

/// Decides content equality for two same-length spans of the buffer whose
/// word keys already agree.  Below the threshold the spans are declared
/// equal outright — sound only because the census reports zero hash reuse
/// there.  From the threshold up, the bytes are compared in full, 32-bit
/// chunks first and the tail byte by byte.
pub fn fast_eq(text: &Vec<u8>, left: usize, right: usize, len: usize) -> (r: bool)
    requires
        left + len <= text@.len(),
        right + len <= text@.len(),
    ensures
        r == (len < FAST_EQ_THRESHOLD || text@.subrange(left as int, left as int + len as int)
            == text@.subrange(right as int, right as int + len as int)),
{
    if len < 6 {
        return true;
    }
    let n = text.len();
    let ghost sl = text@.subrange(left as int, left as int + len as int);
    let ghost sr = text@.subrange(right as int, right as int + len as int);
    let nwords = len / 4;
    proof {
        lemma_fundamental_div_mod(len as int, 4);
        lemma_mod_bound(len as int, 4);
    }
    let mut ci: usize = 0;
    while ci < nwords
        invariant
            0 <= ci <= nwords,
            4 * nwords <= len,
            6 <= len,
            n == text@.len(),
            left + len <= text@.len(),
            right + len <= text@.len(),
            sl == text@.subrange(left as int, left as int + len as int),
            sr == text@.subrange(right as int, right as int + len as int),
            forall|j: int| 0 <= j < 4 * ci ==> text@[left + j] == #[trigger] text@[right + j],
        decreases nwords - ci,
    {
        let o = 4 * ci;
        let l0 = text[left + o];
        let l1 = text[left + o + 1];
        let l2 = text[left + o + 2];
        let l3 = text[left + o + 3];
        let r0 = text[right + o];
        let r1 = text[right + o + 1];
        let r2 = text[right + o + 2];
        let r3 = text[right + o + 3];
        let lw: u32 = (l0 as u32) | ((l1 as u32) << 8) | ((l2 as u32) << 16) | ((l3 as u32) << 24);
        let rw: u32 = (r0 as u32) | ((r1 as u32) << 8) | ((r2 as u32) << 16) | ((r3 as u32) << 24);
        if lw != rw {
            proof {
                lemma_chunk_eq(l0, l1, l2, l3, r0, r1, r2, r3);
                if l0 != r0 {
                    assert(sl[o as int] != sr[o as int]);
                } else if l1 != r1 {
                    assert(sl[o + 1] != sr[o + 1]);
                } else if l2 != r2 {
                    assert(sl[o + 2] != sr[o + 2]);
                } else {
                    assert(sl[o + 3] != sr[o + 3]);
                }
            }
            return false;
        }
        proof {
            lemma_chunk_eq(l0, l1, l2, l3, r0, r1, r2, r3);
        }
        ci = ci + 1;
    }
    let mut j = nwords * 4;
    while j < len
        invariant
            4 * nwords <= j <= len,
            6 <= len,
            n == text@.len(),
            left + len <= text@.len(),
            right + len <= text@.len(),
            sl == text@.subrange(left as int, left as int + len as int),
            sr == text@.subrange(right as int, right as int + len as int),
            forall|t: int| 0 <= t < j ==> text@[left + t] == #[trigger] text@[right + t],
        decreases len - j,
    {
        if text[left + j] != text[right + j] {
            proof {
                assert(sl[j as int] != sr[j as int]);
            }
            return false;
        }
        j = j + 1;
    }
    proof {
        assert forall|t: int| 0 <= t < len implies sl[t] == sr[t] by {
            assert(text@[left + t] == text@[right + t]);
        }
        assert(sl =~= sr);
    }
    true
}

/// The bytes of one token span.
pub open spec fn word_at(s: Seq<u8>, sp: (usize, usize)) -> Seq<u8> {
    s.subrange(sp.0 as int, sp.0 + sp.1)
}

/// The engine's merging relation on words: equal length and equal hash,
/// and, from the fast-equality threshold up, equal content as well.
/// Below the threshold hash-equality alone merges; the census is what
/// justifies reading that as content equality there.
pub open spec fn merged(a: Seq<u8>, b: Seq<u8>) -> bool {
    &&& a.len() == b.len()
    &&& fnv32_spec(a) == fnv32_spec(b)
    &&& (a.len() >= FAST_EQ_THRESHOLD ==> a == b)
}

/// Merging is an equivalence: reflexive, symmetric and transitive.
pub proof fn lemma_merged_equivalence(a: Seq<u8>, b: Seq<u8>, c: Seq<u8>)
    ensures
        merged(a, a),
        merged(a, b) == merged(b, a),
        (merged(a, b) && merged(b, c)) ==> merged(a, c),
{
}

/// Index of the first aggregation row whose word merges with `w`, or -1.
pub open spec fn find_merged(
    s: Seq<u8>,
    rows: Seq<((usize, usize), nat)>,
    w: Seq<u8>,
) -> int
    decreases rows.len(),
{
    if rows.len() == 0 {
        -1
    } else if merged(word_at(s, rows[0].0), w) {
        0
    } else {
        let r = find_merged(s, rows.subrange(1, rows.len() as int), w);
        if r < 0 {
            -1
        } else {
            r + 1
        }
    }
}

/// What `find_merged` returns: -1 exactly when no row merges with `w`,
/// and otherwise the first merging row's index.
pub proof fn lemma_find_merged(s: Seq<u8>, rows: Seq<((usize, usize), nat)>, w: Seq<u8>)
    ensures
        find_merged(s, rows, w) == -1 ==> forall|i: int|
            0 <= i < rows.len() ==> !merged(word_at(s, (#[trigger] rows[i]).0), w),
        find_merged(s, rows, w) != -1 ==> 0 <= find_merged(s, rows, w) < rows.len() && merged(
            word_at(s, rows[find_merged(s, rows, w)].0),
            w,
        ) && forall|i: int|
            0 <= i < find_merged(s, rows, w) ==> !merged(word_at(s, (#[trigger] rows[i]).0), w),
    decreases rows.len(),
{
    if rows.len() > 0 && !merged(word_at(s, rows[0].0), w) {
        let sub = rows.subrange(1, rows.len() as int);
        lemma_find_merged(s, sub, w);
        let fs = find_merged(s, sub, w);
        if fs == -1 {
            assert forall|i: int| 0 <= i < rows.len() implies !merged(
                word_at(s, (#[trigger] rows[i]).0),
                w,
            ) by {
                if i > 0 {
                    assert(sub[i - 1] == rows[i]);
                    assert(!merged(word_at(s, sub[i - 1].0), w));
                }
            }
        } else {
            assert(sub[fs] == rows[fs + 1]);
            assert(merged(word_at(s, rows[fs + 1].0), w));
            assert forall|i: int| 0 <= i < fs + 1 implies !merged(
                word_at(s, (#[trigger] rows[i]).0),
                w,
            ) by {
                if i > 0 {
                    assert(sub[i - 1] == rows[i]);
                    assert(!merged(word_at(s, sub[i - 1].0), w));
                }
            }
        }
    }
}

/// One step of aggregation: count the token into the row it merges with,
/// or open a new row for it with count one.
pub open spec fn agg_step(
    s: Seq<u8>,
    rows: Seq<((usize, usize), nat)>,
    sp: (usize, usize),
) -> Seq<((usize, usize), nat)> {
    let f = find_merged(s, rows, word_at(s, sp));
    if f >= 0 {
        rows.update(f, (rows[f].0, (rows[f].1 + 1) as nat))
    } else {
        rows.push((sp, 1nat))
    }
}

/// The aggregation table after the first `n` tokens, as a sequence of
/// (span of first occurrence, count) rows in order of first occurrence.
pub open spec fn agg_fold(
    s: Seq<u8>,
    spans: Seq<(usize, usize)>,
    n: int,
) -> Seq<((usize, usize), nat)>
    decreases n,
{
    if n <= 0 {
        Seq::empty()
    } else {
        agg_step(s, agg_fold(s, spans, n - 1), spans[n - 1])
    }
}

/// No two rows of the aggregation table ever merge with each other: in
/// particular two hash-equal words of different content at length six or
/// more always keep separate rows.
pub proof fn lemma_agg_fold_distinct(s: Seq<u8>, spans: Seq<(usize, usize)>, n: int)
    ensures
        forall|i: int, j: int|
            0 <= i < j < agg_fold(s, spans, n).len() ==> !merged(
                word_at(s, (#[trigger] agg_fold(s, spans, n)[i]).0),
                word_at(s, (#[trigger] agg_fold(s, spans, n)[j]).0),
            ),
    decreases n,
{
    if n > 0 {
        lemma_agg_fold_distinct(s, spans, n - 1);
        let rows = agg_fold(s, spans, n - 1);
        let w = word_at(s, spans[n - 1]);
        lemma_find_merged(s, rows, w);
        let f = find_merged(s, rows, w);
        if f >= 0 {
            assert(forall|i: int|
                0 <= i < rows.len() ==> (#[trigger] agg_fold(s, spans, n)[i]).0 == rows[i].0);
        } else {
            assert(forall|i: int|
                0 <= i < rows.len() ==> (#[trigger] agg_fold(s, spans, n)[i]).0 == rows[i].0);
            assert forall|i: int, j: int|
                0 <= i < j < agg_fold(s, spans, n).len() implies !merged(
                word_at(s, (#[trigger] agg_fold(s, spans, n)[i]).0),
                word_at(s, (#[trigger] agg_fold(s, spans, n)[j]).0),
            ) by {
                if j == rows.len() {
                    assert(agg_fold(s, spans, n)[j].0 == spans[n - 1]);
                    assert(!merged(word_at(s, rows[i].0), w));
                    lemma_merged_equivalence(word_at(s, rows[i].0), w, w);
                }
            }
        }
    }
}

/// Every one of the first `n` tokens merges with some row of the table.
pub proof fn lemma_agg_fold_covers(s: Seq<u8>, spans: Seq<(usize, usize)>, n: int)
    ensures
        forall|k: int|
            0 <= k < n ==> exists|i: int|
                0 <= i < agg_fold(s, spans, n).len() && merged(
                    word_at(s, (#[trigger] spans[k])),
                    word_at(s, (#[trigger] agg_fold(s, spans, n)[i]).0),
                ),
    decreases n,
{
    if n > 0 {
        lemma_agg_fold_covers(s, spans, n - 1);
        let rows = agg_fold(s, spans, n - 1);
        let w = word_at(s, spans[n - 1]);
        lemma_find_merged(s, rows, w);
        let f = find_merged(s, rows, w);
        assert(forall|i: int|
            0 <= i < rows.len() ==> (#[trigger] agg_fold(s, spans, n)[i]).0 == rows[i].0);
        assert forall|k: int| 0 <= k < n implies exists|i: int|
            0 <= i < agg_fold(s, spans, n).len() && merged(
                word_at(s, (#[trigger] spans[k])),
                word_at(s, (#[trigger] agg_fold(s, spans, n)[i]).0),
            ) by {
            if k == n - 1 {
                if f >= 0 {
                    lemma_merged_equivalence(word_at(s, rows[f].0), w, w);
                    assert(merged(word_at(s, spans[k]), word_at(s, agg_fold(s, spans, n)[f].0)));
                } else {
                    let i = rows.len() as int;
                    lemma_merged_equivalence(w, w, w);
                    assert(merged(word_at(s, spans[k]), word_at(s, agg_fold(s, spans, n)[i].0)));
                }
            } else {
                let i0 = choose|i: int|
                    0 <= i < rows.len() && merged(
                        word_at(s, spans[k]),
                        word_at(s, (#[trigger] rows[i]).0),
                    );
                assert(merged(word_at(s, spans[k]), word_at(s, agg_fold(s, spans, n)[i0].0)));
            }
        }
    }
}

/// Total of all the counts in a sequence of rows.
pub open spec fn sum_counts(rows: Seq<((usize, usize), nat)>) -> nat
    decreases rows.len(),
{
    if rows.len() == 0 {
        0
    } else {
        sum_counts(rows.drop_last()) + rows.last().1
    }
}

/// Bumping one row's count bumps the total by one.
proof fn lemma_sum_counts_update(rows: Seq<((usize, usize), nat)>, i: int)
    requires
        0 <= i < rows.len(),
    ensures
        sum_counts(rows.update(i, (rows[i].0, (rows[i].1 + 1) as nat))) == sum_counts(rows) + 1,
    decreases rows.len(),
{
    let up = rows.update(i, (rows[i].0, (rows[i].1 + 1) as nat));
    if i == rows.len() - 1 {
        assert(up.drop_last() =~= rows.drop_last());
    } else {
        assert(up.drop_last() =~= rows.drop_last().update(i, (rows[i].0, (rows[i].1 + 1) as nat)));
        lemma_sum_counts_update(rows.drop_last(), i);
    }
}

/// No single count exceeds the total.
proof fn lemma_count_le_sum(rows: Seq<((usize, usize), nat)>, i: int)
    requires
        0 <= i < rows.len(),
    ensures
        rows[i].1 <= sum_counts(rows),
    decreases rows.len(),
{
    if i < rows.len() - 1 {
        lemma_count_le_sum(rows.drop_last(), i);
    }
}

/// The counts in the table always add up to the number of tokens seen:
/// every word of the input is counted exactly once in total.
pub proof fn lemma_agg_fold_sum(s: Seq<u8>, spans: Seq<(usize, usize)>, n: int)
    requires
        0 <= n,
    ensures
        sum_counts(agg_fold(s, spans, n)) == n,
    decreases n,
{
    if n > 0 {
        lemma_agg_fold_sum(s, spans, n - 1);
        let rows = agg_fold(s, spans, n - 1);
        let w = word_at(s, spans[n - 1]);
        lemma_find_merged(s, rows, w);
        let f = find_merged(s, rows, w);
        if f >= 0 {
            lemma_sum_counts_update(rows, f);
        } else {
            let pushed = rows.push((spans[n - 1], 1nat));
            assert(pushed.drop_last() =~= rows);
        }
    }
}

/// How many of the first `n` tokens merge with `w`.
pub open spec fn occurrences(s: Seq<u8>, spans: Seq<(usize, usize)>, n: int, w: Seq<u8>) -> nat
    decreases n,
{
    if n <= 0 {
        0
    } else {
        occurrences(s, spans, n - 1, w) + (if merged(word_at(s, spans[n - 1]), w) {
            1nat
        } else {
            0nat
        })
    }
}

/// A word no token merges with occurs zero times.
proof fn lemma_occurrences_zero(s: Seq<u8>, spans: Seq<(usize, usize)>, n: int, w: Seq<u8>)
    requires
        forall|k: int| 0 <= k < n ==> !merged(word_at(s, #[trigger] spans[k]), w),
    ensures
        occurrences(s, spans, n, w) == 0,
    decreases n,
{
    if n > 0 {
        lemma_occurrences_zero(s, spans, n - 1, w);
    }
}

/// Each row's count is exactly the number of tokens that merge with that
/// row's word: the table groups the token stream by the merging relation
/// and counts each class in one row.
pub proof fn lemma_agg_fold_counts(s: Seq<u8>, spans: Seq<(usize, usize)>, n: int)
    requires
        0 <= n,
    ensures
        forall|i: int|
            0 <= i < agg_fold(s, spans, n).len() ==> (#[trigger] agg_fold(s, spans, n)[i]).1
                == occurrences(s, spans, n, word_at(s, agg_fold(s, spans, n)[i].0)),
    decreases n,
{
    if n > 0 {
        lemma_agg_fold_counts(s, spans, n - 1);
        lemma_agg_fold_distinct(s, spans, n - 1);
        lemma_agg_fold_covers(s, spans, n - 1);
        let rows = agg_fold(s, spans, n - 1);
        let cur = agg_fold(s, spans, n);
        let w = word_at(s, spans[n - 1]);
        lemma_find_merged(s, rows, w);
        let f = find_merged(s, rows, w);
        assert forall|i: int| 0 <= i < cur.len() implies (#[trigger] cur[i]).1 == occurrences(
            s,
            spans,
            n,
            word_at(s, cur[i].0),
        ) by {
            if f >= 0 {
                assert(cur[i].0 == rows[i].0);
                let wi = word_at(s, rows[i].0);
                if i == f {
                    lemma_merged_equivalence(w, wi, wi);
                    assert(occurrences(s, spans, n, wi) == occurrences(s, spans, n - 1, wi) + 1);
                } else {
                    if merged(w, wi) {
                        lemma_merged_equivalence(word_at(s, rows[f].0), w, wi);
                        lemma_merged_equivalence(w, word_at(s, rows[f].0), wi);
                        if i < f {
                            lemma_merged_equivalence(word_at(s, rows[i].0), word_at(s, rows[f].0), wi);
                            assert(false);
                        } else {
                            assert(merged(word_at(s, rows[f].0), wi));
                            assert(false);
                        }
                    }
                    lemma_merged_equivalence(w, wi, wi);
                    assert(occurrences(s, spans, n, wi) == occurrences(s, spans, n - 1, wi));
                }
            } else {
                if i < rows.len() {
                    assert(cur[i].0 == rows[i].0);
                    let wi = word_at(s, rows[i].0);
                    if merged(w, wi) {
                        lemma_merged_equivalence(wi, w, w);
                        assert(false);
                    }
                    lemma_merged_equivalence(w, wi, wi);
                    assert(occurrences(s, spans, n, wi) == occurrences(s, spans, n - 1, wi));
                } else {
                    assert(cur[i] == (spans[n - 1], 1nat));
                    assert forall|k: int| 0 <= k < n - 1 implies !merged(
                        word_at(s, #[trigger] spans[k]),
                        w,
                    ) by {
                        if merged(word_at(s, spans[k]), w) {
                            let j = choose|j: int|
                                0 <= j < rows.len() && merged(
                                    word_at(s, spans[k]),
                                    word_at(s, (#[trigger] rows[j]).0),
                                );
                            lemma_merged_equivalence(word_at(s, spans[k]), w, w);
                            lemma_merged_equivalence(w, word_at(s, spans[k]), word_at(s, rows[j].0));
                            lemma_merged_equivalence(word_at(s, rows[j].0), w, w);
                            assert(false);
                        }
                    }
                    lemma_occurrences_zero(s, spans, n - 1, w);
                    lemma_merged_equivalence(w, w, w);
                    assert(occurrences(s, spans, n, w) == 1);
                }
            }
        }
    }
}

/// The bytes of the token starting at `wstart`, `wlen` long.
pub open spec fn token_bytes(s: Seq<u8>, wstart: usize, wlen: usize) -> Seq<u8> {
    s.subrange(wstart as int, wstart as int + wlen as int)
}

/// One slot of the aggregation table: the word reference of the entry's
/// first occurrence, its running count, and the index of the previous
/// entry with the same word key, if any.  Entries with equal keys form a
/// chain through `prev`, newest first.
#[derive(Clone, Copy)]
struct AggEntry {
    word: WordRef,
    count: u32,
    prev: Option<usize>,
}

/// Every entry's word reference is well-formed against the buffer.
spec fn entries_wf(s: Seq<u8>, entries: Seq<AggEntry>) -> bool {
    forall|i: int| 0 <= i < entries.len() ==> (#[trigger] entries[i]).word.wf(s)
}

/// The `prev` links step to the nearest earlier entry of the same key,
/// skipping nothing: between an entry and its `prev` there is no other
/// entry with that key, and an entry with `prev` `None` is its key's first.
spec fn chain_links_wf(s: Seq<u8>, entries: Seq<AggEntry>) -> bool {
    forall|i: int|
        0 <= i < entries.len() ==> match (#[trigger] entries[i]).prev {
            Some(p) => p < i && entries[p as int].word.key() == entries[i].word.key() && forall|
                l: int,
            |
                p < l < i ==> (#[trigger] entries[l]).word.key() != entries[i].word.key(),
            None => forall|l: int|
                0 <= l < i ==> (#[trigger] entries[l]).word.key() != entries[i].word.key(),
        }
}

/// The bucket map sends each present key to its newest entry, and every
/// entry's key is present.
spec fn table_wf(s: Seq<u8>, entries: Seq<AggEntry>, m: Map<u64, usize>) -> bool {
    &&& forall|k: u64|
        #[trigger] m.dom().contains(k) ==> (m[k] < entries.len() && entries[m[k] as int].word.key()
            == k && forall|l: int|
            m[k] < l < entries.len() ==> (#[trigger] entries[l]).word.key() != k)
    &&& forall|i: int|
        0 <= i < entries.len() ==> m.dom().contains((#[trigger] entries[i]).word.key())
}

/// No entry from `from` on whose key is `key` merges with `w`.
spec fn cleared_from(s: Seq<u8>, entries: Seq<AggEntry>, key: u64, from: int, w: Seq<u8>) -> bool {
    forall|l: int|
        from <= l < entries.len() && (#[trigger] entries[l]).word.key() == key ==> !merged(
            entries[l].word.bytes_of(s),
            w,
        )
}

/// Walks one key chain of the table, newest entry first, and returns the
/// index of the entry whose word merges with the token at `wstart`, if
/// there is one.  Entries under other keys cannot merge with it, so
/// checking the token's own chain is a full search.
fn chain_find(
    text: &Vec<u8>,
    entries: &Vec<AggEntry>,
    wstart: usize,
    wlen: usize,
    key: u64,
    cursor: Option<usize>,
) -> (r: Option<usize>)
    requires
        wstart + wlen <= text@.len(),
        wlen < 0x1_0000_0000,
        key == pack_key(fnv32_spec(token_bytes(text@, wstart, wlen)), wlen as u32),
        entries_wf(text@, entries@),
        chain_links_wf(text@, entries@),
        match cursor {
            Some(j) => j < entries@.len() && entries@[j as int].word.key() == key && cleared_from(
                text@,
                entries@,
                key,
                j + 1,
                token_bytes(text@, wstart, wlen),
            ),
            None => cleared_from(text@, entries@, key, 0, token_bytes(text@, wstart, wlen)),
        },
    ensures
        (match r {
            Some(i) => i < entries@.len() && merged(
                entries@[i as int].word.bytes_of(text@),
                token_bytes(text@, wstart, wlen),
            ),
            None => forall|i: int|
                0 <= i < entries@.len() ==> !merged(
                    (#[trigger] entries@[i]).word.bytes_of(text@),
                    token_bytes(text@, wstart, wlen),
                ),
        }),
    decreases (match cursor {
        Some(j) => j + 1,
        None => 0,
    }),
{
    let ghost w = token_bytes(text@, wstart, wlen);
    match cursor {
        None => {
            proof {
                assert forall|i: int| 0 <= i < entries@.len() implies !merged(
                    (#[trigger] entries@[i]).word.bytes_of(text@),
                    w,
                ) by {
                    let e = entries@[i].word;
                    if e.key() != key && merged(e.bytes_of(text@), w) {
                        assert(e.key() == pack_key(fnv32_spec(e.bytes_of(text@)), e.len_spec() as u32));
                        let ke = e.key();
                        assert(ke & 0xffff_ffff < 0x1_0000_0000u64) by (bit_vector);
                        assert(e.bytes_of(text@).len() == e.len_spec());
                        assert(e.len_spec() == wlen);
                        assert(false);
                    }
                }
            }
            None
        },
        Some(j) => {
            let e = entries[j];
            proof {
                lemma_pack_key_low(fnv32_spec(w), wlen as u32);
                let ke = e.word.key();
                assert(ke & 0xffff_ffff < 0x1_0000_0000u64) by (bit_vector);
                assert(e.word.len_spec() == wlen);
            }
            let hit = fast_eq(text, e.word.start, wstart, wlen);
            if hit {
                proof {
                    lemma_pack_key_injective(
                        fnv32_spec(e.word.bytes_of(text@)),
                        e.word.len_spec() as u32,
                        fnv32_spec(w),
                        wlen as u32,
                    );
                    assert(e.word.bytes_of(text@) == text@.subrange(
                        e.word.start_spec() as int,
                        e.word.start_spec() as int + wlen as int,
                    ));
                    assert(merged(e.word.bytes_of(text@), w));
                }
                Some(j)
            } else {
                proof {
                    assert(e.word.bytes_of(text@) == text@.subrange(
                        e.word.start_spec() as int,
                        e.word.start_spec() as int + wlen as int,
                    ));
                    assert(wlen >= FAST_EQ_THRESHOLD);
                    assert(!merged(e.word.bytes_of(text@), w));
                    assert forall|l: int|
                        (match e.prev {
                            Some(p) => p + 1,
                            None => 0,
                        }) <= l < entries@.len() && (#[trigger] entries@[l]).word.key() == key implies !merged(
                        entries@[l].word.bytes_of(text@),
                        w,
                    ) by {
                        if l < j {
                            assert(entries@[j as int].prev is Some);
                        } else if l == j {
                        } else {
                            assert(cleared_from(text@, entries@, key, j + 1, w));
                        }
                    }
                }
                chain_find(text, entries, wstart, wlen, key, e.prev)
            }
        },
    }
}

/// The abstract rows of a finished result: first-occurrence span and
/// count for each entry, in order.
pub open spec fn abs_pairs(r: Seq<(WordRef, u32)>) -> Seq<((usize, usize), nat)> {
    Seq::new(
        r.len(),
        |i: int| ((r[i].0.start_spec(), r[i].0.len_spec()), r[i].1 as nat),
    )
}

/// The abstract rows of the internal entry vector.
spec fn abs_entries(entries: Seq<AggEntry>) -> Seq<((usize, usize), nat)> {
    Seq::new(
        entries.len(),
        |i: int| ((entries[i].word.start_spec(), entries[i].word.len_spec()), entries[i].count as nat),
    )
}

/// Counts the tokens of `spans` in one pass.  The table is keyed by the
/// packed word key itself — the key is the hash, no second hashing pass —
/// and on every key match the fast equality comparator decides whether
/// the token joins the entry or opens a new one.  The result lists one
/// entry per merged class, in order of first occurrence, each carrying
/// the word reference of its first occurrence and the class's count.
pub fn aggregate(text: &Vec<u8>, spans: &Vec<(usize, usize)>) -> (r: Vec<(WordRef, u32)>)
    requires
        text@.len() < 0x1_0000_0000,
        spans@.len() < 0x1_0000_0000,
        forall|k: int|
            0 <= k < spans@.len() ==> (#[trigger] spans@[k]).0 + spans@[k].1 <= text@.len(),
        forall|k: int|
            0 <= k < spans@.len() ==> all_lowercase(word_at(text@, #[trigger] spans@[k])),
    ensures
        abs_pairs(r@) == agg_fold(text@, spans@, spans@.len() as int),
        forall|i: int| 0 <= i < r@.len() ==> (#[trigger] r@[i]).0.wf(text@),
{
    let nspans = spans.len();
    let mut entries: Vec<AggEntry> = Vec::new();
    let mut table: HashMap<u64, usize> = HashMap::new();
    let mut t: usize = 0;
    while t < nspans
        invariant
            nspans == spans@.len(),
            0 <= t <= nspans,
            text@.len() < 0x1_0000_0000,
            spans@.len() < 0x1_0000_0000,
            forall|k: int|
                0 <= k < spans@.len() ==> (#[trigger] spans@[k]).0 + spans@[k].1 <= text@.len(),
            forall|k: int|
                0 <= k < spans@.len() ==> all_lowercase(word_at(text@, #[trigger] spans@[k])),
            entries_wf(text@, entries@),
            chain_links_wf(text@, entries@),
            table_wf(text@, entries@, table@),
            abs_entries(entries@) == agg_fold(text@, spans@, t as int),
        decreases nspans - t,
    {
        let sp = spans[t];
        let wstart = sp.0;
        let wlen = sp.1;
        let ghost s = text@;
        let ghost rows = abs_entries(entries@);
        let ghost w = token_bytes(text@, wstart, wlen);
        proof {
            assert(w == word_at(s, spans@[t as int]));
        }
        let wr = WordRef::from_ascii_word(text, wstart, wlen);
        let key = wr.lenhash;
        let head: Option<usize> = match table.get(&key) {
            Some(h) => Some(*h),
            None => None,
        };
        proof {
            lemma_find_merged(s, rows, w);
            lemma_agg_fold_distinct(s, spans@, t as int);
            assert(forall|i: int|
                0 <= i < entries@.len() ==> word_at(s, (#[trigger] rows[i]).0) == entries@[i].word.bytes_of(s));
            match head {
                Some(h) => {
                    assert(table@.dom().contains(key));
                    assert(table@[key] == h);
                    assert forall|l: int|
                        h + 1 <= l < entries@.len() && (#[trigger] entries@[l]).word.key() == key implies !merged(
                        entries@[l].word.bytes_of(s),
                        w,
                    ) by {
                        assert(false);
                    }
                },
                None => {
                    assert(!table@.dom().contains(key));
                    assert forall|l: int|
                        0 <= l < entries@.len() && (#[trigger] entries@[l]).word.key() == key implies !merged(
                        entries@[l].word.bytes_of(s),
                        w,
                    ) by {
                        assert(table@.dom().contains(entries@[l].word.key()));
                        assert(false);
                    }
                },
            }
        }
        let found = chain_find(text, &entries, wstart, wlen, key, head);
        match found {
            Some(idx) => {
                proof {
                    let f = find_merged(s, rows, w);
                    assert(merged(word_at(s, rows[idx as int].0), w));
                    assert(f != -1);
                    if f != idx {
                        let wf_ = word_at(s, rows[f].0);
                        let wi_ = word_at(s, rows[idx as int].0);
                        lemma_merged_equivalence(w, wf_, wi_);
                        lemma_merged_equivalence(wi_, w, wf_);
                        lemma_merged_equivalence(wf_, wi_, w);
                        assert(merged(wi_, wf_) && merged(wf_, wi_));
                        assert(false);
                    }
                    lemma_agg_fold_sum(s, spans@, t as int);
                    lemma_count_le_sum(rows, idx as int);
                    assert(entries@[idx as int].count as nat == rows[idx as int].1);
                }
                let e = entries[idx];
                entries[idx] = AggEntry { word: e.word, count: e.count + 1, prev: e.prev };
                proof {
                    let ghost newrows = rows.update(idx as int, (rows[idx as int].0, (rows[idx as int].1 + 1) as nat));
                    assert(abs_entries(entries@) =~= newrows);
                    assert(agg_fold(s, spans@, t as int + 1) == agg_step(s, rows, spans@[t as int]));
                    assert(agg_step(s, rows, spans@[t as int]) == newrows);
                    assert(forall|i: int|
                        0 <= i < entries@.len() ==> (#[trigger] entries@[i]).word.wf(s));
                }
            },
            None => {
                proof {
                    let f = find_merged(s, rows, w);
                    if f != -1 {
                        assert(merged(word_at(s, rows[f].0), w));
                        assert(!merged(entries@[f].word.bytes_of(s), w));
                        assert(false);
                    }
                }
                let new_idx = entries.len();
                let ghost pre_entries = entries@;
                entries.push(AggEntry { word: wr, count: 1, prev: head });
                table.insert(key, new_idx);
                proof {
                    assert(entries@ == pre_entries.push(AggEntry { word: wr, count: 1u32, prev: head }));
                    assert(abs_entries(entries@) =~= rows.push(((wstart, wlen), 1nat)));
                    assert(agg_fold(s, spans@, t as int + 1) == agg_step(s, rows, spans@[t as int]));
                    assert(spans@[t as int] == (wstart, wlen));
                    assert forall|i: int| 0 <= i < entries@.len() implies match (#[trigger] entries@[i]).prev {
                        Some(p) => p < i && entries@[p as int].word.key() == entries@[i].word.key()
                            && forall|l: int|
                                p < l < i ==> (#[trigger] entries@[l]).word.key() != entries@[i].word.key(),
                        None => forall|l: int|
                            0 <= l < i ==> (#[trigger] entries@[l]).word.key() != entries@[i].word.key(),
                    } by {
                        if i < pre_entries.len() {
                            assert(entries@[i] == pre_entries[i]);
                            assert(chain_links_wf(s, pre_entries));
                            match pre_entries[i].prev {
                                Some(p) => {
                                    assert(forall|l: int|
                                        p < l < i ==> (#[trigger] pre_entries[l]).word.key() != pre_entries[i].word.key());
                                    assert(forall|l: int|
                                        p < l < i ==> (#[trigger] entries@[l]).word.key() != entries@[i].word.key());
                                },
                                None => {
                                    assert(forall|l: int|
                                        0 <= l < i ==> (#[trigger] entries@[l]).word.key() != entries@[i].word.key());
                                },
                            }
                        } else {
                            assert(i == new_idx);
                            assert(entries@[i].word.key() == key);
                            match head {
                                Some(h) => {
                                    assert(entries@[i].prev == Some(h));
                                },
                                None => {
                                    assert(entries@[i].prev is None);
                                },
                            }
                        }
                    }
                }
            },
        }
        t = t + 1;
    }
    let mut out: Vec<(WordRef, u32)> = Vec::new();
    let n_entries = entries.len();
    let mut q: usize = 0;
    while q < n_entries
        invariant
            n_entries == entries@.len(),
            0 <= q <= n_entries,
            out@.len() == q,
            entries_wf(text@, entries@),
            forall|i: int| 0 <= i < q ==> #[trigger] out@[i] == (entries@[i].word, entries@[i].count),
        decreases n_entries - q,
    {
        let e = entries[q];
        out.push((e.word, e.count));
        q = q + 1;
    }
    proof {
        assert(abs_pairs(out@) =~= abs_entries(entries@));
    }
    out
}

/// Every span of a valid tokenization starts at or after its own index,
/// because starts strictly increase.
proof fn lemma_span_start_at_least(s: Seq<u8>, spans: Seq<(usize, usize)>, k: int)
    requires
        spans_valid(s, spans),
        0 <= k < spans.len(),
    ensures
        spans[k].0 >= k,
    decreases k,
{
    if k > 0 {
        lemma_span_start_at_least(s, spans, k - 1);
    }
}

/// A buffer cannot hold more words than bytes.
pub proof fn lemma_spans_len(s: Seq<u8>, spans: Seq<(usize, usize)>)
    requires
        spans_valid(s, spans),
    ensures
        spans.len() <= s.len(),
{
    if spans.len() > 0 {
        let k = spans.len() - 1;
        lemma_span_start_at_least(s, spans, k);
    }
}

/// What one full run of the engine guarantees: the buffer is the
/// normalized image of the input, every returned word reference is
/// well-formed against it, and the returned rows are exactly the
/// aggregation of the buffer's maximal alphabetic runs.
pub open spec fn wordcount_post(input: Seq<u8>, normed: Seq<u8>, r: Seq<(WordRef, u32)>) -> bool {
    &&& normed == normalize_spec(input)
    &&& forall|i: int| 0 <= i < r.len() ==> (#[trigger] r[i]).0.wf(normed)
    &&& exists|spans: Seq<(usize, usize)>|
        #[trigger] spans_valid(normed, spans) && abs_pairs(r) == agg_fold(
            normed,
            spans,
            spans.len() as int,
        )
}

/// Runs the engine over one buffer: folds it to lower case in place,
/// splits it into words, and returns one (word reference, count) row per
/// merged class, in order of first occurrence.
pub fn wordcount(text: &mut Vec<u8>) -> (r: Vec<(WordRef, u32)>)
    requires
        old(text)@.len() < 0x1_0000_0000,
    ensures
        wordcount_post(old(text)@, final(text)@, r@),
{
    normalize(text);
    let spans = find_words(text);
    proof {
        lemma_spans_len(text@, spans@);
        assert forall|k: int|
            0 <= k < spans@.len() implies all_lowercase(word_at(text@, #[trigger] spans@[k])) by {
            let sp = spans@[k];
            assert(valid_span(text@, sp));
            assert forall|j: int|
                0 <= j < word_at(text@, sp).len() implies is_lowercase(word_at(text@, sp)[j]) by {
                let pos = sp.0 + j;
                assert(is_alpha_spec(text@[pos]));
                assert(text@[pos] == fold_byte(old(text)@[pos]));
                lemma_fold_byte(old(text)@[pos]);
            }
        }
    }
    let counts = aggregate(text, &spans);
    proof {
        assert(spans_valid(text@, spans@) && abs_pairs(counts@) == agg_fold(
            text@,
            spans@,
            spans@.len() as int,
        ));
    }
    counts
}

/// The total of all reported counts equals the number of maximal
/// alphabetic runs of the normalized buffer.
pub proof fn lemma_total_count(normed: Seq<u8>, spans: Seq<(usize, usize)>, r: Seq<(WordRef, u32)>)
    requires
        spans_valid(normed, spans),
        abs_pairs(r) == agg_fold(normed, spans, spans.len() as int),
    ensures
        sum_counts(abs_pairs(r)) == spans.len(),
{
    lemma_agg_fold_sum(normed, spans, spans.len() as int);
}

/// Case-insensitivity: two all-letter words that agree up to letter case
/// normalize to the same bytes, and so merge into the same entry.
pub proof fn lemma_case_insensitive(a: Seq<u8>, b: Seq<u8>)
    requires
        a.len() == b.len(),
        forall|i: int| 0 <= i < a.len() ==> is_alpha_spec(#[trigger] a[i]),
        forall|i: int| 0 <= i < b.len() ==> is_alpha_spec(#[trigger] b[i]),
        forall|i: int| 0 <= i < a.len() ==> fold_byte(#[trigger] a[i]) == fold_byte(b[i]),
    ensures
        normalize_spec(a) == normalize_spec(b),
        merged(normalize_spec(a), normalize_spec(b)),
{
    assert(normalize_spec(a) =~= normalize_spec(b));
    lemma_merged_equivalence(normalize_spec(a), normalize_spec(b), normalize_spec(b));
}

/// A buffer with no alphabetic byte — the empty buffer included — yields
/// no words and therefore an empty result.
pub proof fn lemma_no_alpha_empty_output(input: Seq<u8>, normed: Seq<u8>, r: Seq<(WordRef, u32)>)
    requires
        wordcount_post(input, normed, r),
        forall|j: int| 0 <= j < input.len() ==> !is_alpha_spec(#[trigger] input[j]),
    ensures
        r.len() == 0,
        normed == input,
{
    assert forall|j: int| 0 <= j < input.len() implies normed[j] == input[j] by {
        lemma_fold_byte(input[j]);
    }
    assert(normed =~= input);
    let spans = choose|spans: Seq<(usize, usize)>|
        #[trigger] spans_valid(normed, spans) && abs_pairs(r) == agg_fold(
            normed,
            spans,
            spans.len() as int,
        );
    if spans.len() > 0 {
        let sp = spans[0];
        assert(valid_span(normed, sp));
        assert(is_alpha_spec(normed[sp.0 as int]));
        assert(false);
    }
    assert(abs_pairs(r).len() == 0);
}

/// Two valid tokenizations of one buffer are the same: maximal runs are
/// determined by the buffer alone, and the order by their starts.
pub proof fn lemma_spans_unique(s: Seq<u8>, sp1: Seq<(usize, usize)>, sp2: Seq<(usize, usize)>)
    requires
        spans_valid(s, sp1),
        spans_valid(s, sp2),
    ensures
        sp1 == sp2,
{
    assert forall|k: int| 0 <= k < sp1.len() && k < sp2.len() implies sp1[k] == sp2[k] by {
        lemma_spans_prefix_eq(s, sp1, sp2, k);
    }
    if sp1.len() < sp2.len() {
        let m = sp1.len() as int;
        let b = sp2[m];
        assert(is_alpha_spec(s[b.0 as int]));
        let k1 = choose|i: int|
            0 <= i < sp1.len() && (#[trigger] sp1[i]).0 <= b.0 < sp1[i].0 + sp1[i].1;
        lemma_same_run(s, b, sp1[k1], b.0 as int);
        assert(sp2[k1] == sp1[k1]);
        assert(sp2[k1].0 < sp2[m].0);
        assert(false);
    } else if sp2.len() < sp1.len() {
        let m = sp2.len() as int;
        let b = sp1[m];
        assert(is_alpha_spec(s[b.0 as int]));
        let k1 = choose|i: int|
            0 <= i < sp2.len() && (#[trigger] sp2[i]).0 <= b.0 < sp2[i].0 + sp2[i].1;
        lemma_same_run(s, b, sp2[k1], b.0 as int);
        assert(sp1[k1] == sp2[k1]);
        assert(sp1[k1].0 < sp1[m].0);
        assert(false);
    }
    assert(sp1 =~= sp2);
}

/// Two spans of valid tokenizations that share a position are equal.
proof fn lemma_same_run(s: Seq<u8>, a: (usize, usize), b: (usize, usize), j: int)
    requires
        valid_span(s, a),
        valid_span(s, b),
        a.0 <= j < a.0 + a.1,
        b.0 <= j < b.0 + b.1,
    ensures
        a == b,
{
    if a.0 < b.0 {
        assert(is_alpha_spec(s[b.0 - 1]));
        assert(false);
    }
    if b.0 < a.0 {
        assert(is_alpha_spec(s[a.0 - 1]));
        assert(false);
    }
    if a.0 + a.1 < b.0 + b.1 {
        assert(is_alpha_spec(s[a.0 + a.1]));
        assert(false);
    }
    if b.0 + b.1 < a.0 + a.1 {
        assert(is_alpha_spec(s[b.0 + b.1]));
        assert(false);
    }
}

/// Position-by-position, two valid tokenizations agree.
proof fn lemma_spans_prefix_eq(
    s: Seq<u8>,
    sp1: Seq<(usize, usize)>,
    sp2: Seq<(usize, usize)>,
    k: int,
)
    requires
        spans_valid(s, sp1),
        spans_valid(s, sp2),
        0 <= k < sp1.len(),
        k < sp2.len(),
    ensures
        sp1[k] == sp2[k],
    decreases k,
{
    let a = sp1[k];
    assert(is_alpha_spec(s[a.0 as int]));
    let k2 = choose|i: int|
        0 <= i < sp2.len() && (#[trigger] sp2[i]).0 <= a.0 < sp2[i].0 + sp2[i].1;
    lemma_same_run(s, a, sp2[k2], a.0 as int);
    if k2 < k {
        lemma_spans_prefix_eq(s, sp1, sp2, k2);
        assert(sp1[k2] == sp2[k2]);
        assert(sp1[k2].0 < sp1[k].0);
        assert(false);
    } else if k2 > k {
        let b = sp2[k];
        assert(is_alpha_spec(s[b.0 as int]));
        let k1 = choose|i: int|
            0 <= i < sp1.len() && (#[trigger] sp1[i]).0 <= b.0 < sp1[i].0 + sp1[i].1;
        lemma_same_run(s, b, sp1[k1], b.0 as int);
        assert(sp2[k].0 < sp2[k2].0);
        assert(sp1[k1].0 == sp2[k].0);
        assert(sp1[k1].0 < sp1[k].0);
        if k1 < k {
            lemma_spans_prefix_eq(s, sp1, sp2, k1);
            assert(sp2[k1] == sp1[k1]);
            assert(sp2[k1].0 == sp2[k].0);
            assert(k1 < k ==> sp2[k1].0 < sp2[k].0);
            assert(false);
        } else {
            assert(k1 >= k);
            assert(sp1[k].0 <= sp1[k1].0);
            assert(sp1[k].0 < sp1[k].0);
            assert(false);
        }
    }
}

/// Determinism: two runs of the engine over the same input leave the
/// same buffer and return the same rows, byte for byte and count for
/// count.
pub proof fn lemma_wordcount_deterministic(
    input: Seq<u8>,
    n1: Seq<u8>,
    r1: Seq<(WordRef, u32)>,
    n2: Seq<u8>,
    r2: Seq<(WordRef, u32)>,
)
    requires
        wordcount_post(input, n1, r1),
        wordcount_post(input, n2, r2),
    ensures
        n1 == n2,
        r1 == r2,
{
    let spans1 = choose|spans: Seq<(usize, usize)>|
        #[trigger] spans_valid(n1, spans) && abs_pairs(r1) == agg_fold(
            n1,
            spans,
            spans.len() as int,
        );
    let spans2 = choose|spans: Seq<(usize, usize)>|
        #[trigger] spans_valid(n2, spans) && abs_pairs(r2) == agg_fold(
            n2,
            spans,
            spans.len() as int,
        );
    lemma_spans_unique(n1, spans1, spans2);
    assert(abs_pairs(r1) == abs_pairs(r2));
    assert(r1.len() == abs_pairs(r1).len());
    assert forall|i: int| 0 <= i < r1.len() implies r1[i] == r2[i] by {
        let a = r1[i].0;
        let b = r2[i].0;
        assert(abs_pairs(r1)[i] == abs_pairs(r2)[i]);
        assert(a.start_spec() == b.start_spec());
        assert(a.len_spec() == b.len_spec());
        assert(a.wf(n1) && b.wf(n1));
        assert(a.bytes_of(n1) == b.bytes_of(n1));
        assert(a.key() == b.key());
        assert(r1[i].1 as nat == r2[i].1 as nat);
    }
    assert(r1 =~= r2);
}

/// No two result rows merge: words of different content never share a
/// row once their length reaches the threshold, however their word keys
/// collide, and below the threshold each key keeps exactly one row.
pub proof fn lemma_rows_distinct(input: Seq<u8>, normed: Seq<u8>, r: Seq<(WordRef, u32)>)
    requires
        wordcount_post(input, normed, r),
    ensures
        forall|i: int, j: int|
            0 <= i < j < r.len() ==> !merged(
                (#[trigger] r[i]).0.bytes_of(normed),
                (#[trigger] r[j]).0.bytes_of(normed),
            ),
{
    let spans = choose|spans: Seq<(usize, usize)>|
        #[trigger] spans_valid(normed, spans) && abs_pairs(r) == agg_fold(
            normed,
            spans,
            spans.len() as int,
        );
    lemma_agg_fold_distinct(normed, spans, spans.len() as int);
    assert forall|i: int, j: int| 0 <= i < j < r.len() implies !merged(
        (#[trigger] r[i]).0.bytes_of(normed),
        (#[trigger] r[j]).0.bytes_of(normed),
    ) by {
        let rows = agg_fold(normed, spans, spans.len() as int);
        assert(abs_pairs(r)[i] == rows[i]);
        assert(abs_pairs(r)[j] == rows[j]);
        assert(word_at(normed, rows[i].0) == r[i].0.bytes_of(normed));
        assert(word_at(normed, rows[j].0) == r[j].0.bytes_of(normed));
    }
}

/// Each result row's count is exactly the number of words of the
/// normalized buffer that merge with that row's word: equal words — in
/// particular words that differed only in case before normalization —
/// are all counted in the one row they merge with.
pub proof fn lemma_row_counts(normed: Seq<u8>, spans: Seq<(usize, usize)>, r: Seq<(WordRef, u32)>)
    requires
        spans_valid(normed, spans),
        abs_pairs(r) == agg_fold(normed, spans, spans.len() as int),
    ensures
        forall|i: int|
            0 <= i < r.len() ==> (#[trigger] r[i]).1 as nat == occurrences(
                normed,
                spans,
                spans.len() as int,
                r[i].0.bytes_of(normed),
            ),
{
    lemma_agg_fold_counts(normed, spans, spans.len() as int);
    assert forall|i: int| 0 <= i < r.len() implies (#[trigger] r[i]).1 as nat == occurrences(
        normed,
        spans,
        spans.len() as int,
        r[i].0.bytes_of(normed),
    ) by {
        let rows = agg_fold(normed, spans, spans.len() as int);
        assert(abs_pairs(r)[i] == rows[i]);
        assert(word_at(normed, rows[i].0) == r[i].0.bytes_of(normed));
    }
}

} // verus!
