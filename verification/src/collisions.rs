//! The collision census: enumerates every fixed-length lowercase string
//! that the base-26 numbering reaches, hashes each, and counts how often
//! a hash value recurs, using one bit per possible 32-bit hash value.
//! Its report that short lengths see zero reuse is what entitles the
//! counting engine to treat short hash-equal words as content-equal.

use vstd::arithmetic::div_mod::{
    lemma_basic_div, lemma_div_by_self, lemma_div_decreases, lemma_div_denominator,
    lemma_div_is_ordered,
};
use vstd::arithmetic::power::{lemma_pow_adds, lemma_pow_increases, lemma_pow_positive, pow};
use vstd::prelude::*;

use crate::hash::{all_lowercase, fnv32, fnv32_spec};

verus! {

/// Longest word length the census handles.
pub const MAX_LEN: usize = 8;

/// Size of the enumeration alphabet, the lowercase letters.
pub const ALPHABET_LEN: u64 = 26;

/// Powers of the alphabet size.
pub open spec fn pow26(e: nat) -> int {
    pow(26, e)
}

/// The powers of 26 the census works with, written out.
proof fn lemma_pow26_values()
    ensures
        pow26(0) == 1,
        pow26(1) == 26,
        pow26(7) == 8031810176,
        pow26(8) == 208827064576,
{
    reveal_with_fuel(pow, 9);
}

/// One bit per 32-bit value, packed eight to a byte.
pub struct U32Bitmask(Vec<u8>);

impl U32Bitmask {
    /// The backing vector really holds one bit per 32-bit value.
    pub closed spec fn wf(self) -> bool {
        self.0@.len() == 0x2000_0000
    }

    /// Whether bit `i` is set.
    pub closed spec fn bit(self, i: u32) -> bool {
        ((self.0@[i as int / 8] as u32) >> (i % 8)) & 1u32 == 1u32
    }

    /// Sets bit `i`, leaving every other bit as it was.
    pub fn set(&mut self, i: u32)
        requires
            old(self).wf(),
        ensures
            final(self).wf(),
            forall|j: u32| final(self).bit(j) == (old(self).bit(j) || j == i),
    {
        proof {
            lemma_bv_fields(i, i);
        }
        let idx = (i / 8) as usize;
        let offset = (i % 8) as u8;
        let b = self.0[idx];
        self.0[idx] = b | (1u8 << offset);
        proof {
            assert forall|j: u32| self.bit(j) == (old(self).bit(j) || j == i) by {
                lemma_bv_fields(j, i);
                if j / 8 == i / 8 {
                    lemma_bv_set(b, offset, j % 8, i % 8);
                } else {
                    assert(self.0@[j as int / 8] == old(self).0@[j as int / 8]);
                }
            }
        }
    }

    /// Reads bit `i`.
    pub fn get(&self, i: u32) -> (r: bool)
        requires
            self.wf(),
        ensures
            r == self.bit(i),
    {
        proof {
            lemma_bv_fields(i, i);
        }
        let idx = (i / 8) as usize;
        let offset = (i % 8) as u8;
        let b = self.0[idx];
        proof {
            lemma_bv_get(b, offset);
        }
        (b & (1u8 << offset)) != 0
    }
}

impl Default for U32Bitmask {
    /// A fresh bit set over the whole 32-bit space, all bits clear.
    fn default() -> (r: Self)
        ensures
            r.wf(),
            forall|j: u32| !r.bit(j),
    {
        let v: Vec<u8> = vec![0u8; 0x2000_0000];
        proof {
            assert(forall|t: int| 0 <= t < v@.len() ==> #[trigger] v@[t] == 0u8);
            assert forall|j: u32| !(U32Bitmask(v).bit(j)) by {
                lemma_bv_fields(j, j);
                lemma_bv_zero(j % 8);
            }
        }
        U32Bitmask(v)
    }
}

/// Byte index and bit offset of a packed bit, and when two bit positions
/// coincide.
proof fn lemma_bv_fields(j: u32, i: u32)
    by (bit_vector)
    ensures
        j / 8 < 0x2000_0000,
        j % 8 < 8,
        (j == i) <==> (j / 8 == i / 8 && j % 8 == i % 8),
{
}

/// Setting one bit of a byte: the named bit reads back set, the rest are
/// unchanged.
proof fn lemma_bv_set(b: u8, o: u8, k: u32, ko: u32)
    by (bit_vector)
    requires
        o < 8,
        k < 8,
        ko < 8,
        o as u32 == ko,
    ensures
        (((b | (1u8 << o)) as u32) >> k) & 1u32 == (if k == ko {
            1u32
        } else {
            ((b as u32) >> k) & 1u32
        }),
{
}

/// Testing a bit with a mask agrees with shifting it down.
proof fn lemma_bv_get(b: u8, o: u8)
    by (bit_vector)
    requires
        o < 8,
    ensures
        ((b & (1u8 << o)) != 0) == (((b as u32) >> (o as u32)) & 1u32 == 1u32),
{
}

/// No bit of a zero byte is set.
proof fn lemma_bv_zero(k: u32)
    by (bit_vector)
    ensures
        ((0u8 as u32) >> k) & 1u32 != 1u32,
{
}

/// The string the census assigns to the integer `i`: digit `j` of `i` in
/// base 26 becomes byte `j`, as a lowercase letter.
pub open spec fn census_word(i: int, len: int) -> Seq<u8> {
    Seq::new(len as nat, |j: int| (97 + (i / pow26(j as nat)) % 26) as u8)
}

/// The hash of that string.
pub open spec fn census_hash(i: int, len: int) -> u32 {
    fnv32_spec(census_word(i, len))
}

/// Whether some earlier integer of the enumeration, from `lo` on, already
/// produced the hash of integer `i`.
pub open spec fn seen_before(len: int, lo: int, i: int) -> bool {
    exists|t: int| lo <= t < i && census_hash(t, len) == census_hash(i, len)
}

/// How many integers in `[lo, hi)` reuse a hash some earlier integer of
/// the range already produced.
pub open spec fn collision_count(len: int, lo: int, hi: int) -> nat
    decreases hi - lo,
{
    if hi <= lo {
        0
    } else {
        collision_count(len, lo, hi - 1) + (if seen_before(len, lo, hi - 1) {
            1nat
        } else {
            0nat
        })
    }
}

/// Writes `data` in base 26, lowest digit first, one lowercase letter per
/// digit, zero-padded to the full word width.
pub fn to_word(data: u64) -> (w: Vec<u8>)
    requires
        data < pow26(MAX_LEN as nat),
    ensures
        w@.len() == MAX_LEN,
        forall|j: int|
            0 <= j < MAX_LEN ==> w@[j] == (if data as int / pow26(j as nat) > 0 {
                (97 + (data as int / pow26(j as nat)) % 26) as u8
            } else {
                0u8
            }),
{
    let mut w: Vec<u8> = vec![0u8; 8];
    let mut d: u64 = data;
    let mut idx: usize = 0;
    proof {
        lemma_pow26_values();
    }
    while d > 0
        invariant
            w@.len() == MAX_LEN,
            0 <= idx <= MAX_LEN,
            data < pow26(MAX_LEN as nat),
            d as int == data as int / pow26(idx as nat),
            idx == MAX_LEN ==> d == 0,
            forall|j: int|
                0 <= j < idx ==> w@[j] == (if data as int / pow26(j as nat) > 0 {
                    (97 + (data as int / pow26(j as nat)) % 26) as u8
                } else {
                    0u8
                }),
            forall|j: int| idx <= j < MAX_LEN ==> w@[j] == 0u8,
        decreases d,
    {
        proof {
            if idx == MAX_LEN {
                assert(false);
            }
        }
        let c = (d % ALPHABET_LEN) as u8;
        w[idx] = 97 + c;
        let prev = d;
        d = d / ALPHABET_LEN;
        proof {
            lemma_pow_positive(26, idx as nat);
            lemma_div_denominator(data as int, pow26(idx as nat), 26);
            lemma_pow_adds(26, idx as nat, 1);
            lemma_pow26_values();
            assert(pow26((idx + 1) as nat) == pow26(idx as nat) * 26);
            assert((data as int / pow26(idx as nat)) / 26 == data as int / pow26((idx + 1) as nat));
            lemma_div_decreases(prev as int, 26);
            if idx + 1 == MAX_LEN {
                lemma_pow_positive(26, MAX_LEN as nat);
                lemma_basic_div(data as int, pow26(MAX_LEN as nat));
            }
        }
        idx = idx + 1;
    }
    proof {
        assert forall|j: int| idx <= j < MAX_LEN implies data as int / #[trigger] pow26(j as nat) == 0 by {
            lemma_pow_positive(26, idx as nat);
            lemma_pow_positive(26, j as nat);
            assert(data as int / pow26(idx as nat) == 0);
            if data as int >= pow26(idx as nat) {
                lemma_div_is_ordered(pow26(idx as nat), data as int, pow26(idx as nat));
                lemma_div_by_self(pow26(idx as nat));
                assert(false);
            }
            lemma_pow_increases(26, idx as nat, j as nat);
            lemma_basic_div(data as int, pow26(j as nat));
        }
    }
    w
}

/// Runs the census for one word length: enumerates the integers whose
/// base-26 form is exactly `len` digits, hashes each word, and counts how
/// many meet a hash an earlier word of the run already produced.
pub fn check_len(len: usize) -> (n: u64)
    requires
        1 <= len <= MAX_LEN,
    ensures
        n == collision_count(len as int, pow26((len - 1) as nat), pow26(len as nat)),
{
    let mut n: u64 = 0;
    let mut hashes = U32Bitmask::default();
    let mut first: u64 = 1;
    let mut p: usize = 0;
    proof {
        lemma_pow26_values();
    }
    while p < len - 1
        invariant
            1 <= len <= MAX_LEN,
            0 <= p <= len - 1,
            first == pow26(p as nat),
        decreases len - 1 - p,
    {
        proof {
            lemma_pow_increases(26, p as nat, 6);
            lemma_pow_adds(26, p as nat, 1);
            lemma_pow26_values();
            reveal_with_fuel(pow, 8);
        }
        first = first * ALPHABET_LEN;
        p = p + 1;
    }
    proof {
        lemma_pow_increases(26, (len - 1) as nat, 7);
        lemma_pow_adds(26, (len - 1) as nat, 1);
        lemma_pow26_values();
    }
    let last: u64 = first * ALPHABET_LEN;
    let mut i: u64 = first;
    proof {
        lemma_pow_positive(26, (len - 1) as nat);
    }
    while i < last
        invariant
            1 <= len <= MAX_LEN,
            first == pow26((len - 1) as nat),
            last == pow26(len as nat),
            1 <= first <= i <= last,
            hashes.wf(),
            forall|h: u32|
                hashes.bit(h) <==> exists|t: int|
                    first <= t < i && census_hash(t, len as int) == h,
            n as int == collision_count(len as int, first as int, i as int),
            n <= i - first,
        decreases last - i,
    {
        proof {
            lemma_pow26_values();
            lemma_pow_increases(26, len as nat, MAX_LEN as nat);
        }
        let word = to_word(i);
        proof {
            assert forall|j: int| 0 <= j < len implies {
                &&& i as int / pow26(j as nat) > 0
                &&& word@[j] == census_word(i as int, len as int)[j]
                &&& 97 <= word@[j] <= 122
            } by {
                lemma_pow_positive(26, j as nat);
                lemma_pow_increases(26, j as nat, (len - 1) as nat);
                lemma_div_is_ordered(pow26(j as nat), i as int, pow26(j as nat));
                lemma_div_by_self(pow26(j as nat));
                assert(i as int / pow26(j as nat) >= 1);
            }
            assert(word@.subrange(0, len as int) =~= census_word(i as int, len as int));
            assert(all_lowercase(word@.subrange(0, len as int)));
        }
        let hash = fnv32(vstd::slice::slice_subrange(word.as_slice(), 0, len));
        let ghost pre = hashes;
        let seen = hashes.get(hash);
        if seen {
            n = n + 1;
        }
        hashes.set(hash);
        proof {
            assert(hash == census_hash(i as int, len as int));
            assert(seen == seen_before(len as int, first as int, i as int));
            assert(collision_count(len as int, first as int, i as int + 1) == collision_count(
                len as int,
                first as int,
                i as int,
            ) + (if seen_before(len as int, first as int, i as int) {
                1nat
            } else {
                0nat
            }));
            assert forall|h: u32|
                hashes.bit(h) <==> exists|t: int|
                    first <= t < i + 1 && census_hash(t, len as int) == h by {
                if hashes.bit(h) {
                    if pre.bit(h) {
                        let t = choose|t: int|
                            first <= t < i && census_hash(t, len as int) == h;
                        assert(first <= t < i + 1 && census_hash(t, len as int) == h);
                    } else {
                        assert(h == hash);
                        assert(first <= i < i + 1 && census_hash(i as int, len as int) == h);
                    }
                } else {
                    assert(!pre.bit(h) && h != hash);
                }
            }
        }
        i = i + 1;
    }
    n
}

/// What a zero report means: if the census counts no collisions over
/// `[lo, hi)`, then no two distinct integers of that range hash alike —
/// the guarantee the fast equality comparator's short-word shortcut
/// rests on, for every length whose report is zero.
pub proof fn lemma_zero_collisions(len: int, lo: int, hi: int, t1: int, t2: int)
    requires
        collision_count(len, lo, hi) == 0,
        lo <= t1 < t2 < hi,
    ensures
        census_hash(t1, len) != census_hash(t2, len),
    decreases hi - lo,
{
    if t2 == hi - 1 {
        assert(!seen_before(len, lo, hi - 1));
        if census_hash(t1, len) == census_hash(t2, len) {
            assert(lo <= t1 < hi - 1 && census_hash(t1, len) == census_hash(hi - 1, len));
            assert(false);
        }
    } else {
        lemma_zero_collisions(len, lo, hi - 1, t1, t2);
    }
}

} // verus!
