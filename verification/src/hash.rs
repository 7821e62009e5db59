//! The multiplicative hash at the bottom of the engine: a 32-bit FNV-1a
//! style fold over bytes that the caller guarantees to be lowercase
//! letters, plus the packed 64-bit word key built from it.

use vstd::prelude::*;

verus! {

/// Seed the accumulator starts from.
pub const FNV_SEED: u32 = 0x811c9dc5;

/// Odd multiplier applied before each byte is folded in.
pub const FNV_PRIME: u32 = 0x01000193;

/// A byte in the lowercase letter range, the only alphabet the hash
/// is specified over.
pub open spec fn is_lowercase(b: u8) -> bool {
    97 <= b && b <= 122
}

/// Every byte of the sequence lies in the lowercase letter range.
pub open spec fn all_lowercase(s: Seq<u8>) -> bool {
    forall|i: int| 0 <= i < s.len() ==> is_lowercase(s[i])
}

/// One round of the hash: multiply the accumulator modulo 2^32, then
/// fold the byte in with exclusive or.
pub open spec fn fnv32_step(h: u32, b: u8) -> u32 {
    (((h as nat * FNV_PRIME as nat) % 0x1_0000_0000nat) as u32) ^ (b as u32)
}

/// The hash of a byte sequence: the seed folded through `fnv32_step`
/// once per byte, in order.
pub open spec fn fnv32_spec(s: Seq<u8>) -> u32
    decreases s.len(),
{
    if s.len() == 0 {
        FNV_SEED
    } else {
        fnv32_step(fnv32_spec(s.drop_last()), s.last())
    }
}

/// Computes the hash of `data`.  Callers must hand in lowercase letters
/// only; the tokenizer and the census tool both guarantee that by
/// construction.
pub fn fnv32(data: &[u8]) -> (h: u32)
    requires
        all_lowercase(data@),
    ensures
        h == fnv32_spec(data@),
{
    let mut hash: u32 = FNV_SEED;
    let mut i: usize = 0;
    while i < data.len()
        invariant
            0 <= i <= data@.len(),
            hash == fnv32_spec(data@.take(i as int)),
        decreases data@.len() - i,
    {
        let b: u8 = *vstd::slice::slice_index_get(data, i);
        proof {
            assert(data@.take(i + 1).drop_last() =~= data@.take(i as int));
            assert(data@.take(i + 1).last() == b);
        }
        hash = hash.wrapping_mul(FNV_PRIME) ^ (b as u32);
        i = i + 1;
    }
    proof {
        assert(data@.take(data@.len() as int) =~= data@);
    }
    hash
}

/// The packed word key: hash in the high 32 bits, byte length in the
/// low 32 bits.
pub open spec fn pack_key(h: u32, l: u32) -> u64 {
    ((h as u64) << 32) | (l as u64)
}

/// Packing is injective: two keys agree exactly when both halves do.
pub proof fn lemma_pack_key_injective(h1: u32, l1: u32, h2: u32, l2: u32)
    by (bit_vector)
    ensures
        pack_key(h1, l1) == pack_key(h2, l2) <==> (h1 == h2 && l1 == l2),
{
}

/// The low half of a packed key is the length it was built from.
pub proof fn lemma_pack_key_low(h: u32, l: u32)
    by (bit_vector)
    ensures
        pack_key(h, l) & 0xffff_ffff == l as u64,
{
}

} // verus!
