//! A 64-bit multiply-and-add rolling digest over byte strings and machine
//! words. It summarizes record contents and Merkle-tree nodes; equality of
//! digests is a cheap stand-in for equality of the summarized data.

use vstd::prelude::*;

verus! {

/// Multiplier for the rolling digest (a large odd constant).
pub const DIGEST_PRIME: u64 = 0x100000001b3;

/// Starting value for content digests.
pub const CONTENT_SEED: u64 = 0xcbf29ce484222325;

/// One mixing step: fold `x` into the running digest `h`, truncated to 64 bits.
pub open spec fn mix(h: u64, x: u64) -> u64 {
    (((h * DIGEST_PRIME) + x + 1) % 0x1_0000_0000_0000_0000) as u64
}

pub fn mix_once(h: u64, x: u64) -> (r: u64)
    ensures
        r == mix(h, x),
{
    proof {
        assert((h as u128) * (DIGEST_PRIME as u128)
            <= 0xffff_ffff_ffff_ffffu128 * (DIGEST_PRIME as u128)) by (nonlinear_arith)
            requires
                h as u128 <= 0xffff_ffff_ffff_ffffu128,
        ;
    }
    let wide: u128 = (h as u128) * (DIGEST_PRIME as u128) + (x as u128) + 1;
    let m: u128 = wide % 0x1_0000_0000_0000_0000u128;
    proof {
        assert(m < 0x1_0000_0000_0000_0000u128);
    }
    m as u64
}

/// Digest of a byte string folded onto a starting value `h`.
pub open spec fn fold_bytes_spec(h: u64, s: Seq<u8>) -> u64
    decreases s.len(),
{
    if s.len() == 0 {
        h
    } else {
        fold_bytes_spec(mix(h, s[0] as u64), s.skip(1))
    }
}

/// Digest of a record's value bytes alone.
pub open spec fn content_hash(s: Seq<u8>) -> u64 {
    fold_bytes_spec(CONTENT_SEED, s)
}

pub fn fold_bytes(h: u64, v: &Vec<u8>) -> (r: u64)
    ensures
        r == fold_bytes_spec(h, v@),
{
    let mut acc: u64 = h;
    let mut i: usize = 0;
    proof {
        assert(v@.skip(0) =~= v@);
    }
    while i < v.len()
        invariant
            i <= v.len(),
            fold_bytes_spec(acc, v@.skip(i as int)) == fold_bytes_spec(h, v@),
        decreases v@.len() - i,
    {
        proof {
            assert(v@.skip(i as int)[0] == v@[i as int]);
            assert(v@.skip(i as int).skip(1) =~= v@.skip(i as int + 1));
        }
        acc = mix_once(acc, v[i] as u64);
        i = i + 1;
    }
    proof {
        assert(v@.skip(v@.len() as int).len() == 0);
    }
    acc
}

pub fn content_hash_of(v: &Vec<u8>) -> (r: u64)
    ensures
        r == content_hash(v@),
{
    fold_bytes(CONTENT_SEED, v)
}

} // verus!
