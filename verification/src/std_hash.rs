//! Deterministic object addresses, derived with std's default hasher from a
//! creator address and a seed.
use vstd::prelude::*;
use std::collections::hash_map::DefaultHasher;
use std::hash::Hasher;
use vstd::std_specs::hash::DefaultHasherAdditionalSpecFns;

verus! {

/// The eight little-endian bytes of `x`.
pub open spec fn le_bytes(x: u64) -> Seq<u8> {
    Seq::new(8, |i: int| ((x as int / vstd::arithmetic::power2::pow2((8 * i) as nat) as int) % 256) as u8)
}

/// The bytes that hashing a byte slice feeds in: its length as a
/// little-endian `usize`, then the bytes.
pub open spec fn slice_writes(s: Seq<u8>) -> Seq<Seq<u8>> {
    seq![le_bytes(s.len() as u64), s]
}

/// The first digest: creator, seed, then the domain byte `0xFE`.
pub open spec fn first_digest(creator: Seq<u8>, seed: Seq<u8>) -> u64 {
    DefaultHasher::spec_finish(slice_writes(creator) + slice_writes(seed) + seq![seq![0xFEu8]])
}

/// The second digest: the first digest, then the seed again.
pub open spec fn second_digest(creator: Seq<u8>, seed: Seq<u8>) -> u64 {
    DefaultHasher::spec_finish(seq![le_bytes(first_digest(creator, seed))] + slice_writes(seed))
}

/// The address of the object that `creator` makes with `seed`: the two
/// digests as little-endian bytes, then sixteen zero bytes.
pub open spec fn object_address_spec(creator: Seq<u8>, seed: Seq<u8>) -> Seq<u8> {
    le_bytes(first_digest(creator, seed)) + le_bytes(second_digest(creator, seed)) + Seq::new(
        16,
        |i: int| 0u8,
    )
}

fn u64_le_bytes(x: u64) -> (r: Vec<u8>)
    ensures
        r@ == le_bytes(x),
{
    let mut r: Vec<u8> = Vec::new();
    let mut v = x;
    let mut i: usize = 0;
    proof {
        vstd::arithmetic::power2::lemma2_to64();
        vstd::arithmetic::div_mod::lemma_div_basics(x as int);
    }
    while i < 8
        invariant
            i <= 8,
            r@.len() == i,
            v as int == x as int / vstd::arithmetic::power2::pow2((8 * i) as nat) as int,
            forall|j: int| 0 <= j < i ==> r@[j] == le_bytes(x)[j],
        decreases 8 - i,
    {
        proof {
            vstd::arithmetic::power2::lemma_pow2_pos((8 * i) as nat);
            vstd::arithmetic::power2::lemma_pow2_adds((8 * i) as nat, 8);
            vstd::arithmetic::power2::lemma2_to64();
            vstd::arithmetic::div_mod::lemma_div_denominator(
                x as int,
                vstd::arithmetic::power2::pow2((8 * i) as nat) as int,
                256,
            );
        }
        r.push((v % 256) as u8);
        v = v / 256;
        i += 1;
    }
    assert(r@ =~= le_bytes(x));
    r
}

/// Feeds a byte slice into the hasher the way hashing a slice does: its
/// length, then its bytes.
fn write_slice(h: &mut DefaultHasher, s: &[u8])
    ensures
        final(h)@ == old(h)@ + slice_writes(s@),
{
    let len_bytes = u64_le_bytes(s.len() as u64);
    h.write(len_bytes.as_slice());
    h.write(s);
    assert(final(h)@ =~= old(h)@ + slice_writes(s@));
}

/// The address of the object that `creator` makes with `seed`.
pub fn create_object_address(creator: &[u8; 32], seed: &[u8]) -> (r: [u8; 32])
    ensures
        r@ == object_address_spec(creator@, seed@),
{
    let mut hasher = DefaultHasher::new();
    write_slice(&mut hasher, creator.as_slice());
    write_slice(&mut hasher, seed);
    let tag: [u8; 1] = [0xFEu8];
    hasher.write(tag.as_slice());
    proof {
        assert(tag@ =~= seq![0xFEu8]);
        assert(hasher@ =~= slice_writes(creator@) + slice_writes(seed@) + seq![seq![0xFEu8]]);
    }
    let hash = hasher.finish();
    let hash_bytes = u64_le_bytes(hash);
    let mut hasher2 = DefaultHasher::new();
    hasher2.write(hash_bytes.as_slice());
    write_slice(&mut hasher2, seed);
    proof {
        assert(hasher2@ =~= seq![le_bytes(first_digest(creator@, seed@))] + slice_writes(seed@));
    }
    let hash2 = hasher2.finish();
    let hash2_bytes = u64_le_bytes(hash2);
    let mut result = [0u8; 32];
    let mut i: usize = 0;
    while i < 8
        invariant
            i <= 8,
            hash_bytes@ == le_bytes(first_digest(creator@, seed@)),
            hash2_bytes@ == le_bytes(second_digest(creator@, seed@)),
            forall|j: int| 0 <= j < i ==> result@[j] == hash_bytes@[j],
            forall|j: int| 0 <= j < i ==> result@[8 + j] == hash2_bytes@[j],
            forall|j: int| 16 <= j < 32 ==> result@[j] == 0,
        decreases 8 - i,
    {
        result[i] = hash_bytes[i];
        result[8 + i] = hash2_bytes[i];
        i += 1;
    }
    assert(result@ =~= object_address_spec(creator@, seed@));
    result
}

} // verus!
