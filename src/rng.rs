use vstd::prelude::*;

use rand::rngs::StdRng;
use rand::seq::SliceRandom;
use rand::SeedableRng;
use std::collections::hash_map::DefaultHasher;
use std::hash::{Hash, Hasher};

use crate::types::Coords;

verus! {

#[verifier::external_type_specification]
#[verifier::external_body]
pub struct ExStdRng(rand::rngs::StdRng);

/// The 64-bit hash std's `DefaultHasher::new()` gives the string `s`.
pub uninterp spec fn str_hash(s: Seq<char>) -> u64;

/// Relies on std's `DefaultHasher`: a fresh hasher fed the string gives a
/// hash that depends on the string alone.
#[verifier::external_body]
fn hash_str(s: &str) -> (r: u64)
    ensures
        r == str_hash(s@),
{
    let mut hasher = DefaultHasher::new();
    s.hash(&mut hasher);
    hasher.finish()
}

/// Byte `k` (0 = least significant) of `h`.
pub open spec fn byte_of(h: u64, k: int) -> u8 {
    ((h as int / pow256(k)) % 256) as u8
}

pub open spec fn pow256(k: int) -> int
    decreases k,
{
    if k <= 0 {
        1
    } else {
        256 * pow256(k - 1)
    }
}

/// Turns a seed string into the 32 bytes that seed the match's generator: the
/// string's 64-bit hash, little-endian, four times over.
pub fn string_to_seed(seed_str: &str) -> (r: [u8; 32])
    ensures
        forall|i: int| 0 <= i < 32 ==> #[trigger] r@[i] == byte_of(str_hash(seed_str@), i % 8),
{
    let h = hash_str(seed_str);
    let mut bytes: [u8; 8] = [0u8; 8];
    let mut rest: u64 = h;
    let mut k: usize = 0;
    while k < 8
        invariant
            k <= 8,
            rest as int == h as int / pow256(k as int),
            forall|j: int| 0 <= j < k ==> #[trigger] bytes@[j] == byte_of(h, j),
        decreases 8 - k,
    {
        proof {
            assert(pow256(k as int + 1) == 256 * pow256(k as int));
            assert(pow256(k as int) > 0) by {
                lemma_pow256_pos(k as int);
            }
            vstd::arithmetic::div_mod::lemma_div_denominator(h as int, pow256(k as int), 256);
        }
        bytes[k] = (rest % 256) as u8;
        rest = rest / 256;
        k = k + 1;
    }
    let mut seed: [u8; 32] = [0u8; 32];
    let mut i: usize = 0;
    while i < 32
        invariant
            i <= 32,
            forall|j: int| 0 <= j < 8 ==> #[trigger] bytes@[j] == byte_of(h, j),
            forall|j: int| 0 <= j < i ==> #[trigger] seed@[j] == byte_of(h, j % 8),
        decreases 32 - i,
    {
        seed[i] = bytes[i % 8];
        i = i + 1;
    }
    seed
}

proof fn lemma_pow256_pos(k: int)
    ensures
        pow256(k) > 0,
    decreases k,
{
    if k > 0 {
        lemma_pow256_pos(k - 1);
    }
}

/// Relies on rand's `StdRng::from_seed`: a generator determined by the seed.
#[verifier::external_body]
pub(crate) fn seeded_rng(seed: [u8; 32]) -> StdRng {
    StdRng::from_seed(seed)
}

/// Relies on rand's `SliceRandom::choose`: one element of the slice, or
/// nothing when it is empty.
#[verifier::external_body]
pub(crate) fn choose_point(rng: &mut StdRng, points: &Vec<Coords>) -> (r: Option<Coords>)
    ensures
        r is None <==> points@.len() == 0,
        r matches Some(p) ==> points@.contains(p),
{
    points.as_slice().choose(rng).copied()
}

} // verus!
