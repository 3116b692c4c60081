//! The game's seeded random number generator (a PCG32 from `rand_pcg`) and
//! the identifiers it draws.

use rand::Rng;
use rand::SeedableRng;
use rand_pcg::Lcg64Xsh32;
use uuid::Uuid;
use vstd::prelude::*;

verus! {

#[verifier::external_type_specification]
#[verifier::external_body]
pub struct ExLcg64Xsh32(Lcg64Xsh32);

/// `SeedableRng::seed_from_u64` for `Pcg32`. The generator's state is opaque
/// here, so nothing is stated of it.
#[verifier::external_body]
pub(crate) fn seeded_rng(seed: u64) -> Lcg64Xsh32 {
    Lcg64Xsh32::seed_from_u64(seed)
}

/// `Rng::gen_range(0..n)`: a draw that lies in `0..n`. Which one depends on
/// the generator's state and is not stated. `gen_range` panics on an empty
/// range, so `n` is positive.
#[verifier::external_body]
pub(crate) fn draw_below(rng: &mut Lcg64Xsh32, n: usize) -> (r: usize)
    requires
        n > 0,
    ensures
        r < n,
{
    rng.gen_range(0..n)
}

/// `Rng::gen::<[u8; 16]>()`: sixteen random bytes; nothing is stated of them.
#[verifier::external_body]
pub(crate) fn draw_bytes(rng: &mut Lcg64Xsh32) -> [u8; 16] {
    rng.gen()
}

/// The number whose big-endian bytes are `bytes`.
pub open spec fn big_endian_value(bytes: Seq<u8>) -> nat
    decreases bytes.len(),
{
    if bytes.len() == 0 {
        0
    } else {
        big_endian_value(bytes.drop_last()) * 256 + bytes.last() as nat
    }
}

/// `Uuid::from_bytes(bytes).as_u128()`: the identifier made of `bytes`, as
/// the number whose big-endian bytes they are (`as_u128` is
/// `u128::from_be_bytes` of the UUID's bytes).
#[verifier::external_body]
pub(crate) fn uuid_from_bytes(bytes: [u8; 16]) -> (r: u128)
    ensures
        r as nat == big_endian_value(bytes@),
{
    Uuid::from_bytes(bytes).as_u128()
}

} // verus!
