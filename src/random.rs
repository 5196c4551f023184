//! Draws from the seedable random source that every algorithm consumes.
//!
//! The generator is `rand_chacha::ChaCha8Rng`; each draw goes through `rand::Rng`.
//! What a draw returns depends on the generator's hidden state, so these
//! functions state only what holds of every outcome.

use rand::Rng;
use rand_chacha::ChaCha8Rng;
use vstd::prelude::*;

verus! {

#[verifier::external_type_specification]
#[verifier::external_body]
pub struct ExChaCha8Rng(ChaCha8Rng);

/// Relies on `rand::Rng::gen_range` over a half-open `u32` range: a value in the range.
#[verifier::external_body]
pub(crate) fn draw_u32(rng: &mut ChaCha8Rng, lo: u32, hi: u32) -> (r: u32)
    requires
        lo < hi,
    ensures
        lo <= r < hi,
{
    rng.gen_range(lo..hi)
}

/// Relies on `rand::Rng::gen_range` over an inclusive `u32` range: a value in the range.
#[verifier::external_body]
pub(crate) fn draw_u32_inclusive(rng: &mut ChaCha8Rng, lo: u32, hi: u32) -> (r: u32)
    requires
        lo <= hi,
    ensures
        lo <= r <= hi,
{
    rng.gen_range(lo..=hi)
}

/// Relies on `rand::Rng::gen_range` over a half-open `u8` range: a value in the range.
#[verifier::external_body]
pub(crate) fn draw_u8(rng: &mut ChaCha8Rng, lo: u8, hi: u8) -> (r: u8)
    requires
        lo < hi,
    ensures
        lo <= r < hi,
{
    rng.gen_range(lo..hi)
}

/// Relies on `rand::Rng::gen_range` over an inclusive `u8` range: a value in the range.
#[verifier::external_body]
pub(crate) fn draw_u8_inclusive(rng: &mut ChaCha8Rng, lo: u8, hi: u8) -> (r: u8)
    requires
        lo <= hi,
    ensures
        lo <= r <= hi,
{
    rng.gen_range(lo..=hi)
}

/// Relies on `rand::Rng::gen_range` over a half-open `usize` range: a value in the range.
#[verifier::external_body]
pub(crate) fn draw_usize(rng: &mut ChaCha8Rng, lo: usize, hi: usize) -> (r: usize)
    requires
        lo < hi,
    ensures
        lo <= r < hi,
{
    rng.gen_range(lo..hi)
}

/// Relies on `rand::Rng::gen_range` over an inclusive `i32` range: a value in the range.
#[verifier::external_body]
pub(crate) fn draw_i32_inclusive(rng: &mut ChaCha8Rng, lo: i32, hi: i32) -> (r: i32)
    requires
        lo <= hi,
    ensures
        lo <= r <= hi,
{
    rng.gen_range(lo..=hi)
}

/// Relies on `rand::Rng::gen_ratio`: `true` with probability `numerator / denominator`;
/// never for a zero numerator, always for a numerator equal to the denominator.
#[verifier::external_body]
pub(crate) fn draw_ratio(rng: &mut ChaCha8Rng, numerator: u32, denominator: u32) -> (r: bool)
    requires
        0 < denominator,
        numerator <= denominator,
    ensures
        numerator == 0 ==> !r,
        numerator == denominator ==> r,
{
    rng.gen_ratio(numerator, denominator)
}

} // verus!
