//! Random draws, and the draw from a range that leaves one number out.
//!
//! The random source is a `rand::rngs::StdRng` that the caller owns and hands
//! in, so that a caller who seeds it gets the same puzzles again.

use crate::value::Value;
use rand::rngs::StdRng;
use rand::seq::SliceRandom;
use rand::Rng;
use vstd::prelude::*;

verus! {

/// Makes `rand::rngs::StdRng` known as a type whose values are handed on and
/// never looked into.
#[verifier::external_type_specification]
#[verifier::external_body]
pub struct ExStdRng(rand::rngs::StdRng);

/// Calls `rand::Rng::gen::<u32>` on `rng`. Nothing is claimed of the number
/// that comes back.
#[verifier::external_body]
pub(crate) fn draw_u32(rng: &mut StdRng) -> (draw: u32) {
    rng.gen::<u32>()
}

/// Calls `rand::Rng::gen::<bool>` on `rng`. Nothing is claimed of the truth
/// value that comes back.
#[verifier::external_body]
pub(crate) fn draw_bool(rng: &mut StdRng) -> (draw: bool) {
    rng.gen::<bool>()
}

/// Calls `rand::seq::SliceRandom::shuffle` on the values. It exchanges
/// entries of the slice in place, so what is claimed is that the values come
/// back in some order: each as often as it went in.
#[verifier::external_body]
pub(crate) fn shuffle_values(values: &mut Vec<Value>, rng: &mut StdRng)
    ensures
        final(values)@.to_multiset() == old(values)@.to_multiset(),
{
    values.shuffle(rng);
}

/// The number that `draw` selects from `start` to `stop`, `other_than` left
/// out: `draw` is reduced to one of the `stop - start` numbers from `start`
/// on, and a number from `other_than` on is moved up by one.
pub open spec fn range_other_than(draw: int, start: int, stop: int, other_than: int) -> int {
    let below: int = draw % (stop - start) + start;
    if below >= other_than {
        below + 1
    } else {
        below
    }
}

/// The selected number lies from `start` to `stop` and is not `other_than`.
pub proof fn lemma_range_other_than(draw: int, start: int, stop: int, other_than: int)
    requires
        start < stop,
    ensures
        start <= range_other_than(draw, start, stop, other_than) <= stop,
        range_other_than(draw, start, stop, other_than) != other_than,
{
}

/// Two draws select the same number exactly if they leave the same remainder
/// modulo `stop - start`. So draws that are spread evenly over the remainders
/// select each number that can be selected equally often.
pub proof fn lemma_range_other_than_even(
    first: int,
    second: int,
    start: int,
    stop: int,
    other_than: int,
)
    requires
        start < stop,
    ensures
        range_other_than(first, start, stop, other_than) == range_other_than(
            second,
            start,
            stop,
            other_than,
        ) <==> first % (stop - start) == second % (stop - start),
{
}

/// Where `other_than` is itself one of the numbers from `start` to `stop`,
/// every other number from `start` to `stop` is selected by some draw.
pub proof fn lemma_range_other_than_all(start: int, stop: int, other_than: int, wanted: int)
    requires
        start < stop,
        start <= other_than <= stop,
        start <= wanted <= stop,
        wanted != other_than,
    ensures
        exists|draw: int|
            0 <= draw < stop - start && range_other_than(draw, start, stop, other_than)
                == wanted,
{
    let span: int = stop - start;
    let draw: int = if wanted < other_than {
        wanted - start
    } else {
        wanted - start - 1
    };
    assert(draw % span == draw) by {
        vstd::arithmetic::div_mod::lemma_small_mod(draw as nat, span as nat);
    }
    assert(range_other_than(draw, start, stop, other_than) == wanted);
}

/// Selects with `draw` a number from `start` to `stop` other than
/// `other_than`.
pub fn pick_other_than(draw: u32, start: u32, stop: u32, other_than: u32) -> (picked: u32)
    requires
        start < stop,
    ensures
        picked == range_other_than(draw as int, start as int, stop as int, other_than as int),
        start <= picked <= stop,
        picked != other_than,
{
    let mut result: u32 = draw % (stop - start) + start;
    if result >= other_than {
        result += 1;
    }
    result
}

/// Draws a number from `start` to `stop` other than `other_than`.
pub fn random_range_other_than(
    start: u32,
    stop: u32,
    other_than: u32,
    rng: &mut StdRng,
) -> (picked: u32)
    requires
        start < stop,
    ensures
        exists|draw: u32|
            picked == #[trigger] range_other_than(
                draw as int,
                start as int,
                stop as int,
                other_than as int,
            ),
        start <= picked <= stop,
        picked != other_than,
{
    let draw: u32 = draw_u32(rng);
    pick_other_than(draw, start, stop, other_than)
}

} // verus!
