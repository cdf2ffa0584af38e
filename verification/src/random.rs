//! The random source. Every draw goes through `rand`; this module says what
//! the library relies on, whatever the generator returns.

use rand::rngs::StdRng;
use rand::seq::SliceRandom;
use rand::{Rng, SeedableRng};
use vstd::prelude::*;
use vstd::seq_lib::{to_multiset_contains, to_multiset_len};

verus! {

/// `rand::rngs::StdRng`, carried through the library as an opaque value.
#[verifier::external_type_specification]
#[verifier::external_body]
pub struct ExStdRng(rand::rngs::StdRng);

/// `SeedableRng::from_entropy` for `StdRng`: a generator seeded by the
/// operating system. Nothing is claimed of it. The call panics where the
/// operating system cannot give entropy; no precondition can rule that out,
/// any more than running out of memory.
#[verifier::external_body]
pub(crate) fn entropy_source() -> StdRng {
    StdRng::from_entropy()
}

/// `Rng::gen_range` on `u8`: for `low < high`, some value in `low..high`.
/// It panics when `low >= high`, which the precondition rules out.
#[verifier::external_body]
pub(crate) fn draw(rng: &mut StdRng, low: u8, high: u8) -> (value: u8)
    requires
        low < high,
    ensures
        low <= value < high,
{
    rng.gen_range(low, high)
}

/// `SliceRandom::shuffle`: reorders the items in place by swaps, so that the
/// same items are there afterwards, each as often as before.
#[verifier::external_body]
pub(crate) fn shuffle(items: &mut Vec<u8>, rng: &mut StdRng)
    ensures
        final(items)@.to_multiset() == old(items)@.to_multiset(),
{
    items.shuffle(rng)
}

/// The digits 1 to 9 in ascending order.
pub open spec fn digits_in_order() -> Seq<u8> {
    seq![1u8, 2u8, 3u8, 4u8, 5u8, 6u8, 7u8, 8u8, 9u8]
}

/// Whether `digits` holds each of the digits 1 to 9 once and nothing else.
pub open spec fn is_digit_order(digits: Seq<u8>) -> bool {
    &&& digits.len() == 9
    &&& digits.no_duplicates()
    &&& forall|d: u8| digits.contains(d) <==> 1 <= d <= 9
}

/// Any reordering of the digits 1 to 9 holds each of them once.
pub proof fn lemma_reordered_digits(digits: Seq<u8>)
    requires
        digits.to_multiset() == digits_in_order().to_multiset(),
    ensures
        is_digit_order(digits),
{
    let ordered = digits_in_order();
    assert(ordered.no_duplicates());
    ordered.lemma_multiset_has_no_duplicates();
    digits.lemma_multiset_has_no_duplicates_conv();
    to_multiset_len(digits);
    to_multiset_len(ordered);
    assert forall|d: u8| digits.contains(d) <==> 1 <= d <= 9 by {
        to_multiset_contains(digits, d);
        to_multiset_contains(ordered, d);
        if 1 <= d <= 9 {
            assert(ordered[d - 1] == d);
        }
    }
}

/// The digits 1 to 9 in an order drawn from `rng`.
pub fn shuffled_digits(rng: &mut StdRng) -> (digits: Vec<u8>)
    ensures
        is_digit_order(digits@),
{
    let mut digits: Vec<u8> = Vec::new();
    for d in 1..10u8
        invariant
            digits@ =~= digits_in_order().subrange(0, d - 1),
    {
        digits.push(d);
    }
    assert(digits@ =~= digits_in_order());
    shuffle(&mut digits, rng);
    proof {
        lemma_reordered_digits(digits@);
    }
    digits
}

} // verus!
