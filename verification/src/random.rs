//! Shuffling, by the `rand` crate's standard generator.
//!
//! A generator seeded with a number is a value like any other: the same seed
//! gives the same generator, and the same generator shuffles the same way.
//! The functions without a body below give names to what `rand` computes, so
//! that contracts can say so; nothing is claimed of a generator that was
//! seeded by the machine.

use vstd::prelude::*;
use rand::rngs::StdRng;
use rand::seq::SliceRandom;
use rand::SeedableRng;

verus! {

/// The standard generator of `rand`, opaque to the proofs.
#[verifier::external_type_specification]
#[verifier::external_body]
pub struct ExStdRng(StdRng);

/// The generator that `StdRng::seed_from_u64` makes of a seed.
pub uninterp spec fn seeded_generator(seed: u64) -> StdRng;

/// The order in which a shuffle that draws from `generator` leaves `len`
/// items: the item that ends at position `i` stood at position
/// `shuffle_order(generator, len)[i]`.
pub uninterp spec fn shuffle_order(generator: StdRng, len: nat) -> Seq<int>;

/// The generator as a shuffle of `len` items leaves it.
pub uninterp spec fn generator_after_shuffle(generator: StdRng, len: nat) -> StdRng;

/// Whether `order` names each of the positions below `len` once.
pub open spec fn is_arrangement(order: Seq<int>, len: nat) -> bool {
    &&& order.len() == len
    &&& forall|i: int| 0 <= i < len ==> 0 <= #[trigger] order[i] < len
    &&& forall|i: int, j: int| 0 <= i < j < len ==> #[trigger] order[i] != #[trigger] order[j]
}

/// The items in another order: position `i` gets the item that stood at
/// `order[i]`.
pub open spec fn arranged<T>(items: Seq<T>, order: Seq<int>) -> Seq<T> {
    Seq::new(order.len(), |i: int| items[order[i]])
}

/// Calls `StdRng::seed_from_u64`, which expands the seed to a full key by a
/// fixed recurrence and starts the generator with it. The result depends on
/// the seed alone.
#[verifier::external_body]
pub(crate) fn seeded(seed: u64) -> (generator: StdRng)
    ensures
        generator == seeded_generator(seed),
{
    StdRng::seed_from_u64(seed)
}

/// Calls `StdRng::from_rng` on `rand::rngs::OsRng`: a generator keyed by the
/// operating system. Where the system cannot fill the key, `OsRng` hands the
/// failure back, `from_rng` passes it on, and it comes out here as `None`.
/// No two calls need agree, so nothing is said of the result.
#[verifier::external_body]
pub(crate) fn unseeded() -> (generator: Option<StdRng>) {
    StdRng::from_rng(rand::rngs::OsRng).ok()
}

/// Calls `SliceRandom::shuffle` on the items. The shuffle swaps each position,
/// from the last down to the second, with a position at or below it that it
/// draws from the generator; so it rearranges the items, and which way it does
/// so, and how it leaves the generator, depends on the generator and on the
/// number of items alone.
#[verifier::external_body]
pub(crate) fn shuffle<T>(items: &mut Vec<T>, generator: &mut StdRng)
    ensures
        is_arrangement(shuffle_order(*old(generator), old(items)@.len()), old(items)@.len()),
        final(items)@ == arranged(
            old(items)@,
            shuffle_order(*old(generator), old(items)@.len()),
        ),
        *final(generator) == generator_after_shuffle(*old(generator), old(items)@.len()),
{
    items.shuffle(generator)
}

/// The order that is left when the last position is taken from an
/// arrangement: the positions after the one it named move down by one.
pub open spec fn without_last(order: Seq<int>) -> Seq<int> {
    Seq::new(
        (order.len() - 1) as nat,
        |i: int|
            if order[i] < order.last() {
                order[i]
            } else {
                order[i] - 1
            },
    )
}

/// Rearranged items are the same items: each occurs as often as before.
pub proof fn lemma_arranged_same_items<T>(items: Seq<T>, order: Seq<int>)
    requires
        is_arrangement(order, items.len()),
    ensures
        arranged(items, order).to_multiset() == items.to_multiset(),
    decreases items.len(),
{
    broadcast use vstd::seq_lib::to_multiset_build, vstd::seq_lib::to_multiset_remove;

    let result = arranged(items, order);
    if items.len() == 0 {
        assert(result =~= items);
    } else {
        let taken = order.last();
        let rest = items.remove(taken);
        let rest_order = without_last(order);
        assert(is_arrangement(rest_order, rest.len())) by {
            assert forall|i: int| 0 <= i < rest.len() implies 0 <= #[trigger] rest_order[i]
                < rest.len() by {
                assert(order[i] != order[order.len() - 1]);
            }
            assert forall|i: int, j: int| 0 <= i < j < rest.len() implies #[trigger] rest_order[i]
                != #[trigger] rest_order[j] by {
                assert(order[i] != order[j]);
                assert(order[i] != order[order.len() - 1]);
                assert(order[j] != order[order.len() - 1]);
            }
        }
        lemma_arranged_same_items(rest, rest_order);
        assert(result.drop_last() =~= arranged(rest, rest_order)) by {
            assert forall|i: int| 0 <= i < rest.len() implies result[i] == arranged(
                rest,
                rest_order,
            )[i] by {
                assert(order[i] != order[order.len() - 1]);
            }
        }
        assert(result =~= result.drop_last().push(items[taken]));
        assert(rest.to_multiset() == items.to_multiset().remove(items[taken]));
        assert(items.to_multiset().count(items[taken]) > 0) by {
            items.to_multiset_ensures();
            assert(items.contains(items[taken]));
        }
        assert(items.to_multiset().remove(items[taken]).insert(items[taken])
            =~= items.to_multiset());
    }
}

} // verus!
