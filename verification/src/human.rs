//! What a player at a terminal needs worked out: what there is to pick from,
//! what a pick amounts to, and what offer comes of it. Asking is left to
//! whoever has the terminal.

use vstd::prelude::*;
use crate::types::{Category, GoodsSet, PerCategory, PlayerId, Trade};

verus! {

/// How a seat is marked when the table is shown to a player.
#[derive(Clone, Copy, PartialEq, Eq, Structural, Debug)]
pub enum SeatMark {
    Lead,
    You,
    Other,
}

/// The mark of a seat for the player `me`: the lead is marked as the lead,
/// also where it is the player.
pub fn seat_mark(seat: PlayerId, lead: PlayerId, me: PlayerId) -> (mark: SeatMark)
    ensures
        mark == if seat == lead {
            SeatMark::Lead
        } else if seat == me {
            SeatMark::You
        } else {
            SeatMark::Other
        },
{
    if seat == lead {
        SeatMark::Lead
    } else if seat == me {
        SeatMark::You
    } else {
        SeatMark::Other
    }
}

/// As many items of a category as the amount says, and none for an amount
/// below nothing.
pub open spec fn units(c: Category, amount: i64) -> Seq<Category> {
    Seq::new(
        if amount > 0 {
            amount as nat
        } else {
            0
        },
        |i: int| c,
    )
}

/// The items that a player can pick from: one for each unit held, category
/// by category.
pub open spec fn items_of(goods: GoodsSet) -> Seq<Category> {
    units(Category::Money, goods.money) + units(Category::Cars, goods.cars) + units(
        Category::Clothing,
        goods.clothing,
    ) + units(Category::Food, goods.food) + units(Category::Art, goods.art) + units(
        Category::Travel,
        goods.travel,
    )
}

/// Adds the items of one category, if the list can take them.
fn push_units(items: &mut Vec<Category>, c: Category, amount: i64) -> (done: bool)
    ensures
        done == (old(items)@.len() + units(c, amount).len() <= usize::MAX),
        done ==> final(items)@ == old(items)@ + units(c, amount),
        !done ==> final(items)@ == old(items)@,
{
    assert(units(c, amount).len() == if amount > 0 {
        amount as nat
    } else {
        0
    });
    let listed: usize = items.len();
    if amount <= 0 {
        assert(items@ =~= old(items)@ + units(c, amount));
        return true;
    }
    if amount as u64 > (usize::MAX - listed) as u64 {
        return false;
    }
    let mut pushed: i64 = 0;
    assert(items@ =~= old(items)@ + units(c, 0));
    while pushed < amount
        invariant
            0 <= pushed <= amount,
            old(items)@.len() + amount <= usize::MAX,
            items@ == old(items)@ + units(c, pushed),
        decreases amount - pushed,
    {
        items.push(c);
        pushed = pushed + 1;
        assert(items@ =~= old(items)@ + units(c, pushed));
    }
    true
}

/// The items that a player can pick from: one for each unit held, category
/// by category; or nothing where they are too many to list.
pub fn pickable_items(goods: &GoodsSet) -> (items: Option<Vec<Category>>)
    ensures
        match items {
            Some(items) => items@ == items_of(*goods),
            None => items_of(*goods).len() > usize::MAX,
        },
{
    let mut items: Vec<Category> = Vec::new();
    let done = push_units(&mut items, Category::Money, goods.money) && push_units(
        &mut items,
        Category::Cars,
        goods.cars,
    ) && push_units(&mut items, Category::Clothing, goods.clothing) && push_units(
        &mut items,
        Category::Food,
        goods.food,
    ) && push_units(&mut items, Category::Art, goods.art) && push_units(
        &mut items,
        Category::Travel,
        goods.travel,
    );
    if done {
        assert(items@ =~= items_of(*goods));
        Some(items)
    } else {
        None
    }
}

/// How many of the first `picks` picks fall on an item of the category.
pub open spec fn picked(items: Seq<Category>, picks: Seq<usize>, c: Category) -> nat
    decreases picks.len(),
{
    if picks.len() == 0 {
        0
    } else {
        picked(items, picks.drop_last(), c) + if items[picks.last() as int] == c {
            1nat
        } else {
            0nat
        }
    }
}

/// No more was picked than there were picks.
pub proof fn lemma_picked_bounded(items: Seq<Category>, picks: Seq<usize>, c: Category)
    ensures
        picked(items, picks, c) <= picks.len(),
    decreases picks.len(),
{
    if picks.len() > 0 {
        lemma_picked_bounded(items, picks.drop_last(), c);
    }
}

/// The goods that a pick amounts to: for each category, the number of picks
/// that fall on an item of it.
pub fn tally_picks(items: &Vec<Category>, picks: &Vec<usize>) -> (goods: GoodsSet)
    requires
        picks.len() <= i64::MAX,
        forall|i: int| 0 <= i < picks.len() ==> picks[i] < items.len(),
    ensures
        forall|c: Category| goods.of(c) == picked(items@, picks@, c),
{
    let mut goods: GoodsSet = PerCategory::uniform(0);
    let mut i: usize = 0;
    assert(picks@.take(0) =~= Seq::<usize>::empty());
    while i < picks.len()
        invariant
            i <= picks.len() <= i64::MAX,
            forall|k: int| 0 <= k < picks.len() ==> picks[k] < items.len(),
            forall|c: Category| goods.of(c) == picked(items@, picks@.take(i as int), c),
        decreases picks.len() - i,
    {
        let category = items[picks[i]];
        let ghost before = goods;
        proof {
            assert(picks@.take(i + 1).drop_last() =~= picks@.take(i as int));
            lemma_picked_bounded(items@, picks@.take(i as int), category);
            before.lemma_with(category, (before.of(category) + 1) as i64);
        }
        let so_far: i64 = goods.get(category);
        goods.set(category, so_far + 1);
        i = i + 1;
    }
    assert(picks@.take(i as int) =~= picks@);
    goods
}

/// The offer to the lead that asks for `wanted` and gives `given`, unless
/// both are empty.
pub fn offer_to_lead(me: PlayerId, lead: PlayerId, wanted: GoodsSet, given: GoodsSet) -> (offer:
    Option<Trade>)
    ensures
        offer == if wanted.is_zero() && given.is_zero() {
            None
        } else {
            Some(Trade { proposer: me, accepter: lead, from_proposor: given, from_acceptor: wanted })
        },
{
    if wanted.is_empty() && given.is_empty() {
        None
    } else {
        Some(Trade { proposer: me, accepter: lead, from_proposor: given, from_acceptor: wanted })
    }
}

} // verus!
