//! Bookkeeping over the table: what the players hold, what the deck still
//! holds, and what settling a trade does to both.

use vstd::prelude::*;
use crate::types::{Category, Good, GoodsSet, PerCategory, PlayerId, Preferences, Trade};

verus! {

/// A player's private valuation and current holdings.
#[derive(Clone, Copy, Debug)]
pub struct PlayerState {
    pub preferences: Preferences,
    pub num_goods: GoodsSet,
}

/// The points that `amount` units are worth at `weight` points each.
pub open spec fn worth(amount: i64, weight: u32) -> int {
    amount as int * weight as int
}

/// `worth`, computed.
fn weighted(amount: i64, weight: u32) -> (r: i128)
    ensures
        r == worth(amount, weight),
        -0x8000_0000_0000_0000_0000_0000 <= r <= 0x8000_0000_0000_0000_0000_0000,
{
    assert(-0x8000_0000_0000_0000_0000_0000 <= amount as int * weight as int
        <= 0x8000_0000_0000_0000_0000_0000) by (nonlinear_arith)
        requires
            -0x8000_0000_0000_0000 <= amount as int <= 0x8000_0000_0000_0000,
            0 <= weight as int <= 0x1_0000_0000,
    ;
    (amount as i128) * (weight as i128)
}

impl PlayerState {
    /// No holding is negative.
    pub open spec fn well_formed(self) -> bool {
        forall|c: Category| self.num_goods.of(c) >= 0
    }

    /// Whether no holding is negative.
    pub fn is_well_formed(&self) -> (r: bool)
        ensures
            r == self.well_formed(),
    {
        let goods = self.num_goods;
        let r = goods.money >= 0 && goods.cars >= 0 && goods.clothing >= 0 && goods.food >= 0
            && goods.art >= 0 && goods.travel >= 0;
        proof {
            if r {
                assert forall|c: Category| goods.of(c) >= 0 by {}
            } else {
                assert(goods.of(Category::Money) == goods.money);
                assert(goods.of(Category::Cars) == goods.cars);
                assert(goods.of(Category::Clothing) == goods.clothing);
                assert(goods.of(Category::Food) == goods.food);
                assert(goods.of(Category::Art) == goods.art);
                assert(goods.of(Category::Travel) == goods.travel);
            }
        }
        r
    }

    /// The preference-weighted sum of the holdings.
    pub open spec fn points(self) -> int {
        worth(self.num_goods.money, self.preferences.money) + worth(
            self.num_goods.cars,
            self.preferences.cars,
        ) + worth(self.num_goods.clothing, self.preferences.clothing) + worth(
            self.num_goods.food,
            self.preferences.food,
        ) + worth(self.num_goods.art, self.preferences.art) + worth(
            self.num_goods.travel,
            self.preferences.travel,
        )
    }

    /// The player's score.
    pub fn score(&self) -> (s: i128)
        ensures
            s == self.points(),
    {
        let money: i128 = weighted(self.num_goods.money, self.preferences.money);
        let cars: i128 = weighted(self.num_goods.cars, self.preferences.cars);
        let clothing: i128 = weighted(self.num_goods.clothing, self.preferences.clothing);
        let food: i128 = weighted(self.num_goods.food, self.preferences.food);
        let art: i128 = weighted(self.num_goods.art, self.preferences.art);
        let travel: i128 = weighted(self.num_goods.travel, self.preferences.travel);
        money + cars + clothing + food + art + travel
    }

    /// The player after `amount` units of `c` have left the holdings (or
    /// arrived, where `amount` is negative).
    pub open spec fn gave(self, c: Category, amount: int) -> PlayerState {
        PlayerState {
            preferences: self.preferences,
            num_goods: self.num_goods.with(c, (self.num_goods.of(c) - amount) as i64),
        }
    }
}

/// How many units of `c` the players hold together.
pub open spec fn held(players: Seq<PlayerState>, c: Category) -> int
    decreases players.len(),
{
    if players.len() == 0 {
        0
    } else {
        held(players.drop_last(), c) + players.last().num_goods.of(c)
    }
}

/// How many cards of `c` are in the deck.
pub open spec fn in_deck(deck: Seq<Good>, c: Category) -> nat
    decreases deck.len(),
{
    if deck.len() == 0 {
        0
    } else {
        in_deck(deck.drop_last(), c) + if deck.last().category == c {
            1nat
        } else {
            0nat
        }
    }
}

/// Every player at the table is well formed.
pub open spec fn all_well_formed(players: Seq<PlayerState>) -> bool {
    forall|i: int| 0 <= i < players.len() ==> (#[trigger] players[i]).well_formed()
}

/// Replacing one player changes the total by the difference of the two holdings.
pub proof fn lemma_held_update(players: Seq<PlayerState>, i: int, p: PlayerState, c: Category)
    requires
        0 <= i < players.len(),
    ensures
        held(players.update(i, p), c) == held(players, c) - players[i].num_goods.of(c)
            + p.num_goods.of(c),
    decreases players.len(),
{
    let updated = players.update(i, p);
    if i == players.len() - 1 {
        assert(updated.drop_last() =~= players.drop_last());
    } else {
        assert(updated.drop_last() =~= players.drop_last().update(i, p));
        lemma_held_update(players.drop_last(), i, p, c);
    }
}

/// Among well-formed players nobody holds more than all hold together.
pub proof fn lemma_held_bounds_one(players: Seq<PlayerState>, i: int, c: Category)
    requires
        all_well_formed(players),
        0 <= i < players.len(),
    ensures
        0 <= players[i].num_goods.of(c) <= held(players, c),
    decreases players.len(),
{
    assert(players.last().well_formed());
    assert(players[i].well_formed());
    lemma_held_non_negative(players.drop_last(), c);
    if i < players.len() - 1 {
        lemma_held_bounds_one(players.drop_last(), i, c);
    }
}

/// Well-formed players hold a non-negative total.
pub proof fn lemma_held_non_negative(players: Seq<PlayerState>, c: Category)
    requires
        all_well_formed(players),
    ensures
        0 <= held(players, c),
    decreases players.len(),
{
    if players.len() > 0 {
        assert(players.last().well_formed());
        lemma_held_non_negative(players.drop_last(), c);
    }
}

/// The first players hold no more than all hold together, if all are well
/// formed.
pub proof fn lemma_held_grows(players: Seq<PlayerState>, first: int, c: Category)
    requires
        all_well_formed(players),
        0 <= first <= players.len(),
    ensures
        held(players.take(first), c) <= held(players, c),
    decreases players.len() - first,
{
    if first < players.len() {
        assert(players.take(first + 1).drop_last() =~= players.take(first));
        assert(players.take(first + 1).last() == players[first]);
        assert(players[first].well_formed());
        lemma_held_grows(players, first + 1, c);
    } else {
        assert(players.take(first) =~= players);
    }
}

/// The first cards of a deck hold no more of a category than the whole deck.
pub proof fn lemma_in_deck_grows(deck: Seq<Good>, first: int, c: Category)
    requires
        0 <= first <= deck.len(),
    ensures
        in_deck(deck.take(first), c) <= in_deck(deck, c),
    decreases deck.len() - first,
{
    if first < deck.len() {
        assert(deck.take(first + 1).drop_last() =~= deck.take(first));
        lemma_in_deck_grows(deck, first + 1, c);
    } else {
        assert(deck.take(first) =~= deck);
    }
}

/// Among well-formed players no two hold more than all hold together.
pub proof fn lemma_held_bounds_two(players: Seq<PlayerState>, i: int, j: int, c: Category)
    requires
        all_well_formed(players),
        0 <= i < players.len(),
        0 <= j < players.len(),
        i != j,
    ensures
        players[i].num_goods.of(c) + players[j].num_goods.of(c) <= held(players, c),
{
    let emptied = players[i].gave(c, players[i].num_goods.of(c) as int);
    let rest = players.update(i, emptied);
    players[i].num_goods.lemma_with(c, 0);
    assert(players[i].well_formed());
    assert(emptied.well_formed());
    assert(all_well_formed(rest)) by {
        assert forall|k: int| 0 <= k < rest.len() implies (#[trigger] rest[k]).well_formed() by {
            if k != i {
                assert(players[k].well_formed());
            }
        }
    }
    lemma_held_update(players, i, emptied, c);
    lemma_held_bounds_one(rest, j, c);
}

/// Whether `amount` units can move from a giver to a taker who hold that much:
/// whoever parts with goods must keep some.
pub open spec fn can_move(amount: i64, giver: i64, taker: i64) -> bool {
    &&& amount > 0 ==> giver > amount
    &&& amount < 0 ==> taker > -amount
}

/// `can_move`, computed.
fn movable(amount: i64, giver: i64, taker: i64) -> (r: bool)
    requires
        taker >= 0,
    ensures
        r == can_move(amount, giver, taker),
{
    if amount > 0 {
        giver > amount
    } else if amount < 0 {
        taker + amount > 0
    } else {
        true
    }
}

/// Whether the amounts can move from the giver to the taker: both are at the
/// table, and for each category that moves, the side that parts with goods
/// holds strictly more than it gives.
pub open spec fn can_give(
    players: Seq<PlayerState>,
    giver: PlayerId,
    taker: PlayerId,
    amounts: GoodsSet,
) -> bool {
    &&& giver < players.len()
    &&& taker < players.len()
    &&& forall|c: Category|
        can_move(
            #[trigger] amounts.of(c),
            players[giver as int].num_goods.of(c),
            players[taker as int].num_goods.of(c),
        )
}

/// The table after the amounts have moved from the giver to the taker.
pub open spec fn given(
    players: Seq<PlayerState>,
    giver: PlayerId,
    taker: PlayerId,
    amounts: GoodsSet,
) -> Seq<PlayerState> {
    if giver == taker {
        players
    } else {
        let from = players[giver as int];
        let to = players[taker as int];
        players.update(
            giver as int,
            PlayerState { num_goods: from.num_goods.minus(amounts), ..from },
        ).update(taker as int, PlayerState { num_goods: to.num_goods.plus(amounts), ..to })
    }
}

/// Moving amounts between two players leaves every total as it was; nobody's
/// holdings turn negative, and nobody's preferences change.
pub proof fn lemma_given_conserves(
    players: Seq<PlayerState>,
    giver: PlayerId,
    taker: PlayerId,
    amounts: GoodsSet,
)
    requires
        all_well_formed(players),
        can_give(players, giver, taker, amounts),
        forall|c: Category| held(players, c) <= i64::MAX,
    ensures
        given(players, giver, taker, amounts).len() == players.len(),
        all_well_formed(given(players, giver, taker, amounts)),
        forall|c: Category| held(given(players, giver, taker, amounts), c) == held(players, c),
        forall|i: int|
            0 <= i < players.len() ==> (#[trigger] given(
                players,
                giver,
                taker,
                amounts,
            )[i]).preferences == players[i].preferences,
{
    let after = given(players, giver, taker, amounts);
    if giver != taker {
        let p = giver as int;
        let q = taker as int;
        let from = players[p];
        let to = players[q];
        let gave = PlayerState { num_goods: from.num_goods.minus(amounts), ..from };
        let took = PlayerState { num_goods: to.num_goods.plus(amounts), ..to };
        let between = players.update(p, gave);
        assert(from.well_formed());
        assert(to.well_formed());
        assert forall|c: Category|
            gave.num_goods.of(c) == from.num_goods.of(c) - amounts.of(c) && took.num_goods.of(c)
                == to.num_goods.of(c) + amounts.of(c) && gave.num_goods.of(c) >= 0
                && took.num_goods.of(c) >= 0 by {
            lemma_held_bounds_two(players, p, q, c);
            assert(can_move(amounts.of(c), from.num_goods.of(c), to.num_goods.of(c)));
        }
        assert(gave.well_formed());
        assert(took.well_formed());
        assert forall|i: int| 0 <= i < after.len() implies (#[trigger] after[i]).well_formed() by {
            if i != p && i != q {
                assert(players[i].well_formed());
            }
        }
        assert forall|c: Category| held(after, c) == held(players, c) by {
            lemma_held_update(players, p, gave, c);
            lemma_held_update(between, q, took, c);
        }
    }
}

/// Whether the amounts can move from the giver to the taker.
fn gives(players: &Vec<PlayerState>, giver: PlayerId, taker: PlayerId, amounts: &GoodsSet) -> (r:
    bool)
    requires
        all_well_formed(players@),
    ensures
        r == can_give(players@, giver, taker, *amounts),
{
    if giver >= players.len() || taker >= players.len() {
        return false;
    }
    let from = players[giver].num_goods;
    let to = players[taker].num_goods;
    let moved = *amounts;
    assert(players@[taker as int].well_formed());
    assert(forall|c: Category| to.of(c) >= 0);
    assert(to.of(Category::Money) >= 0 && to.of(Category::Cars) >= 0 && to.of(
        Category::Clothing,
    ) >= 0 && to.of(Category::Food) >= 0 && to.of(Category::Art) >= 0 && to.of(Category::Travel)
        >= 0);
    let r = movable(moved.money, from.money, to.money) && movable(
        moved.cars,
        from.cars,
        to.cars,
    ) && movable(moved.clothing, from.clothing, to.clothing) && movable(
        moved.food,
        from.food,
        to.food,
    ) && movable(moved.art, from.art, to.art) && movable(moved.travel, from.travel, to.travel);
    proof {
        if r {
            assert forall|c: Category| can_move(#[trigger] moved.of(c), from.of(c), to.of(c)) by {}
        } else {
            assert(moved.of(Category::Money) == moved.money);
            assert(moved.of(Category::Cars) == moved.cars);
            assert(moved.of(Category::Clothing) == moved.clothing);
            assert(moved.of(Category::Food) == moved.food);
            assert(moved.of(Category::Art) == moved.art);
            assert(moved.of(Category::Travel) == moved.travel);
        }
    }
    r
}

/// Moves the amounts from the giver to the taker.
fn give(players: &mut Vec<PlayerState>, giver: PlayerId, taker: PlayerId, amounts: &GoodsSet)
    requires
        all_well_formed(old(players)@),
        can_give(old(players)@, giver, taker, *amounts),
        forall|c: Category| held(old(players)@, c) <= i64::MAX,
    ensures
        final(players)@ == given(old(players)@, giver, taker, *amounts),
{
    if giver == taker {
        return ;
    }
    let from = players[giver];
    let to = players[taker];
    let moved = *amounts;
    proof {
        lemma_given_conserves(players@, giver, taker, moved);
        assert(from.well_formed());
        assert(to.well_formed());
        assert forall|c: Category|
            0 <= from.num_goods.of(c) - #[trigger] moved.of(c) <= i64::MAX && 0
                <= to.num_goods.of(c) + moved.of(c) <= i64::MAX by {
            lemma_held_bounds_two(players@, giver as int, taker as int, c);
            assert(can_move(moved.of(c), from.num_goods.of(c), to.num_goods.of(c)));
        }
        assert(moved.of(Category::Money) == moved.money);
        assert(moved.of(Category::Cars) == moved.cars);
        assert(moved.of(Category::Clothing) == moved.clothing);
        assert(moved.of(Category::Food) == moved.food);
        assert(moved.of(Category::Art) == moved.art);
        assert(moved.of(Category::Travel) == moved.travel);
    }
    let gave = PlayerState {
        preferences: from.preferences,
        num_goods: PerCategory {
            money: from.num_goods.money - moved.money,
            cars: from.num_goods.cars - moved.cars,
            clothing: from.num_goods.clothing - moved.clothing,
            food: from.num_goods.food - moved.food,
            art: from.num_goods.art - moved.art,
            travel: from.num_goods.travel - moved.travel,
        },
    };
    let took = PlayerState {
        preferences: to.preferences,
        num_goods: PerCategory {
            money: to.num_goods.money + moved.money,
            cars: to.num_goods.cars + moved.cars,
            clothing: to.num_goods.clothing + moved.clothing,
            food: to.num_goods.food + moved.food,
            art: to.num_goods.art + moved.art,
            travel: to.num_goods.travel + moved.travel,
        },
    };
    players[giver] = gave;
    players[taker] = took;
}

impl Trade {
    /// Whether the players can fulfil the trade: the proposer can give what
    /// the offer lists under the proposer, and once that has moved, the
    /// accepter can give what the offer lists under the accepter.
    pub open spec fn can_settle(self, players: Seq<PlayerState>) -> bool {
        &&& can_give(players, self.proposer, self.accepter, self.from_proposor)
        &&& can_give(
            given(players, self.proposer, self.accepter, self.from_proposor),
            self.accepter,
            self.proposer,
            self.from_acceptor,
        )
    }

    /// The table after the trade: the proposer's amounts have gone from the
    /// proposer to the accepter, and then the accepter's amounts from the
    /// accepter to the proposer.
    pub open spec fn settled(self, players: Seq<PlayerState>) -> Seq<PlayerState> {
        given(
            given(players, self.proposer, self.accepter, self.from_proposor),
            self.accepter,
            self.proposer,
            self.from_acceptor,
        )
    }

    /// Whether the players can fulfil the trade.
    pub fn is_settleable(&self, players: &Vec<PlayerState>) -> (r: bool)
        requires
            all_well_formed(players@),
            forall|c: Category| held(players@, c) <= i64::MAX,
        ensures
            r == self.can_settle(players@),
    {
        if !gives(players, self.proposer, self.accepter, &self.from_proposor) {
            return false;
        }
        let mut between: Vec<PlayerState> = players.clone();
        assert(between@ =~= players@);
        proof {
            lemma_given_conserves(players@, self.proposer, self.accepter, self.from_proposor);
            let moved = given(players@, self.proposer, self.accepter, self.from_proposor);
            assert forall|c: Category| held(moved, c) <= i64::MAX by {
                assert(held(moved, c) == held(players@, c));
            }
        }
        give(&mut between, self.proposer, self.accepter, &self.from_proposor);
        gives(&between, self.accepter, self.proposer, &self.from_acceptor)
    }

    /// Settles the trade: moves the proposer's amounts to the accepter, and
    /// then the accepter's amounts to the proposer.
    pub fn settle(&self, players: &mut Vec<PlayerState>)
        requires
            all_well_formed(old(players)@),
            self.can_settle(old(players)@),
            forall|c: Category| held(old(players)@, c) <= i64::MAX,
        ensures
            final(players)@ == self.settled(old(players)@),
    {
        proof {
            lemma_given_conserves(players@, self.proposer, self.accepter, self.from_proposor);
            let between = given(players@, self.proposer, self.accepter, self.from_proposor);
            assert forall|c: Category| held(between, c) <= i64::MAX by {
                assert(held(between, c) == held(players@, c));
            }
        }
        give(players, self.proposer, self.accepter, &self.from_proposor);
        give(players, self.accepter, self.proposer, &self.from_acceptor);
    }
}

/// The table after the trades have been settled one after the other, or
/// `None` where one of them cannot be fulfilled when its turn comes.
pub open spec fn settle_all(players: Seq<PlayerState>, trades: Seq<Trade>) -> Option<
    Seq<PlayerState>,
>
    decreases trades.len(),
{
    if trades.len() == 0 {
        Some(players)
    } else {
        match settle_all(players, trades.drop_last()) {
            Some(before) => if trades.last().can_settle(before) {
                Some(trades.last().settled(before))
            } else {
                None
            },
            None => None,
        }
    }
}

/// Settling a trade moves goods between two players and leaves every total
/// as it was; nobody's holdings turn negative, and nobody's preferences change.
pub proof fn lemma_settled_conserves(trade: Trade, players: Seq<PlayerState>)
    requires
        all_well_formed(players),
        trade.can_settle(players),
        forall|c: Category| held(players, c) <= i64::MAX,
    ensures
        trade.settled(players).len() == players.len(),
        all_well_formed(trade.settled(players)),
        forall|c: Category| held(trade.settled(players), c) == held(players, c),
        forall|i: int|
            0 <= i < players.len() ==> (#[trigger] trade.settled(players)[i]).preferences
                == players[i].preferences,
{
    let between = given(players, trade.proposer, trade.accepter, trade.from_proposor);
    let after = trade.settled(players);
    lemma_given_conserves(players, trade.proposer, trade.accepter, trade.from_proposor);
    assert forall|c: Category| held(between, c) <= i64::MAX by {
        assert(held(between, c) == held(players, c));
    }
    lemma_given_conserves(between, trade.accepter, trade.proposer, trade.from_acceptor);
    assert forall|c: Category| held(after, c) == held(players, c) by {
        assert(held(between, c) == held(players, c));
    }
    assert forall|i: int| 0 <= i < players.len() implies (#[trigger] after[i]).preferences
        == players[i].preferences by {
        assert(between[i].preferences == players[i].preferences);
    }
}

/// Settling trades one after the other leaves every total as it was; nobody's
/// holdings turn negative, and nobody's preferences change.
pub proof fn lemma_settle_all_conserves(players: Seq<PlayerState>, trades: Seq<Trade>)
    requires
        all_well_formed(players),
        forall|c: Category| held(players, c) <= i64::MAX,
        settle_all(players, trades) is Some,
    ensures
        settle_all(players, trades).unwrap().len() == players.len(),
        all_well_formed(settle_all(players, trades).unwrap()),
        forall|c: Category| held(settle_all(players, trades).unwrap(), c) == held(players, c),
        forall|i: int|
            0 <= i < players.len() ==> (#[trigger] settle_all(
                players,
                trades,
            ).unwrap()[i]).preferences == players[i].preferences,
    decreases trades.len(),
{
    if trades.len() > 0 {
        lemma_settle_all_conserves(players, trades.drop_last());
        let before = settle_all(players, trades.drop_last()).unwrap();
        assert forall|c: Category| held(before, c) <= i64::MAX by {
            assert(held(before, c) == held(players, c));
        }
        lemma_settled_conserves(trades.last(), before);
        let after = trades.last().settled(before);
        assert forall|c: Category| held(after, c) == held(players, c) by {
            assert(held(before, c) == held(players, c));
        }
    }
}

/// Settling two runs of trades one after the other is settling them as one run.
pub proof fn lemma_settle_all_concat(
    players: Seq<PlayerState>,
    first: Seq<Trade>,
    second: Seq<Trade>,
)
    ensures
        settle_all(players, first + second) == match settle_all(players, first) {
            Some(between) => settle_all(between, second),
            None => None,
        },
    decreases second.len(),
{
    if second.len() == 0 {
        assert(first + second =~= first);
    } else {
        assert((first + second).drop_last() =~= first + second.drop_last());
        lemma_settle_all_concat(players, first, second.drop_last());
    }
}

} // verus!
