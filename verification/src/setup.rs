//! The start of a game: a shuffled deck, dealt preferences, and players with
//! their starting money.

use vstd::prelude::*;
use std::collections::HashMap;
use rand::rngs::StdRng;
use crate::game::{GameRules, GameState, GameView, SimConfig};
use crate::ledger::{held, in_deck, PlayerState};
use crate::random::{
    arranged, generator_after_shuffle, is_arrangement, lemma_arranged_same_items, seeded,
    seeded_generator, shuffle, shuffle_order, unseeded,
};
use crate::types::{Category, Good, GoodsSet, PerCategory, Preferences};

verus! {

/// The most seats that a game can have.
pub const MAX_PLAYERS: usize = 11;

/// `count` cards of one category.
pub open spec fn run_of(category: Category, count: nat) -> Seq<Good> {
    Seq::new(count, |i: int| Good { category })
}

/// The deck before it is shuffled: `count` cards of each category but money,
/// category by category.
pub open spec fn sorted_deck(count: nat) -> Seq<Good> {
    run_of(Category::Cars, count) + run_of(Category::Clothing, count) + run_of(
        Category::Food,
        count,
    ) + run_of(Category::Art, count) + run_of(Category::Travel, count)
}

/// The weights before they are shuffled.
pub open spec fn sorted_weights() -> Seq<u32> {
    seq![1u32, 2u32, 2u32, 5u32, 10u32]
}

/// The preferences that give money the weight 1 and the other categories, in
/// their order, the five weights.
pub open spec fn weights_to_preferences(weights: Seq<u32>) -> Preferences {
    PerCategory {
        money: 1,
        cars: weights[0],
        clothing: weights[1],
        food: weights[2],
        art: weights[3],
        travel: weights[4],
    }
}

/// Whether the preferences give money the weight 1 and the other categories
/// the weights 1, 2, 2, 5 and 10 in some order.
pub open spec fn is_dealt(preferences: Preferences) -> bool {
    &&& preferences.money == 1
    &&& seq![
        preferences.cars,
        preferences.clothing,
        preferences.food,
        preferences.art,
        preferences.travel,
    ].to_multiset() == sorted_weights().to_multiset()
}

/// The preferences of `players` players, dealt by a generator: for each
/// player in turn the weights are shuffled once more.
pub open spec fn dealt(generator: StdRng, weights: Seq<u32>, players: nat) -> Seq<Preferences>
    decreases players,
{
    if players == 0 {
        Seq::empty()
    } else {
        let shuffled = arranged(weights, shuffle_order(generator, weights.len()));
        seq![weights_to_preferences(shuffled)] + dealt(
            generator_after_shuffle(generator, weights.len()),
            shuffled,
            (players - 1) as nat,
        )
    }
}

/// What a seat gets on top of the starting money, to make up for moving late.
pub open spec fn seat_bonus(seat: int) -> int {
    if seat == 1 {
        2
    } else if 6 <= seat <= 10 {
        seat
    } else {
        0
    }
}

/// The player of a seat at the start: the money of the rules and the seat's
/// bonus, and no goods.
pub open spec fn starting_player(preferences: Preferences, start_money: i64, seat: int)
    -> PlayerState {
    PlayerState {
        preferences,
        num_goods: PerCategory {
            money: (start_money + seat_bonus(seat)) as i64,
            cars: 0,
            clothing: 0,
            food: 0,
            art: 0,
            travel: 0,
        },
    }
}

/// The players at the start: seat `i` gets the preferences that are `i` from
/// the end of the dealt ones.
pub open spec fn starting_players(dealt: Seq<Preferences>, start_money: i64, players: nat) -> Seq<
    PlayerState,
> {
    Seq::new(
        players,
        |seat: int| starting_player(dealt[dealt.len() - 1 - seat], start_money, seat),
    )
}

/// The cards of a category are the occurrences of its card.
pub proof fn lemma_in_deck_counts(deck: Seq<Good>, c: Category)
    ensures
        in_deck(deck, c) == deck.to_multiset().count(Good { category: c }),
    decreases deck.len(),
{
    broadcast use vstd::seq_lib::to_multiset_build;

    if deck.len() == 0 {
        deck.to_multiset_ensures();
        assert(!deck.contains(Good { category: c }));
    } else {
        lemma_in_deck_counts(deck.drop_last(), c);
        assert(deck =~= deck.drop_last().push(deck.last()));
    }
}

/// Two decks put together hold the cards of both.
pub proof fn lemma_in_deck_concat(first: Seq<Good>, second: Seq<Good>, c: Category)
    ensures
        in_deck(first + second, c) == in_deck(first, c) + in_deck(second, c),
    decreases second.len(),
{
    if second.len() == 0 {
        assert(first + second =~= first);
    } else {
        assert((first + second).drop_last() =~= first + second.drop_last());
        lemma_in_deck_concat(first, second.drop_last(), c);
    }
}

/// A run holds its cards under its category and none under another.
pub proof fn lemma_in_deck_run(category: Category, count: nat, c: Category)
    ensures
        in_deck(run_of(category, count), c) == if category == c {
            count
        } else {
            0
        },
    decreases count,
{
    if count > 0 {
        assert(run_of(category, count).drop_last() =~= run_of(category, (count - 1) as nat));
        lemma_in_deck_run(category, (count - 1) as nat, c);
    }
}

/// The sorted deck holds `count` cards of every category but money.
pub proof fn lemma_sorted_deck(count: nat, c: Category)
    ensures
        sorted_deck(count).len() == 5 * count,
        in_deck(sorted_deck(count), c) == if c == Category::Money {
            0
        } else {
            count
        },
{
    let cars = run_of(Category::Cars, count);
    let clothing = run_of(Category::Clothing, count);
    let food = run_of(Category::Food, count);
    let art = run_of(Category::Art, count);
    let travel = run_of(Category::Travel, count);
    lemma_in_deck_run(Category::Cars, count, c);
    lemma_in_deck_run(Category::Clothing, count, c);
    lemma_in_deck_run(Category::Food, count, c);
    lemma_in_deck_run(Category::Art, count, c);
    lemma_in_deck_run(Category::Travel, count, c);
    lemma_in_deck_concat(cars, clothing, c);
    lemma_in_deck_concat(cars + clothing, food, c);
    lemma_in_deck_concat(cars + clothing + food, art, c);
    lemma_in_deck_concat(cars + clothing + food + art, travel, c);
}

/// A shuffled deck holds of every category what it held before.
pub proof fn lemma_shuffled_deck(deck: Seq<Good>, order: Seq<int>, c: Category)
    requires
        is_arrangement(order, deck.len()),
    ensures
        in_deck(arranged(deck, order), c) == in_deck(deck, c),
{
    lemma_arranged_same_items(deck, order);
    lemma_in_deck_counts(deck, c);
    lemma_in_deck_counts(arranged(deck, order), c);
}

/// The generator for a seed: the seeded one, or for the seed 0 one that the
/// machine seeds, if it can.
fn generator_for(seed: u64) -> (generator: Option<StdRng>)
    ensures
        seed != 0 ==> generator == Some(seeded_generator(seed)),
{
    if seed == 0 {
        unseeded()
    } else {
        Some(seeded(seed))
    }
}

/// Adds `count` cards of a category to the end of the deck.
fn push_run(deck: &mut Vec<Good>, category: Category, count: usize)
    ensures
        final(deck)@ == old(deck)@ + run_of(category, count as nat),
{
    let mut pushed: usize = 0;
    assert(deck@ =~= old(deck)@ + run_of(category, 0));
    while pushed < count
        invariant
            pushed <= count,
            deck@ == old(deck)@ + run_of(category, pushed as nat),
        decreases count - pushed,
    {
        deck.push(Good { category });
        pushed = pushed + 1;
        assert(deck@ =~= old(deck)@ + run_of(category, pushed as nat));
    }
}

/// The sorted deck of `count` cards per category, shuffled by the generator.
fn shuffled_deck(generator: StdRng, count: usize) -> (deck: Vec<Good>)
    ensures
        deck@ == arranged(
            sorted_deck(count as nat),
            shuffle_order(generator, sorted_deck(count as nat).len()),
        ),
        is_arrangement(
            shuffle_order(generator, sorted_deck(count as nat).len()),
            sorted_deck(count as nat).len(),
        ),
{
    let mut generator = generator;
    let mut deck: Vec<Good> = Vec::new();
    push_run(&mut deck, Category::Cars, count);
    push_run(&mut deck, Category::Clothing, count);
    push_run(&mut deck, Category::Food, count);
    push_run(&mut deck, Category::Art, count);
    push_run(&mut deck, Category::Travel, count);
    assert(deck@ =~= sorted_deck(count as nat));
    shuffle(&mut deck, &mut generator);
    deck
}

/// The deck of a game: as many cards of each category but money as a fifth
/// of the deck size allows, shuffled. A seed other than 0 fixes the order.
pub fn generate_deck(config: &SimConfig, rules: &GameRules) -> (deck: Option<Vec<Good>>)
    ensures
        deck matches Some(cards) ==> {
            &&& cards@.to_multiset() == sorted_deck((rules.deck_size / 5) as nat).to_multiset()
            &&& cards@.len() == 5 * (rules.deck_size / 5)
            &&& forall|c: Category|
                #[trigger] in_deck(cards@, c) == if c == Category::Money {
                    0
                } else {
                    rules.deck_size as int / 5
                }
        },
        config.deck_shuffle_seed != 0 ==> (deck matches Some(cards) && cards@ == arranged(
            sorted_deck((rules.deck_size / 5) as nat),
            shuffle_order(
                seeded_generator(config.deck_shuffle_seed),
                sorted_deck((rules.deck_size / 5) as nat).len(),
            ),
        )),
{
    let count: usize = rules.deck_size / 5;
    match generator_for(config.deck_shuffle_seed) {
        Some(generator) => {
            let cards = shuffled_deck(generator, count);
            proof {
                let sorted = sorted_deck(count as nat);
                let order = shuffle_order(generator, sorted.len());
                lemma_arranged_same_items(sorted, order);
                assert forall|c: Category|
                    #[trigger] in_deck(cards@, c) == if c == Category::Money {
                        0
                    } else {
                        rules.deck_size as int / 5
                    } by {
                    lemma_shuffled_deck(sorted, order, c);
                    lemma_sorted_deck(count as nat, c);
                }
                lemma_sorted_deck(count as nat, Category::Money);
            }
            Some(cards)
        },
        None => None,
    }
}

/// The preferences of `players` players, dealt by the generator.
fn deal_preferences(generator: StdRng, players: usize) -> (preferences: Vec<Preferences>)
    ensures
        preferences@ == dealt(generator, sorted_weights(), players as nat),
        forall|i: int| 0 <= i < players ==> is_dealt(#[trigger] preferences@[i]),
{
    let ghost start = generator;
    let mut generator = generator;
    let mut weights: Vec<u32> = vec![1u32, 2u32, 2u32, 5u32, 10u32];
    let mut preferences: Vec<Preferences> = Vec::new();
    let mut player: usize = 0;
    assert(weights@ =~= sorted_weights());
    assert(dealt(generator, sorted_weights(), players as nat) =~= preferences@ + dealt(
        generator,
        weights@,
        players as nat,
    ));
    while player < players
        invariant
            player <= players,
            preferences@.len() == player,
            weights@.len() == 5,
            weights@.to_multiset() == sorted_weights().to_multiset(),
            dealt(start, sorted_weights(), players as nat) == preferences@ + dealt(
                generator,
                weights@,
                (players - player) as nat,
            ),
            forall|i: int| 0 <= i < player ==> is_dealt(#[trigger] preferences@[i]),
        decreases players - player,
    {
        let ghost before = weights@;
        let ghost earlier = generator;
        let ghost dealt_before = preferences@;
        shuffle(&mut weights, &mut generator);
        proof {
            lemma_arranged_same_items(before, shuffle_order(earlier, 5));
        }
        let next = PerCategory {
            money: 1,
            cars: weights[0],
            clothing: weights[1],
            food: weights[2],
            art: weights[3],
            travel: weights[4],
        };
        preferences.push(next);
        proof {
            assert(seq![next.cars, next.clothing, next.food, next.art, next.travel] =~= weights@);
            assert(next == weights_to_preferences(weights@));
            assert(preferences@ + dealt(generator, weights@, (players - player - 1) as nat)
                =~= dealt_before + (seq![next] + dealt(
                generator,
                weights@,
                (players - player - 1) as nat,
            )));
            assert forall|i: int| 0 <= i < player + 1 implies is_dealt(
                #[trigger] preferences@[i],
            ) by {
                if i < player {
                    assert(preferences@[i] == dealt_before[i]);
                }
            }
        }
        player = player + 1;
    }
    assert(preferences@ + dealt(generator, weights@, 0) =~= preferences@);
    preferences
}

/// The preferences of the players of a game, dealt one after the other: each
/// gives money the weight 1 and the other categories the weights 1, 2, 2, 5
/// and 10 in a shuffled order. A seed other than 0 fixes what is dealt.
pub fn generate_preferences_deck(config: &SimConfig) -> (preferences: Option<Vec<Preferences>>)
    ensures
        preferences matches Some(dealt_ones) ==> {
            &&& dealt_ones@.len() == config.num_players
            &&& forall|i: int| 0 <= i < config.num_players ==> is_dealt(#[trigger] dealt_ones@[i])
        },
        config.preferences_seed != 0 ==> (preferences matches Some(dealt_ones) && dealt_ones@
            == dealt(
            seeded_generator(config.preferences_seed),
            sorted_weights(),
            config.num_players as nat,
        )),
{
    match generator_for(config.preferences_seed) {
        Some(generator) => {
            let dealt_ones = deal_preferences(generator, config.num_players);
            proof {
                lemma_dealt_len(generator, sorted_weights(), config.num_players as nat);
            }
            Some(dealt_ones)
        },
        None => None,
    }
}

/// As many preferences are dealt as there are players.
pub proof fn lemma_dealt_len(generator: StdRng, weights: Seq<u32>, players: nat)
    ensures
        dealt(generator, weights, players).len() == players,
    decreases players,
{
    if players > 0 {
        lemma_dealt_len(
            generator_after_shuffle(generator, weights.len()),
            arranged(weights, shuffle_order(generator, weights.len())),
            (players - 1) as nat,
        );
    }
}

/// `seat_bonus`, computed.
fn bonus_of(seat: usize) -> (bonus: i64)
    ensures
        bonus == seat_bonus(seat as int),
        0 <= bonus <= 10,
{
    if seat == 1 {
        2
    } else if 6 <= seat && seat <= 10 {
        seat as i64
    } else {
        0
    }
}

/// The players at the start of a game. Each takes the preferences at the end
/// of those dealt, and starts with the money of the rules and the seat's
/// bonus.
pub fn generate_players(
    config: &SimConfig,
    rules: &GameRules,
    preferences_deck: Vec<Preferences>,
) -> (players: Vec<PlayerState>)
    requires
        config.num_players <= MAX_PLAYERS,
        config.num_players <= preferences_deck.len(),
        rules.start_money <= i64::MAX - 10,
    ensures
        players@ == starting_players(
            preferences_deck@,
            rules.start_money,
            config.num_players as nat,
        ),
{
    let mut preferences_deck = preferences_deck;
    let ghost dealt_ones = preferences_deck@;
    let mut players: Vec<PlayerState> = Vec::new();
    let mut seat: usize = 0;
    while seat < config.num_players
        invariant
            seat <= config.num_players <= dealt_ones.len(),
            rules.start_money <= i64::MAX - 10,
            players@.len() == seat,
            preferences_deck@ == dealt_ones.take(dealt_ones.len() - seat),
            forall|i: int|
                0 <= i < seat ==> #[trigger] players@[i] == starting_player(
                    dealt_ones[dealt_ones.len() - 1 - i],
                    rules.start_money,
                    i,
                ),
        decreases config.num_players - seat,
    {
        let preferences = preferences_deck.pop().unwrap();
        let num_goods: GoodsSet = PerCategory {
            money: rules.start_money + bonus_of(seat),
            cars: 0,
            clothing: 0,
            food: 0,
            art: 0,
            travel: 0,
        };
        let ghost seated = players@;
        players.push(PlayerState { preferences, num_goods });
        assert forall|i: int| 0 <= i < seat + 1 implies #[trigger] players@[i] == starting_player(
            dealt_ones[dealt_ones.len() - 1 - i],
            rules.start_money,
            i,
        ) by {
            if i < seat {
                assert(players@[i] == seated[i]);
            }
        }
        assert(preferences_deck@ =~= dealt_ones.take(dealt_ones.len() - seat - 1));
        seat = seat + 1;
    }
    assert(players@ =~= starting_players(
        dealt_ones,
        rules.start_money,
        config.num_players as nat,
    ));
    players
}

/// Starting money up to this amount leaves room to count all the money of a
/// full table.
pub const MAX_START_MONEY: i64 = 0x0800_0000_0000_0000;

/// Whether the state is a start of a game under the configuration and the
/// rules: the first seat leads, nothing has been played, the deck is a
/// shuffle of the sorted deck, and each player has dealt preferences, the
/// starting money with the seat's bonus, and no goods.
pub open spec fn is_start(game: GameView, config: SimConfig, rules: GameRules) -> bool {
    &&& game.lead == 0
    &&& game.current_turn == 0
    &&& game.current_round == 0
    &&& game.proposals == Map::<usize, crate::types::Trade>::empty()
    &&& game.current_trades == Seq::<crate::types::Trade>::empty()
    &&& game.past_trades == Map::<i32, Seq<crate::types::Trade>>::empty()
    &&& game.deck.to_multiset() == sorted_deck((rules.deck_size / 5) as nat).to_multiset()
    &&& forall|c: Category|
        #[trigger] in_deck(game.deck, c) == if c == Category::Money {
            0
        } else {
            rules.deck_size as int / 5
        }
    &&& game.players.len() == config.num_players
    &&& forall|seat: int|
        0 <= seat < config.num_players ==> is_dealt((#[trigger] game.players[seat]).preferences)
            && game.players[seat] == starting_player(
            game.players[seat].preferences,
            rules.start_money,
            seat,
        )
}

/// The start of the game that the seeds of the configuration fix.
pub open spec fn seeded_start(config: SimConfig, rules: GameRules) -> GameView {
    let sorted = sorted_deck((rules.deck_size / 5) as nat);
    GameView {
        deck: arranged(
            sorted,
            shuffle_order(seeded_generator(config.deck_shuffle_seed), sorted.len()),
        ),
        players: starting_players(
            dealt(
                seeded_generator(config.preferences_seed),
                sorted_weights(),
                config.num_players as nat,
            ),
            rules.start_money,
            config.num_players as nat,
        ),
        lead: 0,
        current_turn: 0,
        current_round: 0,
        proposals: Map::empty(),
        current_trades: Seq::empty(),
        past_trades: Map::empty(),
    }
}

/// Players who each hold between nothing and `most` of a category hold
/// between nothing and `most` times their number together.
pub proof fn lemma_held_at_most(players: Seq<PlayerState>, c: Category, most: int)
    requires
        forall|i: int| 0 <= i < players.len() ==> 0 <= (#[trigger] players[i]).num_goods.of(c)
            <= most,
    ensures
        0 <= held(players, c) <= players.len() * most,
    decreases players.len(),
{
    if players.len() > 0 {
        assert forall|i: int| 0 <= i < players.len() - 1 implies 0 <= (
        #[trigger] players.drop_last()[i]).num_goods.of(c) <= most by {
            assert(players.drop_last()[i] == players[i]);
        }
        lemma_held_at_most(players.drop_last(), c, most);
        assert(0 <= players[players.len() - 1].num_goods.of(c) <= most);
        assert((players.len() - 1) * most + most == players.len() * most) by (nonlinear_arith);
    } else {
        assert(players.len() * most == 0) by (nonlinear_arith)
            requires
                players.len() == 0,
        ;
    }
}

/// A start with at least one player and starting money between nothing and
/// `MAX_START_MONEY` is well formed.
pub proof fn lemma_start_well_formed(game: GameView, config: SimConfig, rules: GameRules)
    requires
        is_start(game, config, rules),
        1 <= config.num_players <= MAX_PLAYERS,
        0 <= rules.start_money <= MAX_START_MONEY,
    ensures
        game.well_formed(),
{
    assert forall|i: int| 0 <= i < game.players.len() implies (
    #[trigger] game.players[i]).well_formed() by {
        let player = game.players[i];
        assert(is_dealt(player.preferences));
        assert forall|c: Category| player.num_goods.of(c) >= 0 by {}
    }
    assert forall|c: Category| #![trigger held(game.players, c)] game.supply(c) <= i64::MAX by {
        let most = if c == Category::Money {
            MAX_START_MONEY + 10
        } else {
            0
        };
        assert forall|i: int| 0 <= i < game.players.len() implies 0 <= (
        #[trigger] game.players[i]).num_goods.of(c) <= most by {
            assert(is_dealt(game.players[i].preferences));
        }
        lemma_held_at_most(game.players, c, most);
        assert(game.players.len() * most <= 11 * most) by (nonlinear_arith)
            requires
                game.players.len() <= 11,
                most >= 0,
        ;
        assert(in_deck(game.deck, c) == if c == Category::Money {
            0
        } else {
            rules.deck_size as int / 5
        });
    }
}

/// The state in which a game starts: dealt preferences, players with their
/// starting money, a shuffled deck, the first seat in the lead. Seeds other
/// than 0 fix the state; with a seed of 0 the machine's source of randomness
/// decides, and nothing comes back where it fails.
pub fn generate_start_state(config: &SimConfig, rules: &GameRules) -> (state: Option<GameState>)
    requires
        config.num_players <= MAX_PLAYERS,
        rules.start_money <= i64::MAX - 10,
    ensures
        state matches Some(game) ==> is_start(game@, *config, *rules),
        state matches Some(game) ==> (1 <= config.num_players && 0 <= rules.start_money
            <= MAX_START_MONEY ==> game@.well_formed()),
        config.deck_shuffle_seed != 0 && config.preferences_seed != 0 ==> (state matches Some(
            game,
        ) && game@ == seeded_start(*config, *rules)),
{
    broadcast use vstd::std_specs::hash::group_hash_axioms;

    let preferences_deck = match generate_preferences_deck(config) {
        Some(dealt_ones) => dealt_ones,
        None => {
            return None;
        },
    };
    let ghost dealt_ones = preferences_deck@;
    let players = generate_players(config, rules, preferences_deck);
    let deck = match generate_deck(config, rules) {
        Some(cards) => cards,
        None => {
            return None;
        },
    };
    let game = GameState {
        players,
        deck,
        lead: 0,
        current_turn: 0,
        current_round: 0,
        current_trade_proposals: HashMap::new(),
        current_trades: Vec::new(),
        past_trades: HashMap::new(),
    };
    proof {
        assert(game@.past_trades =~= Map::<i32, Seq<crate::types::Trade>>::empty());
        assert(is_start(game@, *config, *rules));
        if 1 <= config.num_players && 0 <= rules.start_money <= MAX_START_MONEY {
            lemma_start_well_formed(game@, *config, *rules);
        }
    }
    Some(game)
}

} // verus!
