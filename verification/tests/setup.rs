use hedonica_sim::game::{GameRules, SimConfig};
use hedonica_sim::setup::{
    generate_deck, generate_players, generate_preferences_deck, generate_start_state,
};
use hedonica_sim::types::{Category, Good, PerCategory, Preferences};

fn config(deck_shuffle_seed: u64, preferences_seed: u64, num_players: usize) -> SimConfig {
    SimConfig { deck_shuffle_seed, preferences_seed, num_players, ..SimConfig::default() }
}

fn rules(start_money: i64, deck_size: usize) -> GameRules {
    GameRules { start_money, deck_size, ..GameRules::default() }
}

fn categories(deck: &[Good]) -> Vec<Category> {
    deck.iter().map(|good| good.category).collect()
}

fn count(deck: &[Good], category: Category) -> usize {
    deck.iter().filter(|good| good.category == category).count()
}

fn sorted_weights(preferences: &Preferences) -> Vec<u32> {
    let mut weights = vec![
        preferences.cars,
        preferences.clothing,
        preferences.food,
        preferences.art,
        preferences.travel,
    ];
    weights.sort();
    weights
}

fn as_tuple(preferences: &Preferences) -> (u32, u32, u32, u32, u32, u32) {
    (
        preferences.money,
        preferences.cars,
        preferences.clothing,
        preferences.food,
        preferences.art,
        preferences.travel,
    )
}

#[test]
fn the_deck_holds_a_fifth_of_each_category_but_money() {
    for seed in [0, 1, 77] {
        let deck = generate_deck(&config(seed, 1, 2), &rules(10, 500)).unwrap();
        assert_eq!(deck.len(), 500);
        assert_eq!(count(&deck, Category::Money), 0);
        assert_eq!(count(&deck, Category::Cars), 100);
        assert_eq!(count(&deck, Category::Clothing), 100);
        assert_eq!(count(&deck, Category::Food), 100);
        assert_eq!(count(&deck, Category::Art), 100);
        assert_eq!(count(&deck, Category::Travel), 100);
    }
}

#[test]
fn the_deck_size_is_rounded_down_to_fives() {
    let deck = generate_deck(&config(3, 1, 2), &rules(10, 14)).unwrap();
    assert_eq!(deck.len(), 10);
    assert_eq!(count(&deck, Category::Travel), 2);
    let deck = generate_deck(&config(3, 1, 2), &rules(10, 4)).unwrap();
    assert!(deck.is_empty());
    let deck = generate_deck(&config(0, 1, 2), &rules(10, 0)).unwrap();
    assert!(deck.is_empty());
}

#[test]
fn the_same_seed_gives_the_same_deck() {
    let one = generate_deck(&config(42, 1, 2), &rules(10, 500)).unwrap();
    let other = generate_deck(&config(42, 9, 5), &rules(3, 500)).unwrap();
    assert_eq!(categories(&one), categories(&other));
}

#[test]
fn the_deck_is_shuffled() {
    let deck = generate_deck(&config(42, 1, 2), &rules(10, 500)).unwrap();
    let mut sorted = Vec::new();
    for category in [
        Category::Cars,
        Category::Clothing,
        Category::Food,
        Category::Art,
        Category::Travel,
    ] {
        for _ in 0..100 {
            sorted.push(category);
        }
    }
    assert_ne!(categories(&deck), sorted);
}

#[test]
fn another_seed_gives_another_deck() {
    let one = generate_deck(&config(1, 1, 2), &rules(10, 500)).unwrap();
    let other = generate_deck(&config(2, 1, 2), &rules(10, 500)).unwrap();
    assert_ne!(categories(&one), categories(&other));
}

#[test]
fn decks_without_a_seed_differ() {
    let one = generate_deck(&config(0, 1, 2), &rules(10, 500)).unwrap();
    let other = generate_deck(&config(0, 1, 2), &rules(10, 500)).unwrap();
    assert_ne!(categories(&one), categories(&other));
}

#[test]
fn preferences_are_the_five_weights_in_some_order() {
    for seed in [0, 1, 5] {
        let dealt = generate_preferences_deck(&config(1, seed, 11)).unwrap();
        assert_eq!(dealt.len(), 11);
        for preferences in dealt.iter() {
            assert_eq!(preferences.money, 1);
            assert_eq!(sorted_weights(preferences), vec![1, 2, 2, 5, 10]);
        }
    }
}

#[test]
fn the_same_seed_deals_the_same_preferences() {
    let one = generate_preferences_deck(&config(1, 8, 6)).unwrap();
    let other = generate_preferences_deck(&config(2, 8, 6)).unwrap();
    let one: Vec<_> = one.iter().map(as_tuple).collect();
    let other: Vec<_> = other.iter().map(as_tuple).collect();
    assert_eq!(one, other);
}

#[test]
fn more_players_are_dealt_the_same_first_preferences() {
    let few = generate_preferences_deck(&config(1, 8, 3)).unwrap();
    let many = generate_preferences_deck(&config(1, 8, 9)).unwrap();
    let few: Vec<_> = few.iter().map(as_tuple).collect();
    let many: Vec<_> = many.iter().map(as_tuple).collect();
    assert_eq!(few[..], many[..3]);
}

#[test]
fn the_dealt_preferences_are_not_all_the_same() {
    let dealt = generate_preferences_deck(&config(1, 8, 11)).unwrap();
    let dealt: Vec<_> = dealt.iter().map(as_tuple).collect();
    assert!(dealt.iter().any(|preferences| *preferences != dealt[0]));
    assert!(dealt.iter().any(|preferences| *preferences != (1, 1, 2, 2, 5, 10)));
}

#[test]
fn nobody_is_dealt_nothing() {
    let dealt = generate_preferences_deck(&config(1, 1, 0)).unwrap();
    assert!(dealt.is_empty());
}

#[test]
fn players_start_with_money_and_their_bonus() {
    let dealt: Vec<Preferences> = (0..11)
        .map(|i| PerCategory { money: 1, cars: i, clothing: 2, food: 2, art: 5, travel: 10 })
        .collect();
    let players = generate_players(&config(1, 1, 11), &rules(10, 500), dealt);
    let money: Vec<i64> = players.iter().map(|player| player.num_goods.money).collect();
    assert_eq!(money, vec![10, 12, 10, 10, 10, 10, 16, 17, 18, 19, 20]);
    for (seat, player) in players.iter().enumerate() {
        assert_eq!(player.preferences.cars, 10 - seat as u32);
        assert_eq!(player.num_goods.cars, 0);
        assert_eq!(player.num_goods.clothing, 0);
        assert_eq!(player.num_goods.food, 0);
        assert_eq!(player.num_goods.art, 0);
        assert_eq!(player.num_goods.travel, 0);
    }
}

#[test]
fn players_take_preferences_from_the_end() {
    let dealt: Vec<Preferences> = (0..5)
        .map(|i| PerCategory { money: 1, cars: i, clothing: 2, food: 2, art: 5, travel: 10 })
        .collect();
    let players = generate_players(&config(1, 1, 2), &rules(0, 500), dealt);
    assert_eq!(players.len(), 2);
    assert_eq!(players[0].preferences.cars, 4);
    assert_eq!(players[1].preferences.cars, 3);
    assert_eq!(players[0].num_goods.money, 0);
    assert_eq!(players[1].num_goods.money, 2);
}

#[test]
fn a_game_starts_with_the_first_seat_and_nothing_played() {
    let game = generate_start_state(&config(4, 5, 3), &rules(10, 500)).unwrap();
    assert_eq!(game.lead, 0);
    assert_eq!(game.current_turn, 0);
    assert_eq!(game.current_round, 0);
    assert!(game.current_trade_proposals.is_empty());
    assert!(game.current_trades.is_empty());
    assert!(game.past_trades.is_empty());
    assert_eq!(game.deck.len(), 500);
    assert_eq!(game.players.len(), 3);
    assert_eq!(game.players[0].num_goods.money, 10);
    assert_eq!(game.players[1].num_goods.money, 12);
    assert_eq!(game.players[2].num_goods.money, 10);
    for player in game.players.iter() {
        assert_eq!(sorted_weights(&player.preferences), vec![1, 2, 2, 5, 10]);
    }
}

#[test]
fn the_same_seeds_give_the_same_start() {
    let one = generate_start_state(&config(4, 5, 3), &rules(10, 500)).unwrap();
    let other = generate_start_state(&config(4, 5, 3), &rules(10, 500)).unwrap();
    assert_eq!(categories(&one.deck), categories(&other.deck));
    for seat in 0..3 {
        assert_eq!(
            as_tuple(&one.players[seat].preferences),
            as_tuple(&other.players[seat].preferences)
        );
    }
    let dealt = generate_preferences_deck(&config(4, 5, 3)).unwrap();
    for seat in 0..3 {
        assert_eq!(as_tuple(&one.players[seat].preferences), as_tuple(&dealt[2 - seat]));
    }
    let deck = generate_deck(&config(4, 5, 3), &rules(10, 500)).unwrap();
    assert_eq!(categories(&one.deck), categories(&deck));
}

#[test]
fn a_game_without_seeds_starts_too() {
    let game = generate_start_state(&config(0, 0, 2), &rules(10, 50)).unwrap();
    assert_eq!(game.deck.len(), 50);
    assert_eq!(game.players.len(), 2);
}
