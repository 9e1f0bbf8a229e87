use hedonica_sim::engine::{play, play_turns, GameEnd, PlayError, Unobserved};
use hedonica_sim::game::{GameResult, GameRules, GameState, SimConfig};
use hedonica_sim::no_trades::PlayerNoTrades;
use hedonica_sim::player::{
    load_strategies, register_strategy, PlayerConfig, PlayerStrategy, Registry,
    DEFAULT_PLAYER_TYPE,
};
use hedonica_sim::setup::generate_start_state;
use hedonica_sim::sim::{count_wins, is_playable, run_games, run_sim, turn_stats, SimError};
use hedonica_sim::stats::Fraction;
use hedonica_sim::types::{PerCategory, PlayerId, Trade};
use std::collections::HashMap;

/// A player that offers, as lead, more money than it has, and accepts anything.
struct Spendthrift {}

impl PlayerStrategy for Spendthrift {
    fn init(&mut self, _player_id: PlayerId, _value: &serde_json::Value) {}

    fn reset(&mut self) {}

    fn propose_trades_as_lead(&mut self, game_state: &GameState) -> HashMap<PlayerId, Trade> {
        let mut given = PerCategory::uniform(0);
        given.money = game_state.lead_player_state().num_goods.money;
        let accepter = (game_state.lead + 1) % game_state.players.len();
        let nothing = PerCategory::uniform(0);
        let trade =
            Trade { proposer: game_state.lead, accepter, from_proposor: given, from_acceptor: nothing };
        HashMap::from([(accepter, trade)])
    }

    fn propose_trade_as_non_lead(&mut self, _game_state: &GameState) -> Option<Trade> {
        None
    }

    fn accept_trades_as_lead(&mut self, _game_state: &GameState) -> Vec<bool> {
        Vec::new()
    }

    fn accept_trades_as_non_lead(&mut self, _game_state: &GameState, _trade: &Trade) -> bool {
        true
    }
}

fn registry() -> Registry<fn() -> PlayerNoTrades> {
    let mut registry: Registry<fn() -> PlayerNoTrades> = Registry::new();
    register_strategy(&mut registry, DEFAULT_PLAYER_TYPE, PlayerNoTrades::new);
    registry
}

fn won_by(winner: usize, turns: i32) -> GameResult {
    GameResult { turns, winner, scores: vec![0, 0, 0] }
}

#[test]
fn wins_are_counted_by_seat() {
    let results = vec![won_by(2, 5), won_by(0, 7), won_by(2, 9), won_by(2, 11)];
    let wins = count_wins(&results);
    assert_eq!(wins.len(), 2);
    assert_eq!(wins[&0], 1);
    assert_eq!(wins[&2], 3);
    assert!(!wins.contains_key(&1));
    assert!(count_wins(&Vec::new()).is_empty());
}

#[test]
fn turns_are_summed_up() {
    let results = vec![won_by(2, 5), won_by(0, 7), won_by(2, 9), won_by(2, 11)];
    let stats = turn_stats(&results);
    assert_eq!(stats.len(), 4);
    assert_eq!(stats.min(), Some(5));
    assert_eq!(stats.max(), Some(11));
    assert_eq!(stats.mean(), Some(Fraction { numerator: 32, denominator: 4 }));
    assert_eq!(stats.var(), Some(Fraction { numerator: 4 * 276 - 32 * 32, denominator: 16 }));
}

#[test]
fn games_need_a_seat_and_money_that_can_be_counted() {
    let config = SimConfig::default();
    let rules = GameRules::default();
    assert!(is_playable(&config, &rules));
    assert!(!is_playable(&SimConfig { num_players: 0, ..SimConfig::default() }, &rules));
    assert!(is_playable(&SimConfig { num_players: 11, ..SimConfig::default() }, &rules));
    assert!(!is_playable(&SimConfig { num_players: 12, ..SimConfig::default() }, &rules));
    assert!(is_playable(&config, &GameRules { start_money: 0, ..rules }));
    assert!(!is_playable(&config, &GameRules { start_money: -1, ..rules }));
    assert!(!is_playable(&config, &GameRules { start_money: i64::MAX, ..rules }));
}

#[test]
fn a_seeded_game_of_two_is_bounded() {
    let config = SimConfig {
        deck_shuffle_seed: 11,
        preferences_seed: 12,
        num_runs: 20,
        ..SimConfig::default()
    };
    let rules = GameRules::default();
    let summary = run_sim(&config, &rules, &registry(), &mut Unobserved {}).unwrap();
    assert_eq!(summary.results.len(), 20);
    for result in summary.results.iter() {
        assert!(0 <= result.turns && result.turns <= 1000);
        assert!(result.winner == 0 || result.winner == 1);
        assert_eq!(result.scores.len(), 2);
        assert_eq!(result.scores[result.winner], *result.scores.iter().max().unwrap());
    }
}

#[test]
fn seeded_games_repeat_themselves() {
    let config = SimConfig {
        deck_shuffle_seed: 3,
        preferences_seed: 4,
        num_players: 4,
        num_runs: 3,
        ..SimConfig::default()
    };
    let rules = GameRules::default();
    let one = run_sim(&config, &rules, &registry(), &mut Unobserved {}).unwrap();
    let other = run_sim(&config, &rules, &registry(), &mut Unobserved {}).unwrap();
    for game in 0..3 {
        assert_eq!(one.results[game].turns, other.results[game].turns);
        assert_eq!(one.results[game].winner, other.results[game].winner);
        assert_eq!(one.results[game].scores, other.results[game].scores);
        assert_eq!(one.results[game].turns, one.results[0].turns);
        assert_eq!(one.results[game].scores, one.results[0].scores);
    }
    assert_eq!(one.turn_stats.var().unwrap().numerator, 0);
    assert_eq!(one.wins_by_player.len(), 1);
    assert_eq!(one.wins_by_player[&one.results[0].winner], 3);
}

#[test]
fn the_summary_adds_up() {
    let config = SimConfig { num_players: 3, num_runs: 25, ..SimConfig::default() };
    let rules = GameRules::default();
    let summary = run_sim(&config, &rules, &registry(), &mut Unobserved {}).unwrap();
    assert_eq!(summary.results.len(), 25);
    assert_eq!(summary.wins_by_player.values().sum::<i32>(), 25);
    assert_eq!(summary.turn_stats.len(), 25);
    let turns: i128 = summary.results.iter().map(|result| result.turns as i128).sum();
    assert_eq!(summary.turn_stats.mean().unwrap().numerator, turns);
    for seat in summary.wins_by_player.keys() {
        assert!(*seat < 3);
    }
}

#[test]
fn a_series_of_no_games() {
    let rules = GameRules::default();
    for num_runs in [0, -3] {
        let config = SimConfig { num_runs, ..SimConfig::default() };
        let summary = run_sim(&config, &rules, &registry(), &mut Unobserved {}).unwrap();
        assert!(summary.results.is_empty());
        assert!(summary.wins_by_player.is_empty());
        assert_eq!(summary.turn_stats.mean(), None);
    }
}

#[test]
fn nothing_is_played_with_an_unknown_player_type() {
    let config = SimConfig {
        player_configs: vec![PlayerConfig {
            player_type: "Cheater".to_string(),
            config: serde_json::Value::Null,
        }],
        ..SimConfig::default()
    };
    let rules = GameRules::default();
    match run_sim(&config, &rules, &registry(), &mut Unobserved {}) {
        Err(SimError::UnknownPlayerType(unknown)) => {
            assert_eq!(unknown.seat, 0);
            assert_eq!(unknown.player_type, "Cheater");
        }
        _ => panic!("the series went on"),
    }
}

#[test]
fn games_can_be_run_with_players_at_hand() {
    let config = SimConfig { deck_shuffle_seed: 5, num_runs: 2, ..SimConfig::default() };
    let rules = GameRules { max_turns: 7, victory_threshold: 1000, ..GameRules::default() };
    let mut players = vec![PlayerNoTrades::new(), PlayerNoTrades::new()];
    let results = run_games(&config, &rules, &mut players, &mut Unobserved {}).unwrap();
    assert_eq!(results.len(), 2);
    for result in results.iter() {
        assert_eq!(result.turns, 7);
    }
}

#[test]
fn a_series_stops_when_a_player_breaks_the_rules() {
    let config = SimConfig { deck_shuffle_seed: 5, num_runs: 2, ..SimConfig::default() };
    let rules = GameRules::default();
    let mut players = vec![Spendthrift {}, Spendthrift {}];
    match run_games(&config, &rules, &mut players, &mut Unobserved {}) {
        Err(SimError::Play(error)) => assert_eq!(error, PlayError::CannotSettle),
        _ => panic!("the series went on"),
    }
}

#[test]
fn a_single_seat_at_the_threshold_wins_with_its_first_draw() {
    let config = SimConfig {
        num_players: 1,
        deck_shuffle_seed: 1,
        preferences_seed: 1,
        turn_pause_millis: 0,
        hide_game_state: true,
        ..SimConfig::default()
    };
    let rules =
        GameRules { victory_threshold: 10, start_money: 10, deck_size: 5, max_turns: 1000 };
    let game = generate_start_state(&config, &rules).unwrap();
    let mut players: Vec<PlayerNoTrades> = load_strategies(&registry(), &Vec::new(), 1).unwrap();
    let result = play(&rules, game, &mut players, &mut Unobserved {}).unwrap();
    assert_eq!(result.turns, 0);
    assert_eq!(result.winner, 0);
    assert_eq!(result.scores.len(), 1);
    assert!([11, 12, 15, 20].contains(&result.scores[0]));
}

#[test]
fn a_single_seat_that_never_trades_draws_the_whole_deck() {
    let config = SimConfig {
        num_players: 1,
        deck_shuffle_seed: 7,
        preferences_seed: 7,
        turn_pause_millis: 0,
        hide_game_state: true,
        ..SimConfig::default()
    };
    let rules =
        GameRules { victory_threshold: 1000, start_money: 10, deck_size: 5, max_turns: 1000 };
    let mut game = generate_start_state(&config, &rules).unwrap();
    let mut players: Vec<PlayerNoTrades> = load_strategies(&registry(), &Vec::new(), 1).unwrap();
    let end = play_turns(&rules, &mut game, &mut players, &mut Unobserved {});
    assert_eq!(end, Ok(GameEnd::DeckExhausted));
    assert!(game.past_trades.is_empty());
    assert!(game.current_trades.is_empty());
    let goods = game.players[0].num_goods;
    assert_eq!(
        (goods.money, goods.cars, goods.clothing, goods.food, goods.art, goods.travel),
        (10, 1, 1, 1, 1, 1)
    );
    let game = generate_start_state(&config, &rules).unwrap();
    let result = play(&rules, game, &mut players, &mut Unobserved {}).unwrap();
    assert_eq!(result.turns, 5);
    assert_eq!(result.winner, 0);
    assert_eq!(result.scores, vec![30]);
}
