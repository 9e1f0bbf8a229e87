use hedonica_sim::engine::{
    play, play_round, play_turn, play_turns, settle_answers, table_offers, GameEnd, PlayError,
    RoundEnd, RoundObserver, TurnEnd, Unobserved,
};
use hedonica_sim::game::{GameRules, GameState};
use hedonica_sim::ledger::PlayerState;
use hedonica_sim::no_trades::PlayerNoTrades;
use hedonica_sim::player::PlayerStrategy;
use hedonica_sim::types::{Category, Good, GoodsSet, PerCategory, PlayerId, Preferences, Trade};
use std::collections::HashMap;

fn weights(cars: u32, clothing: u32, food: u32, art: u32, travel: u32) -> Preferences {
    PerCategory { money: 1, cars, clothing, food, art, travel }
}

fn goods(money: i64, cars: i64, clothing: i64, food: i64, art: i64, travel: i64) -> GoodsSet {
    PerCategory { money, cars, clothing, food, art, travel }
}

fn gift(proposer: usize, accepter: usize, given: GoodsSet) -> Trade {
    Trade { proposer, accepter, from_proposor: given, from_acceptor: goods(0, 0, 0, 0, 0, 0) }
}

fn card(category: Category) -> Good {
    Good { category }
}

fn table(deck: Vec<Good>, players: Vec<PlayerState>) -> GameState {
    GameState {
        deck,
        players,
        lead: 0,
        current_turn: 0,
        current_round: 0,
        current_trade_proposals: HashMap::new(),
        current_trades: Vec::new(),
        past_trades: HashMap::new(),
    }
}

fn two_players() -> Vec<PlayerState> {
    vec![
        PlayerState { preferences: weights(1, 2, 2, 5, 10), num_goods: goods(10, 0, 0, 0, 0, 0) },
        PlayerState { preferences: weights(10, 5, 2, 2, 1), num_goods: goods(12, 0, 0, 0, 0, 0) },
    ]
}

fn rules(victory_threshold: i64, max_turns: i32) -> GameRules {
    GameRules { victory_threshold, start_money: 10, deck_size: 500, max_turns }
}

fn quiet(seats: usize) -> Vec<PlayerNoTrades> {
    (0..seats).map(|_| PlayerNoTrades::new()).collect()
}

fn total(game: &GameState, category: Category) -> i64 {
    let held: i64 = game.players.iter().map(|player| player.num_goods.get(category)).sum();
    let in_deck = game.deck.iter().filter(|good| good.category == category).count() as i64;
    held + in_deck
}

/// A player that does as it was told, and counts how often it was asked.
struct Scripted {
    seat: PlayerId,
    /// What to offer as lead on the first round of a turn, by seat.
    lead_offers: Vec<(PlayerId, Trade)>,
    /// Whether to offer the same again on every later even round.
    insistent: bool,
    /// What to offer the lead on the second round of a turn.
    offer: Option<Trade>,
    /// The answers as lead.
    answers: Vec<bool>,
    /// The answer to the lead.
    answer: bool,
    asked: usize,
}

impl Scripted {
    fn new(seat: PlayerId) -> Scripted {
        Scripted {
            seat,
            lead_offers: Vec::new(),
            insistent: false,
            offer: None,
            answers: Vec::new(),
            answer: false,
            asked: 0,
        }
    }
}

impl PlayerStrategy for Scripted {
    fn init(&mut self, player_id: PlayerId, _value: &serde_json::Value) {
        self.seat = player_id;
    }

    fn reset(&mut self) {
        self.asked = 0;
    }

    fn propose_trades_as_lead(&mut self, game_state: &GameState) -> HashMap<PlayerId, Trade> {
        self.asked += 1;
        assert_eq!(game_state.lead, self.seat);
        assert_eq!(game_state.current_round % 2, 0);
        if game_state.current_round == 0 || self.insistent {
            self.lead_offers.iter().cloned().collect()
        } else {
            HashMap::new()
        }
    }

    fn propose_trade_as_non_lead(&mut self, game_state: &GameState) -> Option<Trade> {
        self.asked += 1;
        assert!(game_state.lead != self.seat);
        assert_eq!(game_state.current_round % 2, 1);
        if game_state.current_round == 1 {
            self.offer
        } else {
            None
        }
    }

    fn accept_trades_as_lead(&mut self, game_state: &GameState) -> Vec<bool> {
        self.asked += 1;
        assert_eq!(game_state.lead, self.seat);
        self.answers.clone()
    }

    fn accept_trades_as_non_lead(&mut self, game_state: &GameState, trade: &Trade) -> bool {
        self.asked += 1;
        assert_eq!(game_state.current_trade_proposals[&self.seat].accepter, trade.accepter);
        self.answer
    }
}

/// Counts the rounds it has seen begin.
struct Counting {
    rounds: usize,
}

impl RoundObserver for Counting {
    fn before_round(&mut self, _game_state: &GameState) {
        self.rounds += 1;
    }
}

#[test]
fn players_who_never_trade_only_draw() {
    let deck = vec![card(Category::Cars), card(Category::Food), card(Category::Art)];
    let mut game = table(deck, two_players());
    let mut players = quiet(2);
    let mut observer = Counting { rounds: 0 };
    let end = play_turns(&rules(50, 1000), &mut game, &mut players, &mut observer);
    assert_eq!(end, Ok(GameEnd::DeckExhausted));
    assert_eq!(game.current_turn, 3);
    assert_eq!(game.current_round, 0);
    assert_eq!(game.lead, 1);
    assert!(game.deck.is_empty());
    assert!(game.past_trades.is_empty());
    assert!(game.current_trades.is_empty());
    assert!(game.current_trade_proposals.is_empty());
    assert_eq!(game.players[0].num_goods.art, 1);
    assert_eq!(game.players[0].num_goods.cars, 1);
    assert_eq!(game.players[1].num_goods.food, 1);
    assert_eq!(game.players[0].num_goods.money, 10);
    assert_eq!(game.players[1].num_goods.money, 12);
    assert_eq!(observer.rounds, 9);
}

#[test]
fn the_winner_of_a_game_without_trades_has_the_best_draws() {
    let deck = vec![card(Category::Cars), card(Category::Food), card(Category::Art)];
    let game = table(deck, two_players());
    let mut players = quiet(2);
    let result = play(&rules(50, 1000), game, &mut players, &mut Unobserved {}).unwrap();
    assert_eq!(result.turns, 3);
    assert_eq!(result.scores, vec![10 + 5 + 1, 12 + 2]);
    assert_eq!(result.winner, 0);
}

#[test]
fn a_tie_without_trades_goes_to_the_first_seat() {
    let deck = vec![card(Category::Clothing), card(Category::Clothing)];
    let mut seats = two_players();
    seats[0].num_goods.money = 15;
    let game = table(deck, seats);
    let mut players = quiet(2);
    let result = play(&rules(50, 1000), game, &mut players, &mut Unobserved {}).unwrap();
    assert_eq!(result.scores, vec![17, 17]);
    assert_eq!(result.winner, 0);
    assert_eq!(result.turns, 2);
}

#[test]
fn the_game_stops_at_the_turn_limit() {
    let deck = vec![card(Category::Cars); 10];
    let mut game = table(deck, two_players());
    let mut players = quiet(2);
    let end = play_turns(&rules(50, 4), &mut game, &mut players, &mut Unobserved {});
    assert_eq!(end, Ok(GameEnd::MaxTurnsReached));
    assert_eq!(game.current_turn, 4);
    assert_eq!(game.deck.len(), 6);
    assert_eq!(game.lead, 0);
}

#[test]
fn a_game_that_is_over_stays_as_it_is() {
    let mut game = table(vec![], two_players());
    game.current_round = 3;
    let mut players = quiet(2);
    let end = play_turns(&rules(50, 1000), &mut game, &mut players, &mut Unobserved {});
    assert_eq!(end, Ok(GameEnd::DeckExhausted));
    assert_eq!(game.current_turn, 0);
    assert_eq!(game.current_round, 3);
    let mut game = table(vec![card(Category::Art)], two_players());
    let end = play_turns(&rules(50, 0), &mut game, &mut players, &mut Unobserved {});
    assert_eq!(end, Ok(GameEnd::MaxTurnsReached));
    assert_eq!(game.deck.len(), 1);
    let end = play_turns(&rules(50, -5), &mut game, &mut players, &mut Unobserved {});
    assert_eq!(end, Ok(GameEnd::MaxTurnsReached));
}

#[test]
fn the_lead_wins_on_reaching_the_threshold() {
    let deck = vec![card(Category::Cars), card(Category::Travel), card(Category::Travel)];
    let mut game = table(deck, two_players());
    let mut players = quiet(2);
    let end = play_turns(&rules(20, 1000), &mut game, &mut players, &mut Unobserved {});
    assert_eq!(end, Ok(GameEnd::Victory));
    assert_eq!(game.current_turn, 0);
    assert_eq!(game.lead, 0);
    assert_eq!(game.deck.len(), 2);
    assert_eq!(game.players[0].score(), 20);
}

#[test]
fn nobody_is_asked_once_the_lead_has_won() {
    let mut game = table(vec![], two_players());
    let mut players = vec![Scripted::new(0), Scripted::new(1)];
    players[0].lead_offers.push((1, gift(0, 1, goods(1, 0, 0, 0, 0, 0))));
    players[1].answer = true;
    let mut observer = Counting { rounds: 0 };
    let end = play_round(&rules(10, 1000), &mut game, &mut players, &mut observer);
    assert_eq!(end, Ok(RoundEnd::Victory));
    assert_eq!(players[0].asked, 0);
    assert_eq!(players[1].asked, 0);
    assert_eq!(game.players[0].num_goods.money, 10);
    assert_eq!(game.current_round, 0);
    assert!(game.current_trades.is_empty());
    assert_eq!(observer.rounds, 1);
}

#[test]
fn a_win_in_the_middle_of_a_turn_ends_the_game_at_once() {
    let deck = vec![card(Category::Cars), card(Category::Cars)];
    let mut game = table(deck, two_players());
    let mut players = vec![Scripted::new(0), Scripted::new(1)];
    players[0].lead_offers.push((1, gift(0, 1, goods(-10, 0, 0, 0, 0, 0))));
    players[1].answer = true;
    players[1].offer = Some(gift(1, 0, goods(1, 0, 0, 0, 0, 0)));
    let end = play_turns(&rules(21, 1000), &mut game, &mut players, &mut Unobserved {});
    assert_eq!(end, Ok(GameEnd::Victory));
    assert_eq!(game.players[0].num_goods.money, 20);
    assert_eq!(game.players[1].num_goods.money, 2);
    assert_eq!(game.current_turn, 0);
    assert_eq!(game.current_round, 1);
    assert_eq!(game.current_trades.len(), 1);
    assert!(game.past_trades.is_empty());
    assert_eq!(players[0].asked, 1);
    assert_eq!(players[1].asked, 1);
}

#[test]
fn a_turn_of_offers_and_answers() {
    let deck = vec![card(Category::Food), card(Category::Art)];
    let mut game = table(deck, two_players());
    let mut players = vec![Scripted::new(0), Scripted::new(1)];
    players[0].lead_offers.push((1, gift(0, 1, goods(3, 0, 0, 0, 0, 0))));
    players[0].answers = vec![false];
    players[1].answer = true;
    players[1].offer = Some(gift(1, 0, goods(1, 0, 0, 0, 0, 0)));
    let end = play_turn(&rules(50, 1000), &mut game, &mut players, &mut Unobserved {});
    assert_eq!(end, Ok(TurnEnd::Passed));
    assert_eq!(game.current_turn, 1);
    assert_eq!(game.current_round, 0);
    assert_eq!(game.lead, 1);
    assert_eq!(game.deck.len(), 1);
    assert_eq!(game.players[0].num_goods.money, 7);
    assert_eq!(game.players[1].num_goods.money, 15);
    assert_eq!(game.players[0].num_goods.art, 1);
    assert_eq!(game.players[1].num_goods.art, 0);
    assert!(game.current_trades.is_empty());
    assert_eq!(game.past_trades.len(), 1);
    assert_eq!(game.past_trades[&0].len(), 1);
    assert_eq!(game.past_trades[&0][0].from_proposor.money, 3);
    assert_eq!(players[0].asked, 3);
    assert_eq!(players[1].asked, 2);
}

#[test]
fn the_only_art_cannot_be_given_away() {
    let deck = vec![card(Category::Art)];
    let mut game = table(deck, two_players());
    let mut players = vec![Scripted::new(0), Scripted::new(1)];
    players[0].answers = vec![true];
    players[1].offer = Some(gift(1, 0, goods(0, 0, 0, 0, -1, 0)));
    let end = play_turn(&rules(50, 1000), &mut game, &mut players, &mut Unobserved {});
    assert_eq!(end, Err(PlayError::CannotSettle));
    assert_eq!(game.players[0].num_goods.art, 1);
    assert_eq!(game.players[1].num_goods.art, 0);
    assert_eq!(game.current_round, 1);
    assert_eq!(game.current_turn, 0);
    assert!(game.current_trades.is_empty());
}

#[test]
fn an_offer_to_a_seat_that_is_not_there_stops_the_game() {
    let deck = vec![card(Category::Art)];
    let game = table(deck, two_players());
    let mut players = vec![Scripted::new(0), Scripted::new(1)];
    players[0].lead_offers.push((2, gift(0, 1, goods(1, 0, 0, 0, 0, 0))));
    let outcome = play(&rules(50, 1000), game, &mut players, &mut Unobserved {});
    assert_eq!(outcome.err(), Some(PlayError::StrayProposal));
    assert_eq!(players[1].asked, 0);
}

#[test]
fn an_insistent_lead_runs_out_of_money() {
    let deck = vec![card(Category::Art)];
    let mut game = table(deck, two_players());
    let mut players = vec![Scripted::new(0), Scripted::new(1)];
    players[0].lead_offers.push((1, gift(0, 1, goods(4, 0, 0, 0, 0, 0))));
    players[0].insistent = true;
    players[1].answer = true;
    let end = play_turns(&rules(50, 1000), &mut game, &mut players, &mut Unobserved {});
    assert_eq!(end, Err(PlayError::CannotSettle));
    assert_eq!(game.players[0].num_goods.money, 2);
    assert_eq!(game.players[1].num_goods.money, 20);
    assert_eq!(game.current_round, 4);
    assert_eq!(game.current_trades.len(), 2);
    assert_eq!(total(&game, Category::Money), 22);
    assert_eq!(total(&game, Category::Art), 1);
}

#[test]
fn the_round_counter_has_a_limit() {
    let mut game = table(vec![], two_players());
    game.current_round = i32::MAX;
    let mut players = quiet(2);
    let end = play_round(&rules(50, 1000), &mut game, &mut players, &mut Unobserved {});
    assert_eq!(end, Err(PlayError::RoundLimit));
    assert_eq!(game.current_round, i32::MAX);
}

#[test]
fn silence_ends_the_trading_only_after_the_first_round() {
    let mut game = table(vec![], two_players());
    let mut players = quiet(2);
    let end = play_round(&rules(50, 1000), &mut game, &mut players, &mut Unobserved {});
    assert_eq!(end, Ok(RoundEnd::Settled));
    assert_eq!(game.current_round, 1);
    let end = play_round(&rules(50, 1000), &mut game, &mut players, &mut Unobserved {});
    assert_eq!(end, Ok(RoundEnd::Settled));
    assert_eq!(game.current_round, 2);
    let end = play_round(&rules(50, 1000), &mut game, &mut players, &mut Unobserved {});
    assert_eq!(end, Ok(RoundEnd::Silence));
    assert_eq!(game.current_round, 2);
}

#[test]
fn each_player_answers_only_the_offer_made_to_it() {
    let mut seats = two_players();
    seats.push(PlayerState {
        preferences: weights(2, 2, 1, 10, 5),
        num_goods: goods(10, 0, 0, 0, 0, 0),
    });
    let mut game = table(vec![], seats);
    game.lead = 1;
    let mut players = vec![Scripted::new(0), Scripted::new(1), Scripted::new(2)];
    players[1].lead_offers.push((2, gift(1, 2, goods(2, 0, 0, 0, 0, 0))));
    players[1].lead_offers.push((0, gift(1, 0, goods(5, 0, 0, 0, 0, 0))));
    players[0].answer = false;
    players[2].answer = true;
    let end = play_round(&rules(50, 1000), &mut game, &mut players, &mut Unobserved {});
    assert_eq!(end, Ok(RoundEnd::Settled));
    assert_eq!(game.players[0].num_goods.money, 10);
    assert_eq!(game.players[1].num_goods.money, 10);
    assert_eq!(game.players[2].num_goods.money, 12);
    assert_eq!(game.current_trades.len(), 1);
    assert_eq!(game.current_trades[0].accepter, 2);
    assert_eq!(players[0].asked, 1);
    assert_eq!(players[2].asked, 1);
}

#[test]
fn the_lead_answers_by_ascending_seat() {
    let mut seats = two_players();
    seats.push(PlayerState {
        preferences: weights(2, 2, 1, 10, 5),
        num_goods: goods(10, 0, 0, 0, 0, 0),
    });
    let mut game = table(vec![], seats);
    game.lead = 1;
    game.current_round = 1;
    let mut players = vec![Scripted::new(0), Scripted::new(1), Scripted::new(2)];
    players[0].offer = Some(gift(0, 1, goods(1, 0, 0, 0, 0, 0)));
    players[2].offer = Some(gift(2, 1, goods(2, 0, 0, 0, 0, 0)));
    players[1].answers = vec![false, true];
    let end = play_round(&rules(50, 1000), &mut game, &mut players, &mut Unobserved {});
    assert_eq!(end, Ok(RoundEnd::Settled));
    assert_eq!(game.players[0].num_goods.money, 10);
    assert_eq!(game.players[1].num_goods.money, 14);
    assert_eq!(game.players[2].num_goods.money, 8);
    assert_eq!(game.current_round, 2);
}

#[test]
fn offers_on_the_table_wait_for_answers() {
    let mut game = table(vec![], two_players());
    let offers = HashMap::from([(1, gift(0, 1, goods(3, 0, 0, 0, 0, 0)))]);
    assert_eq!(table_offers(&mut game, offers), None);
    assert_eq!(game.current_trade_proposals.len(), 1);
    assert_eq!(game.current_trade_proposals[&1].from_proposor.money, 3);
    assert_eq!(game.current_round, 0);
    assert_eq!(game.players[0].num_goods.money, 10);
}

#[test]
fn no_offers_end_the_trading_on_a_later_even_round_only() {
    let mut game = table(vec![], two_players());
    assert_eq!(table_offers(&mut game, HashMap::new()), None);
    game.current_round = 1;
    assert_eq!(table_offers(&mut game, HashMap::new()), None);
    game.current_round = 2;
    assert_eq!(table_offers(&mut game, HashMap::new()), Some(Ok(RoundEnd::Silence)));
    assert_eq!(game.current_round, 2);
    let offers = HashMap::from([(1, gift(0, 1, goods(3, 0, 0, 0, 0, 0)))]);
    assert_eq!(table_offers(&mut game, offers), None);
}

#[test]
fn an_offer_under_a_seat_that_is_not_there_is_a_fault() {
    let mut game = table(vec![], two_players());
    let offers = HashMap::from([(2, gift(0, 1, goods(3, 0, 0, 0, 0, 0)))]);
    assert_eq!(table_offers(&mut game, offers), Some(Err(PlayError::StrayProposal)));
    assert_eq!(game.current_trade_proposals.len(), 1);
}

#[test]
fn answers_settle_the_round_or_change_nothing() {
    let mut game = table(vec![], two_players());
    let offers = HashMap::from([(1, gift(0, 1, goods(10, 0, 0, 0, 0, 0)))]);
    assert_eq!(table_offers(&mut game, offers), None);
    assert_eq!(settle_answers(&mut game, vec![true]), Err(PlayError::CannotSettle));
    assert_eq!(game.players[0].num_goods.money, 10);
    assert_eq!(game.current_round, 0);
    assert_eq!(game.current_trade_proposals.len(), 1);
    assert!(game.current_trades.is_empty());
    assert_eq!(settle_answers(&mut game, vec![false]), Ok(RoundEnd::Settled));
    assert_eq!(game.current_round, 1);
    assert!(game.current_trade_proposals.is_empty());
    assert!(game.current_trades.is_empty());
    let offers = HashMap::from([(1, gift(1, 0, goods(2, 0, 0, 0, 0, 0)))]);
    assert_eq!(table_offers(&mut game, offers), None);
    assert_eq!(settle_answers(&mut game, vec![true]), Ok(RoundEnd::Settled));
    assert_eq!(game.players[0].num_goods.money, 12);
    assert_eq!(game.players[1].num_goods.money, 10);
    assert_eq!(game.current_trades.len(), 1);
    assert_eq!(game.current_round, 2);
}
