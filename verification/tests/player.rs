use hedonica_sim::game::GameState;
use hedonica_sim::no_trades::PlayerNoTrades;
use hedonica_sim::player::{
    load_strategies, register_strategy, PlayerConfig, PlayerStrategy, Registry,
    DEFAULT_PLAYER_TYPE,
};
use hedonica_sim::types::{PerCategory, PlayerId, Trade};
use std::collections::HashMap;

/// A player that remembers how it was set up.
struct Marked {
    made_by: &'static str,
    seat: Option<PlayerId>,
    settings: Option<serde_json::Value>,
}

impl PlayerStrategy for Marked {
    fn init(&mut self, player_id: PlayerId, value: &serde_json::Value) {
        self.seat = Some(player_id);
        self.settings = Some(value.clone());
    }

    fn reset(&mut self) {}

    fn propose_trades_as_lead(&mut self, _game_state: &GameState) -> HashMap<PlayerId, Trade> {
        HashMap::new()
    }

    fn propose_trade_as_non_lead(&mut self, _game_state: &GameState) -> Option<Trade> {
        None
    }

    fn accept_trades_as_lead(&mut self, _game_state: &GameState) -> Vec<bool> {
        Vec::new()
    }

    fn accept_trades_as_non_lead(&mut self, _game_state: &GameState, _trade: &Trade) -> bool {
        false
    }
}

fn quiet() -> Marked {
    Marked { made_by: "quiet", seat: None, settings: None }
}

fn bold() -> Marked {
    Marked { made_by: "bold", seat: None, settings: None }
}

fn shy() -> Marked {
    Marked { made_by: "shy", seat: None, settings: None }
}

fn asked_for(player_type: &str, config: serde_json::Value) -> PlayerConfig {
    PlayerConfig { player_type: player_type.to_string(), config }
}

fn registry() -> Registry<fn() -> Marked> {
    let mut registry: Registry<fn() -> Marked> = Registry::new();
    register_strategy(&mut registry, DEFAULT_PLAYER_TYPE, quiet);
    register_strategy(&mut registry, "Bold", bold);
    registry
}

#[test]
fn the_default_player_type_is_the_one_that_never_trades() {
    assert_eq!(DEFAULT_PLAYER_TYPE, "PlayerNoTrades");
}

#[test]
fn a_registry_knows_what_was_registered() {
    let registry = registry();
    assert!(registry.knows(&"Bold".to_string()));
    assert!(registry.knows(&"PlayerNoTrades".to_string()));
    assert!(!registry.knows(&"bold".to_string()));
    assert!(!registry.knows(&"".to_string()));
    let empty: Registry<fn() -> Marked> = Registry::new();
    assert!(!empty.knows(&"Bold".to_string()));
}

#[test]
fn a_registry_builds_by_name() {
    let registry = registry();
    assert_eq!(registry.build(&"Bold".to_string()).made_by, "bold");
    assert_eq!(registry.build(&"PlayerNoTrades".to_string()).made_by, "quiet");
}

#[test]
fn a_later_registration_replaces_an_earlier_one() {
    let mut registry = registry();
    register_strategy(&mut registry, "Bold", shy);
    assert_eq!(registry.build(&"Bold".to_string()).made_by, "shy");
    assert_eq!(registry.build(&"PlayerNoTrades".to_string()).made_by, "quiet");
}

#[test]
fn configured_seats_are_set_up_and_the_rest_are_default() {
    let configs = vec![
        asked_for("Bold", serde_json::Value::Bool(true)),
        asked_for("PlayerNoTrades", serde_json::Value::Null),
    ];
    let players: Vec<Marked> = load_strategies(&registry(), &configs, 4).unwrap();
    assert_eq!(players.len(), 4);
    let made_by: Vec<&str> = players.iter().map(|player| player.made_by).collect();
    assert_eq!(made_by, vec!["bold", "quiet", "quiet", "quiet"]);
    let seats: Vec<Option<PlayerId>> = players.iter().map(|player| player.seat).collect();
    assert_eq!(seats, vec![Some(0), Some(1), None, None]);
    assert_eq!(players[0].settings, Some(serde_json::Value::Bool(true)));
    assert_eq!(players[1].settings, Some(serde_json::Value::Null));
    assert_eq!(players[2].settings, None);
}

#[test]
fn an_unknown_player_type_is_reported_with_its_seat() {
    let configs = vec![
        asked_for("Bold", serde_json::Value::Null),
        asked_for("Bald", serde_json::Value::Null),
        asked_for("Blond", serde_json::Value::Null),
    ];
    let unknown = load_strategies(&registry(), &configs, 3).err().unwrap();
    assert_eq!(unknown.seat, 1);
    assert_eq!(unknown.player_type, "Bald");
}

#[test]
fn a_missing_default_is_reported_too() {
    let mut registry: Registry<fn() -> Marked> = Registry::new();
    register_strategy(&mut registry, "Bold", bold);
    let configs = vec![asked_for("Bold", serde_json::Value::Null)];
    let unknown = load_strategies(&registry, &configs, 3).err().unwrap();
    assert_eq!(unknown.seat, 1);
    assert_eq!(unknown.player_type, "PlayerNoTrades");
    let players = load_strategies(&registry, &configs, 1).unwrap();
    assert_eq!(players.len(), 1);
}

#[test]
fn no_seats_need_no_players() {
    let empty: Registry<fn() -> Marked> = Registry::new();
    let players = load_strategies(&empty, &Vec::new(), 0).unwrap();
    assert!(players.is_empty());
}

#[test]
fn the_player_that_never_trades() {
    let game = GameState {
        deck: Vec::new(),
        players: Vec::new(),
        lead: 0,
        current_turn: 0,
        current_round: 0,
        current_trade_proposals: HashMap::new(),
        current_trades: Vec::new(),
        past_trades: HashMap::new(),
    };
    let nothing = PerCategory::uniform(0);
    let trade = Trade { proposer: 0, accepter: 1, from_proposor: nothing, from_acceptor: nothing };
    let mut game = game;
    game.current_trade_proposals.insert(1, trade);
    game.current_trade_proposals.insert(2, trade);
    let mut player = PlayerNoTrades::new();
    player.init(3, &serde_json::Value::Null);
    player.reset();
    assert!(player.propose_trades_as_lead(&game).is_empty());
    assert!(player.propose_trade_as_non_lead(&game).is_none());
    assert_eq!(player.accept_trades_as_lead(&game), vec![false, false]);
    assert!(!player.accept_trades_as_non_lead(&game, &trade));
}
