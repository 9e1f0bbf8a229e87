//! Series of games: many games with the same players, and what comes of them.

use vstd::prelude::*;
use std::collections::BTreeMap;
use crate::engine::{
    game_outcome, game_played, lemma_one_asked, play, quiet_game, GameEnd, PlayError,
    RoundObserver,
};
use crate::game::{GameResult, GameRules, GameView, SimConfig};
use crate::player::{
    all_at_baseline, all_never_trade, load_strategies, seat_type, PlayerStrategy, Registry,
    UnknownPlayerType,
};
use crate::setup::{
    generate_start_state, is_start, seeded_start, MAX_PLAYERS, MAX_START_MONEY,
};
use crate::stats::Stats;
use crate::types::PlayerId;

verus! {

broadcast use vstd::std_specs::btree::group_btree_axioms;

/// How many of the games the seat has won.
pub open spec fn wins_of(results: Seq<GameResult>, seat: PlayerId) -> nat
    decreases results.len(),
{
    if results.len() == 0 {
        0
    } else {
        wins_of(results.drop_last(), seat) + if results.last().winner == seat {
            1nat
        } else {
            0nat
        }
    }
}

/// The turns that the games took, game by game.
pub open spec fn turns_of(results: Seq<GameResult>) -> Seq<i32> {
    Seq::new(results.len(), |i: int| results[i].turns)
}

/// No seat has won more games than there were.
pub proof fn lemma_wins_bounded(results: Seq<GameResult>, seat: PlayerId)
    ensures
        wins_of(results, seat) <= results.len(),
    decreases results.len(),
{
    if results.len() > 0 {
        lemma_wins_bounded(results.drop_last(), seat);
    }
}

/// The number of games that each seat has won. A seat that has won none is
/// not listed.
pub fn count_wins(results: &Vec<GameResult>) -> (wins: BTreeMap<PlayerId, i32>)
    requires
        results.len() <= i32::MAX,
    ensures
        forall|seat: PlayerId| wins@.contains_key(seat) <==> wins_of(results@, seat) > 0,
        forall|seat: PlayerId| wins@.contains_key(seat) ==> wins@[seat] == wins_of(results@, seat),
{
    let mut wins: BTreeMap<PlayerId, i32> = BTreeMap::new();
    let mut game: usize = 0;
    assert(results@.take(0) =~= Seq::<GameResult>::empty());
    while game < results.len()
        invariant
            game <= results.len() <= i32::MAX,
            forall|seat: PlayerId|
                wins@.contains_key(seat) <==> wins_of(results@.take(game as int), seat) > 0,
            forall|seat: PlayerId|
                wins@.contains_key(seat) ==> wins@[seat] == wins_of(
                    results@.take(game as int),
                    seat,
                ),
        decreases results.len() - game,
    {
        let winner: PlayerId = results[game].winner;
        proof {
            assert(results@.take(game + 1).drop_last() =~= results@.take(game as int));
            lemma_wins_bounded(results@.take(game as int), winner);
        }
        let so_far: i32 = match wins.get(&winner) {
            Some(count) => *count,
            None => 0,
        };
        wins.insert(winner, so_far + 1);
        game = game + 1;
    }
    assert(results@.take(game as int) =~= results@);
    wins
}

/// The summary of the turns that the games took.
pub fn turn_stats(results: &Vec<GameResult>) -> (stats: Stats)
    requires
        results.len() <= u32::MAX,
    ensures
        stats@ == turns_of(results@),
{
    let mut stats = Stats::new();
    let mut game: usize = 0;
    assert(stats@ =~= turns_of(results@.take(0)));
    while game < results.len()
        invariant
            game <= results.len() <= u32::MAX,
            stats@ == turns_of(results@.take(game as int)),
        decreases results.len() - game,
    {
        stats.add(results[game].turns);
        assert(stats@ =~= turns_of(results@.take(game + 1)));
        game = game + 1;
    }
    assert(results@.take(game as int) =~= results@);
    stats
}

/// Why a series of games came to nothing.
#[derive(Debug)]
pub enum SimError {
    /// A seat was to go to a strategy that is not registered.
    UnknownPlayerType(UnknownPlayerType),
    /// A seed of 0 asked for the machine's randomness, and the machine had none.
    NoRandomness,
    /// A game could not go on.
    Play(PlayError),
}

/// What came of a series of games.
pub struct SimSummary {
    /// The outcome of each game, in the order they were played.
    pub results: Vec<GameResult>,
    /// The number of games that each seat has won; a seat that has won none
    /// is not listed.
    pub wins_by_player: BTreeMap<PlayerId, i32>,
    /// The summary of the turns that the games took.
    pub turn_stats: Stats,
}

/// Whether games can be played under the configuration and the rules: the
/// table has at least one seat and no more than `MAX_PLAYERS`, and the
/// starting money is between nothing and `MAX_START_MONEY`.
pub open spec fn playable(config: SimConfig, rules: GameRules) -> bool {
    &&& 1 <= config.num_players <= MAX_PLAYERS
    &&& 0 <= rules.start_money <= MAX_START_MONEY
}

/// Whether games can be played under the configuration and the rules.
pub fn is_playable(config: &SimConfig, rules: &GameRules) -> (r: bool)
    ensures
        r == playable(*config, *rules),
{
    1 <= config.num_players && config.num_players <= MAX_PLAYERS && 0 <= rules.start_money
        && rules.start_money <= MAX_START_MONEY
}

/// Whether the outcome is one that a game of the configuration and the rules
/// can have: a score for every seat, a winner among the seats, and no more
/// turns than the rules allow.
pub open spec fn is_fair_result(result: GameResult, config: SimConfig, rules: GameRules) -> bool {
    &&& result.scores@.len() == config.num_players
    &&& result.winner < config.num_players
    &&& 0 <= result.turns
    &&& result.turns <= rules.max_turns || result.turns == 0
}

/// Whether the outcome is that of a game of the configuration and the rules:
/// the snapshot of the state in which a game ended that was played, from a
/// start of the configuration, by players who began it as `init` or `reset`
/// left them.
pub open spec fn is_played_result<S: PlayerStrategy>(
    result: GameResult,
    config: SimConfig,
    rules: GameRules,
) -> bool {
    exists|start: GameView, end: GameEnd, last: GameView, before: Seq<S>, after: Seq<S>|
        is_start(start, config, rules) && all_at_baseline(before) && game_outcome(
            start,
            rules,
            Ok(end),
            last,
        ) && #[trigger] game_played(start, rules, before, Ok(end), last, after)
            && result.is_snapshot_of(last)
}

/// Plays as many games as the configuration asks for, each from a start of
/// its own and with the players put back to where they began, and gives the
/// outcomes in the order of the games. Stops at the first game that cannot
/// be started or cannot go on.
pub fn run_games<S: PlayerStrategy, O: RoundObserver>(
    config: &SimConfig,
    rules: &GameRules,
    players: &mut Vec<S>,
    observer: &mut O,
) -> (outcome: Result<Vec<GameResult>, SimError>)
    requires
        playable(*config, *rules),
        old(players).len() == config.num_players,
    ensures
        final(players).len() == old(players).len(),
        match outcome {
            Ok(results) => {
                &&& results@.len() == if config.num_runs > 0 {
                    config.num_runs as int
                } else {
                    0
                }
                &&& forall|i: int|
                    0 <= i < results@.len() ==> is_fair_result(
                        #[trigger] results@[i],
                        *config,
                        *rules,
                    ) && is_played_result::<S>(results@[i], *config, *rules)
            },
            Err(SimError::NoRandomness) => config.deck_shuffle_seed == 0 || config.preferences_seed
                == 0,
            Err(SimError::Play(_)) => config.num_runs > 0,
            Err(SimError::UnknownPlayerType(_)) => false,
        },
        config.num_runs <= 0 ==> outcome is Ok,
        all_never_trade(old(players)@) ==> all_never_trade(final(players)@) && !(outcome matches Err(
            SimError::Play(_),
        )),
        all_never_trade(old(players)@) && config.deck_shuffle_seed != 0 && config.preferences_seed
            != 0 ==> (outcome matches Ok(results) && forall|i: int|
            0 <= i < results@.len() ==> (#[trigger] results@[i]).is_snapshot_of(
                quiet_game(seeded_start(*config, *rules), *rules).1,
            )),
{
    let mut results: Vec<GameResult> = Vec::new();
    let mut run: i32 = 0;
    while run < config.num_runs
        invariant
            playable(*config, *rules),
            players.len() == config.num_players,
            players.len() == old(players).len(),
            0 <= run,
            run <= config.num_runs || run == 0,
            results@.len() == run,
            forall|i: int|
                0 <= i < results@.len() ==> is_fair_result(#[trigger] results@[i], *config, *rules)
                    && is_played_result::<S>(results@[i], *config, *rules),
            all_never_trade(old(players)@) ==> all_never_trade(players@),
            all_never_trade(old(players)@) && config.deck_shuffle_seed != 0
                && config.preferences_seed != 0 ==> forall|i: int|
                0 <= i < results@.len() ==> (#[trigger] results@[i]).is_snapshot_of(
                    quiet_game(seeded_start(*config, *rules), *rules).1,
                ),
        decreases config.num_runs - run,
    {
        let game = match generate_start_state(config, rules) {
            Some(game) => game,
            None => {
                return Err(SimError::NoRandomness);
            },
        };
        let ghost seated = players@;
        let mut seat: usize = 0;
        while seat < players.len()
            invariant
                players.len() == config.num_players,
                seat <= players.len(),
                all_never_trade(seated) ==> all_never_trade(players@),
                forall|s: int| 0 <= s < seat ==> (#[trigger] players@[s]).at_baseline(),
            decreases players.len() - seat,
        {
            let ghost before = players@;
            players[seat].reset();
            proof {
                lemma_one_asked(before, players@, seat as int);
                assert forall|s: int| 0 <= s < seat + 1 implies (
                #[trigger] players@[s]).at_baseline() by {
                    if s < seat {
                        assert(players@[s] == before[s]);
                    }
                }
            }
            seat = seat + 1;
        }
        let ghost played = results@;
        let ghost start = game@;
        let ghost ready = players@;
        match play(rules, game, players, observer) {
            Ok(result) => {
                proof {
                    let (end, last) = choose|end: GameEnd, last: GameView|
                        #[trigger] game_outcome(start, *rules, Ok(end), last) && game_played(
                            start,
                            *rules,
                            ready,
                            Ok(end),
                            last,
                            players@,
                        ) && result.is_snapshot_of(last);
                    assert(game_played(start, *rules, ready, Ok(end), last, players@));
                    assert(is_played_result::<S>(result, *config, *rules));
                }
                results.push(result);
                assert forall|i: int| 0 <= i < results@.len() implies is_fair_result(
                    #[trigger] results@[i],
                    *config,
                    *rules,
                ) && is_played_result::<S>(results@[i], *config, *rules) by {
                    if i < played.len() {
                        assert(results@[i] == played[i]);
                    }
                }
                assert forall|i: int|
                    all_never_trade(old(players)@) && config.deck_shuffle_seed != 0
                        && config.preferences_seed != 0 && 0 <= i < results@.len() implies (
                #[trigger] results@[i]).is_snapshot_of(
                    quiet_game(seeded_start(*config, *rules), *rules).1,
                ) by {
                    if i < played.len() {
                        assert(results@[i] == played[i]);
                    }
                }
            },
            Err(error) => {
                return Err(SimError::Play(error));
            },
        }
        run = run + 1;
    }
    Ok(results)
}

/// Whether a strategy is registered under the name of every seat of the
/// configuration.
pub open spec fn every_seat_can_be_filled<S: PlayerStrategy, F: Fn() -> S>(
    registry: Registry<F>,
    config: SimConfig,
) -> bool {
    forall|seat: int|
        0 <= seat < config.num_players ==> registry.constructor(
            #[trigger] seat_type(config.player_configs@, seat),
        ) is Some
}

/// Builds the players that the configuration names, plays the games it asks
/// for, and sums up: who won how often, and how many turns the games took.
/// Nothing is played unless every seat can be filled.
pub fn run_sim<S: PlayerStrategy, F: Fn() -> S, O: RoundObserver>(
    config: &SimConfig,
    rules: &GameRules,
    registry: &Registry<F>,
    observer: &mut O,
) -> (outcome: Result<SimSummary, SimError>)
    requires
        playable(*config, *rules),
        config.player_configs.len() <= config.num_players,
        registry.callable(),
    ensures
        match outcome {
            Ok(summary) => {
                &&& summary.results@.len() == if config.num_runs > 0 {
                    config.num_runs as int
                } else {
                    0
                }
                &&& forall|i: int|
                    0 <= i < summary.results@.len() ==> is_fair_result(
                        #[trigger] summary.results@[i],
                        *config,
                        *rules,
                    ) && is_played_result::<S>(summary.results@[i], *config, *rules)
                &&& forall|seat: PlayerId|
                    summary.wins_by_player@.contains_key(seat) <==> wins_of(summary.results@, seat)
                        > 0
                &&& forall|seat: PlayerId|
                    summary.wins_by_player@.contains_key(seat) ==> summary.wins_by_player@[seat]
                        == wins_of(summary.results@, seat)
                &&& summary.turn_stats@ == turns_of(summary.results@)
            },
            Err(SimError::UnknownPlayerType(unknown)) => {
                &&& unknown.seat < config.num_players
                &&& unknown.player_type@ == seat_type(
                    config.player_configs@,
                    unknown.seat as int,
                )
                &&& registry.constructor(unknown.player_type@) is None
                &&& forall|seat: int|
                    0 <= seat < unknown.seat ==> registry.constructor(
                        #[trigger] seat_type(config.player_configs@, seat),
                    ) is Some
            },
            Err(SimError::NoRandomness) => config.deck_shuffle_seed == 0 || config.preferences_seed
                == 0,
            Err(SimError::Play(_)) => config.num_runs > 0,
        },
        every_seat_can_be_filled(*registry, *config) <==> !(outcome matches Err(
            SimError::UnknownPlayerType(_),
        )),
        config.num_runs <= 0 && every_seat_can_be_filled(*registry, *config) ==> outcome is Ok,
        registry.builds_never_traders() && every_seat_can_be_filled(*registry, *config)
            && config.deck_shuffle_seed != 0 && config.preferences_seed != 0 ==> (
        outcome matches Ok(summary) && forall|i: int|
            0 <= i < summary.results@.len() ==> (#[trigger] summary.results@[i]).is_snapshot_of(
                quiet_game(seeded_start(*config, *rules), *rules).1,
            )),
{
    let mut players: Vec<S> = match load_strategies(
        registry,
        &config.player_configs,
        config.num_players,
    ) {
        Ok(players) => players,
        Err(unknown) => {
            return Err(SimError::UnknownPlayerType(unknown));
        },
    };
    let results = match run_games(config, rules, &mut players, observer) {
        Ok(results) => results,
        Err(error) => {
            return Err(error);
        },
    };
    let wins_by_player = count_wins(&results);
    let turn_stats = turn_stats(&results);
    Ok(SimSummary { results, wins_by_player, turn_stats })
}

} // verus!
