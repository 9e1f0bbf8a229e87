//! What a player does at the table, and how the players of a game are chosen
//! by name.

use vstd::prelude::*;
use std::collections::HashMap;
use crate::game::{GameState, GameView};
use crate::types::{PlayerId, Trade};

verus! {

/// The settings of a strategy, as `serde_json` read them. The library hands
/// them to the strategy and never looks inside.
#[verifier::external_type_specification]
#[verifier::external_body]
pub struct ExValue(serde_json::Value);

/// The strategy that takes the seats nobody asked for.
pub const DEFAULT_PLAYER_TYPE: &'static str = "PlayerNoTrades";

/// Which strategy takes a seat, and its settings.
#[derive(Debug)]
pub struct PlayerConfig {
    pub player_type: String,
    pub config: serde_json::Value,
}

/// The decisions of one player.
///
/// The engine asks in a fixed order and believes nothing it is told: an offer
/// is settled only after the engine has found that it can be fulfilled. What
/// a player says of itself through the spec functions is for the player to
/// define; the engine's contracts pass it on. Each of them relates the player
/// after a call to the player before it, to what it was shown and to what it
/// said.
pub trait PlayerStrategy: Sized {
    /// Whether the player never offers and never accepts a trade. A player
    /// that does not say so is not taken to be one.
    open spec fn never_trades(&self) -> bool {
        false
    }

    /// Whether the player is as `init` left it.
    open spec fn at_baseline(&self) -> bool {
        true
    }

    /// Whether the player is what `init` makes of the player `built`, for
    /// the seat and the settings.
    open spec fn is_set_up(&self, built: &Self, player_id: PlayerId, value: &serde_json::Value) -> bool {
        true
    }

    /// Whether the player, as lead shown `game`, made these offers.
    open spec fn offered_as_lead(
        &self,
        before: &Self,
        game: GameView,
        proposals: Map<PlayerId, Trade>,
    ) -> bool {
        true
    }

    /// Whether the player, shown `game`, made this offer to the lead.
    open spec fn offered_as_non_lead(
        &self,
        before: &Self,
        game: GameView,
        proposal: Option<Trade>,
    ) -> bool {
        true
    }

    /// Whether the player, as lead shown `game`, gave these answers.
    open spec fn answered_as_lead(&self, before: &Self, game: GameView, answers: Seq<bool>) -> bool {
        true
    }

    /// Whether the player, shown `game`, gave this answer to the offer.
    open spec fn answered_as_non_lead(
        &self,
        before: &Self,
        game: GameView,
        trade: Trade,
        answer: bool,
    ) -> bool {
        true
    }

    /// Sets the player up for a seat, once.
    fn init(&mut self, player_id: PlayerId, value: &serde_json::Value)
        ensures
            final(self).is_set_up(old(self), player_id, value),
            final(self).at_baseline(),
            old(self).never_trades() ==> final(self).never_trades(),
    ;

    /// Puts the player back to where `init` left it.
    fn reset(&mut self)
        ensures
            final(self).at_baseline(),
            old(self).never_trades() ==> final(self).never_trades(),
    ;

    /// The lead's offers, each under the seat of the player it is made to.
    /// Asked on even rounds.
    fn propose_trades_as_lead(&mut self, game_state: &GameState) -> (proposals: HashMap<
        PlayerId,
        Trade,
    >)
        requires
            game_state@.well_formed(),
            game_state@.current_round % 2 == 0,
        ensures
            final(self).offered_as_lead(old(self), game_state@, proposals@),
            old(self).never_trades() ==> final(self).never_trades() && proposals@
                == Map::<PlayerId, Trade>::empty(),
    ;

    /// The offer to the lead, if the player makes one. Asked on odd rounds.
    fn propose_trade_as_non_lead(&mut self, game_state: &GameState) -> (proposal: Option<Trade>)
        requires
            game_state@.well_formed(),
            game_state@.current_round % 2 == 1,
        ensures
            final(self).offered_as_non_lead(old(self), game_state@, proposal),
            old(self).never_trades() ==> final(self).never_trades() && proposal is None,
    ;

    /// The lead's answers to the offers on the table, by ascending seat of
    /// those who made them. Asked on odd rounds, with the offers of the
    /// others on the table.
    fn accept_trades_as_lead(&mut self, game_state: &GameState) -> (answers: Vec<bool>)
        requires
            game_state@.well_formed(),
            game_state@.current_round % 2 == 1,
            game_state@.proposals_seated(),
        ensures
            final(self).answered_as_lead(old(self), game_state@, answers@),
            old(self).never_trades() ==> final(self).never_trades() && forall|i: int|
                0 <= i < answers@.len() ==> !answers@[i],
    ;

    /// The answer to the one offer that the lead made to this player. Asked
    /// on even rounds, with the lead's offers on the table.
    fn accept_trades_as_non_lead(&mut self, game_state: &GameState, trade: &Trade) -> (answer:
        bool)
        requires
            game_state@.well_formed(),
            game_state@.current_round % 2 == 0,
            exists|seat: PlayerId|
                #[trigger] game_state@.proposals.contains_key(seat) && game_state@.proposals[seat]
                    == *trade,
        ensures
            final(self).answered_as_non_lead(old(self), game_state@, *trade, answer),
            old(self).never_trades() ==> final(self).never_trades() && !answer,
    ;
}

/// Whether every player is as `init` left it.
pub open spec fn all_at_baseline<S: PlayerStrategy>(players: Seq<S>) -> bool {
    forall|i: int| 0 <= i < players.len() ==> (#[trigger] players[i]).at_baseline()
}

/// Whether none of the players ever offers or accepts a trade.
pub open spec fn all_never_trade<S: PlayerStrategy>(players: Seq<S>) -> bool {
    forall|i: int| 0 <= i < players.len() ==> (#[trigger] players[i]).never_trades()
}

/// A strategy's name and what builds it.
pub struct Entry<F> {
    pub name: String,
    pub constructor: F,
}

/// The strategies that can be asked for by name.
pub struct Registry<F> {
    entries: Vec<Entry<F>>,
}

/// The first position at which `entries` holds `name`.
pub open spec fn position_of<F>(entries: Seq<Entry<F>>, name: Seq<char>) -> Option<int>
    decreases entries.len(),
{
    if entries.len() == 0 {
        None
    } else {
        match position_of(entries.drop_last(), name) {
            Some(i) => Some(i),
            None => if entries.last().name@ == name {
                Some(entries.len() - 1)
            } else {
                None
            },
        }
    }
}

/// Where `position_of` finds a name, the name stands; where it finds none,
/// the name stands nowhere.
pub proof fn lemma_position_of<F>(entries: Seq<Entry<F>>, name: Seq<char>)
    ensures
        match position_of(entries, name) {
            Some(i) => 0 <= i < entries.len() && entries[i].name@ == name,
            None => forall|i: int| 0 <= i < entries.len() ==> (#[trigger] entries[i]).name@ != name,
        },
    decreases entries.len(),
{
    if entries.len() > 0 {
        lemma_position_of(entries.drop_last(), name);
        if position_of(entries.drop_last(), name) is None {
            assert forall|i: int| 0 <= i < entries.len() - 1 implies (#[trigger] entries[i]).name@
                != name by {
                assert(entries.drop_last()[i] == entries[i]);
            }
        }
    }
}

/// A name found among the first `n` entries is found at the same place among
/// all of them.
pub proof fn lemma_position_prefix<F>(entries: Seq<Entry<F>>, name: Seq<char>, n: int)
    requires
        0 <= n <= entries.len(),
        position_of(entries.take(n), name) is Some,
    ensures
        position_of(entries, name) == position_of(entries.take(n), name),
    decreases entries.len() - n,
{
    if n < entries.len() {
        assert(entries.take(n + 1).drop_last() =~= entries.take(n));
        lemma_position_prefix(entries, name, n + 1);
    } else {
        assert(entries.take(n) =~= entries);
    }
}

/// Giving the entry at `i` another constructor moves no name.
pub proof fn lemma_position_same_names<F>(
    entries: Seq<Entry<F>>,
    others: Seq<Entry<F>>,
    name: Seq<char>,
)
    requires
        entries.len() == others.len(),
        forall|i: int| 0 <= i < entries.len() ==> (#[trigger] entries[i]).name@ == others[i].name@,
    ensures
        position_of(entries, name) == position_of(others, name),
    decreases entries.len(),
{
    if entries.len() > 0 {
        assert forall|i: int| 0 <= i < entries.len() - 1 implies (
        #[trigger] entries.drop_last()[i]).name@ == others.drop_last()[i].name@ by {
            assert(entries[i].name@ == others[i].name@);
        }
        lemma_position_same_names(entries.drop_last(), others.drop_last(), name);
        assert(entries.last().name@ == others.last().name@) by {
            assert(entries[entries.len() - 1].name@ == others[entries.len() - 1].name@);
        }
    }
}

impl<S: PlayerStrategy, F: Fn() -> S> Registry<F> {
    /// The constructor registered under a name.
    pub closed spec fn constructor(self, name: Seq<char>) -> Option<F> {
        match position_of(self.entries@, name) {
            Some(i) => Some(self.entries@[i].constructor),
            None => None,
        }
    }

    /// Every registered constructor can be called.
    pub closed spec fn callable(self) -> bool {
        forall|i: int|
            0 <= i < self.entries@.len() ==> call_requires(
                (#[trigger] self.entries@[i]).constructor,
                (),
            )
    }

    /// A registry without strategies.
    pub fn new() -> (registry: Self)
        ensures
            forall|name: Seq<char>| registry.constructor(name) is None,
            registry.callable(),
            registry.builds_never_traders(),
    {
        Registry { entries: Vec::new() }
    }

    /// The position of a name among the registered ones.
    fn find(&self, name: &String) -> (found: Option<usize>)
        ensures
            match found {
                Some(i) => position_of(self.entries@, name@) == Some(i as int) && i
                    < self.entries@.len(),
                None => position_of(self.entries@, name@) is None,
            },
    {
        let mut i: usize = 0;
        while i < self.entries.len()
            invariant
                i <= self.entries.len(),
                position_of(self.entries@.take(i as int), name@) is None,
            decreases self.entries.len() - i,
        {
            proof {
                assert(self.entries@.take(i + 1).drop_last() =~= self.entries@.take(i as int));
                if self.entries@[i as int].name@ == name@ {
                    lemma_position_prefix(self.entries@, name@, i + 1);
                }
            }
            if self.entries[i].name == *name {
                return Some(i);
            }
            i = i + 1;
        }
        assert(self.entries@.take(i as int) =~= self.entries@);
        None
    }

    /// What the constructor registered under the name builds.
    pub fn build(&self, player_type: &String) -> (strategy: S)
        requires
            self.callable(),
            self.constructor(player_type@) is Some,
        ensures
            call_ensures(self.constructor(player_type@).unwrap(), (), strategy),
    {
        let found = self.find(player_type);
        let i: usize = found.unwrap();
        (self.entries[i].constructor)()
    }

    /// Whether a strategy is registered under the name.
    pub fn knows(&self, player_type: &String) -> (known: bool)
        ensures
            known == (self.constructor(player_type@) is Some),
    {
        self.find(player_type).is_some()
    }
}

impl<S: PlayerStrategy, F: Fn() -> S> Registry<F> {
    /// Whether every registered constructor builds players that never trade.
    pub closed spec fn builds_never_traders(self) -> bool {
        forall|i: int, built: S|
            0 <= i < self.entries@.len() && #[trigger] call_ensures(
                self.entries@[i].constructor,
                (),
                built,
            ) ==> built.never_trades()
    }

    /// What a registry of never-trading players builds never trades.
    pub proof fn lemma_builds_never_traders(self, name: Seq<char>, built: S)
        requires
            self.builds_never_traders(),
            self.constructor(name) is Some,
            call_ensures(self.constructor(name).unwrap(), (), built),
        ensures
            built.never_trades(),
    {
        lemma_position_of(self.entries@, name);
    }
}

/// Registers a strategy under a name. A strategy registered earlier under
/// the same name gives way.
pub fn register_strategy<S: PlayerStrategy, F: Fn() -> S>(
    registry: &mut Registry<F>,
    player_type: &str,
    constructor: F,
)
    ensures
        final(registry).constructor(player_type@) == Some(constructor),
        old(registry).callable() && call_requires(constructor, ()) ==> final(registry).callable(),
        old(registry).builds_never_traders() && (forall|built: S|
            call_ensures(constructor, (), built) ==> built.never_trades())
            ==> final(registry).builds_never_traders(),
        forall|name: Seq<char>|
            name != player_type@ ==> final(registry).constructor(name) == old(
                registry,
            ).constructor(name),
{
    let name = player_type.to_owned();
    let ghost before = registry.entries@;
    match registry.find(&name) {
        Some(i) => {
            registry.entries[i] = Entry { name, constructor };
            proof {
                assert forall|other: Seq<char>|
                    position_of(registry.entries@, other) == position_of(before, other) by {
                    lemma_position_of(before, player_type@);
                    lemma_position_same_names(registry.entries@, before, other);
                }
                assert forall|other: Seq<char>| other != player_type@ implies registry.constructor(
                    other,
                ) == old(registry).constructor(other) by {
                    lemma_position_of(before, other);
                    lemma_position_of(before, player_type@);
                    lemma_position_same_names(registry.entries@, before, other);
                    match position_of(before, other) {
                        Some(j) => {
                            assert(j != i);
                            assert(registry.entries@[j] == before[j]);
                        },
                        None => {},
                    }
                }
            }
        },
        None => {
            registry.entries.push(Entry { name, constructor });
            proof {
                assert(registry.entries@.drop_last() =~= before);
                assert forall|other: Seq<char>| other != player_type@ implies registry.constructor(
                    other,
                ) == old(registry).constructor(other) by {
                    lemma_position_of(before, other);
                }
            }
        },
    }
}

/// A seat was to go to a strategy that is not registered.
#[derive(Debug)]
pub struct UnknownPlayerType {
    /// The first seat that could not be filled.
    pub seat: PlayerId,
    /// The name that was asked for.
    pub player_type: String,
}

/// The name of the strategy that takes a seat: the configured one, or the
/// default for a seat without configuration.
pub open spec fn seat_type(configs: Seq<PlayerConfig>, seat: int) -> Seq<char> {
    if 0 <= seat < configs.len() {
        configs[seat].player_type@
    } else {
        DEFAULT_PLAYER_TYPE@
    }
}

/// Whether the strategy is what the constructor registered under the
/// configured name built, set up by `init` for the seat with the configured
/// settings.
pub open spec fn built_and_set_up<S: PlayerStrategy, F: Fn() -> S>(
    registry: Registry<F>,
    config: PlayerConfig,
    seat: int,
    strategy: S,
) -> bool {
    exists|built: S|
        call_ensures(registry.constructor(config.player_type@).unwrap(), (), built)
            && #[trigger] strategy.is_set_up(&built, seat as usize, &config.config)
}

/// Builds the players of a game, one for each seat. A configured seat gets
/// the strategy of its name, set up with its settings; the seats after the
/// configured ones get the default strategy as it is built. Nothing is built
/// unless every seat can be filled.
pub fn load_strategies<S: PlayerStrategy, F: Fn() -> S>(
    registry: &Registry<F>,
    configs: &Vec<PlayerConfig>,
    num_players: usize,
) -> (loaded: Result<Vec<S>, UnknownPlayerType>)
    requires
        configs.len() <= num_players,
        registry.callable(),
    ensures
        match loaded {
            Ok(strategies) => {
                &&& strategies.len() == num_players
                &&& forall|seat: int|
                    0 <= seat < num_players ==> registry.constructor(
                        #[trigger] seat_type(configs@, seat),
                    ) is Some
                &&& forall|seat: int|
                    0 <= seat < configs.len() ==> built_and_set_up(
                        *registry,
                        configs@[seat],
                        seat,
                        #[trigger] strategies[seat],
                    )
                &&& forall|seat: int|
                    configs.len() <= seat < num_players ==> call_ensures(
                        registry.constructor(DEFAULT_PLAYER_TYPE@).unwrap(),
                        (),
                        #[trigger] strategies[seat],
                    )
            },
            Err(unknown) => {
                &&& unknown.seat < num_players
                &&& unknown.player_type@ == seat_type(configs@, unknown.seat as int)
                &&& registry.constructor(unknown.player_type@) is None
                &&& forall|seat: int|
                    0 <= seat < unknown.seat ==> registry.constructor(
                        #[trigger] seat_type(configs@, seat),
                    ) is Some
            },
        },
        registry.builds_never_traders() ==> (loaded matches Ok(strategies) ==> all_never_trade(
            strategies@,
        )),
{
    let default_type = DEFAULT_PLAYER_TYPE.to_owned();
    let mut seat: usize = 0;
    while seat < num_players
        invariant
            seat <= num_players,
            configs.len() <= num_players,
            default_type@ == DEFAULT_PLAYER_TYPE@,
            forall|s: int|
                0 <= s < seat ==> registry.constructor(#[trigger] seat_type(configs@, s)) is Some,
        decreases num_players - seat,
    {
        let player_type = if seat < configs.len() {
            &configs[seat].player_type
        } else {
            &default_type
        };
        assert(player_type@ == seat_type(configs@, seat as int));
        if !registry.knows(player_type) {
            return Err(UnknownPlayerType { seat, player_type: player_type.clone() });
        }
        seat = seat + 1;
    }
    let mut strategies: Vec<S> = Vec::new();
    let mut seat: usize = 0;
    while seat < num_players
        invariant
            seat <= num_players,
            configs.len() <= num_players,
            strategies.len() == seat,
            registry.callable(),
            default_type@ == DEFAULT_PLAYER_TYPE@,
            forall|s: int|
                0 <= s < num_players ==> registry.constructor(
                    #[trigger] seat_type(configs@, s),
                ) is Some,
            forall|s: int|
                configs.len() <= s < seat ==> call_ensures(
                    registry.constructor(DEFAULT_PLAYER_TYPE@).unwrap(),
                    (),
                    #[trigger] strategies[s],
                ),
            forall|s: int|
                0 <= s < seat && s < configs.len() ==> built_and_set_up(
                    *registry,
                    configs@[s],
                    s,
                    #[trigger] strategies[s],
                ),
            registry.builds_never_traders() ==> all_never_trade(strategies@),
        decreases num_players - seat,
    {
        let ghost before = strategies@;
        if seat < configs.len() {
            let config = &configs[seat];
            assert(config.player_type@ == seat_type(configs@, seat as int));
            let mut strategy = registry.build(&config.player_type);
            let ghost built = strategy;
            proof {
                if registry.builds_never_traders() {
                    registry.lemma_builds_never_traders(config.player_type@, built);
                }
            }
            strategy.init(seat, &config.config);
            assert(call_ensures(
                registry.constructor(configs@[seat as int].player_type@).unwrap(),
                (),
                built,
            ));
            assert(strategy.is_set_up(
                &built,
                (seat as int) as usize,
                &configs@[seat as int].config,
            ));
            assert(built_and_set_up(*registry, configs@[seat as int], seat as int, strategy));
            strategies.push(strategy);
        } else {
            assert(default_type@ == seat_type(configs@, seat as int));
            let strategy = registry.build(&default_type);
            proof {
                if registry.builds_never_traders() {
                    registry.lemma_builds_never_traders(default_type@, strategy);
                }
            }
            strategies.push(strategy);
        }
        assert forall|s: int| configs.len() <= s < seat + 1 implies call_ensures(
            registry.constructor(DEFAULT_PLAYER_TYPE@).unwrap(),
            (),
            #[trigger] strategies[s],
        ) by {
            if s < seat {
                assert(strategies[s] == before[s]);
            }
        }
        assert(registry.builds_never_traders() ==> all_never_trade(strategies@)) by {
            if registry.builds_never_traders() {
                assert forall|s: int| 0 <= s < strategies@.len() implies (
                #[trigger] strategies@[s]).never_trades() by {
                    if s < seat {
                        assert(strategies@[s] == before[s]);
                        assert(before[s].never_trades());
                    }
                }
            }
        }
        assert forall|s: int| 0 <= s < seat + 1 && s < configs.len() implies built_and_set_up(
            *registry,
            configs@[s],
            s,
            #[trigger] strategies[s],
        ) by {
            if s < seat {
                assert(strategies[s] == before[s]);
            }
        }
        seat = seat + 1;
    }
    Ok(strategies)
}

} // verus!
