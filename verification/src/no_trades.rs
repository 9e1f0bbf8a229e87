//! The player that keeps what it draws.

use vstd::prelude::*;
use std::collections::HashMap;
use crate::game::{GameState, GameView};
use crate::player::PlayerStrategy;
use crate::types::{PlayerId, Trade};

verus! {

/// A player that never offers and never accepts a trade.
pub struct PlayerNoTrades {}

impl PlayerNoTrades {
    pub fn new() -> PlayerNoTrades {
        PlayerNoTrades {  }
    }
}

impl PlayerStrategy for PlayerNoTrades {
    open spec fn never_trades(&self) -> bool {
        true
    }

    open spec fn is_set_up(
        &self,
        built: &Self,
        player_id: PlayerId,
        value: &serde_json::Value,
    ) -> bool {
        self == built
    }

    open spec fn offered_as_lead(
        &self,
        before: &Self,
        game: GameView,
        proposals: Map<PlayerId, Trade>,
    ) -> bool {
        self == before && proposals == Map::<PlayerId, Trade>::empty()
    }

    open spec fn offered_as_non_lead(
        &self,
        before: &Self,
        game: GameView,
        proposal: Option<Trade>,
    ) -> bool {
        self == before && proposal is None
    }

    open spec fn answered_as_lead(&self, before: &Self, game: GameView, answers: Seq<bool>) -> bool {
        self == before && answers == Seq::new(game.proposals.len(), |i: int| false)
    }

    open spec fn answered_as_non_lead(
        &self,
        before: &Self,
        game: GameView,
        trade: Trade,
        answer: bool,
    ) -> bool {
        self == before && !answer
    }

    fn init(&mut self, player_id: PlayerId, value: &serde_json::Value) {
    }

    fn reset(&mut self) {
    }

    fn propose_trades_as_lead(&mut self, game_state: &GameState) -> (proposals: HashMap<
        PlayerId,
        Trade,
    >)
        ensures
            proposals@ == Map::<PlayerId, Trade>::empty(),
    {
        HashMap::new()
    }

    fn propose_trade_as_non_lead(&mut self, game_state: &GameState) -> (proposal: Option<Trade>)
        ensures
            proposal is None,
    {
        None
    }

    fn accept_trades_as_lead(&mut self, game_state: &GameState) -> (answers: Vec<bool>)
        ensures
            answers@.len() == game_state@.proposals.len(),
            forall|i: int| 0 <= i < answers@.len() ==> !answers@[i],
    {
        broadcast use vstd::std_specs::hash::group_hash_axioms;

        let answers = vec![false; game_state.current_trade_proposals.len()];
        assert(answers@ =~= Seq::new(game_state@.proposals.len(), |i: int| false));
        answers
    }

    fn accept_trades_as_non_lead(&mut self, game_state: &GameState, trade: &Trade) -> (answer:
        bool)
        ensures
            !answer,
    {
        false
    }
}

} // verus!
