//! Games repeat themselves: where what a player is shown and what it was
//! fix what it says and what it becomes, the same start with the same
//! players gives the same game.

use vstd::prelude::*;
use crate::engine::{
    game_played, game_went, lead_answered, lead_offered, offer_under, offers_verdict,
    others_answered, others_offered, round_played, round_went, rounds_chained, turn_played,
    turn_went, turns_chained, victorious, with_proposals, GameEnd, PlayError, RoundEnd, TurnEnd,
};
use crate::game::{lemma_snapshot_unique, offers_below, GameResult, GameRules, GameView};
use crate::no_trades::PlayerNoTrades;
use crate::player::PlayerStrategy;
use crate::types::{PlayerId, Trade};

verus! {

/// Whether the players of a type decide alone: what a player was and what
/// it is shown leave one thing for it to say and one player for it to become.
pub open spec fn decides_alone<S: PlayerStrategy>() -> bool {
    &&& forall|was: S, game: GameView, one: S, said: Map<PlayerId, Trade>, other: S, also: Map<
        PlayerId,
        Trade,
    >|
        #![trigger one.offered_as_lead(&was, game, said), other.offered_as_lead(&was, game, also)]
        one.offered_as_lead(&was, game, said) && other.offered_as_lead(&was, game, also) ==> one
            == other && said == also
    &&& forall|was: S, game: GameView, one: S, said: Option<Trade>, other: S, also: Option<Trade>|
        #![trigger one.offered_as_non_lead(&was, game, said), other.offered_as_non_lead(&was, game, also)]
        one.offered_as_non_lead(&was, game, said) && other.offered_as_non_lead(&was, game, also)
            ==> one == other && said == also
    &&& forall|was: S, game: GameView, one: S, said: Seq<bool>, other: S, also: Seq<bool>|
        #![trigger one.answered_as_lead(&was, game, said), other.answered_as_lead(&was, game, also)]
        one.answered_as_lead(&was, game, said) && other.answered_as_lead(&was, game, also) ==> one
            == other && said == also
    &&& forall|was: S, game: GameView, trade: Trade, one: S, said: bool, other: S, also: bool|
        #![trigger one.answered_as_non_lead(&was, game, trade, said), other.answered_as_non_lead(&was, game, trade, also)]
        one.answered_as_non_lead(&was, game, trade, said) && other.answered_as_non_lead(
            &was,
            game,
            trade,
            also,
        ) ==> one == other && said == also
}

/// Every position among the offers is that of the offer under some seat.
pub proof fn lemma_position_has_seat(proposals: Map<PlayerId, Trade>, seats: nat, position: int)
    requires
        0 <= position < offers_below(proposals, seats).len(),
    ensures
        exists|seat: int|
            0 <= seat < seats && proposals.contains_key(seat as usize) && #[trigger] offers_below(
                proposals,
                seat as nat,
            ).len() == position,
    decreases seats,
{
    if seats > 0 {
        let earlier = offers_below(proposals, (seats - 1) as nat);
        if position < earlier.len() {
            lemma_position_has_seat(proposals, (seats - 1) as nat, position);
        } else {
            assert(proposals.contains_key((seats - 1) as usize));
            assert(offers_below(proposals, (seats - 1) as nat).len() == position);
        }
    }
}

/// Players that decide alone make the same offers of the same table.
pub proof fn lemma_offers_repeat<S: PlayerStrategy>(
    game: GameView,
    players: Seq<S>,
    one: Seq<S>,
    said: Map<PlayerId, Trade>,
    other: Seq<S>,
    also: Map<PlayerId, Trade>,
)
    requires
        decides_alone::<S>(),
        if game.current_round % 2 == 0 {
            lead_offered(players, game, one, said) && lead_offered(players, game, other, also)
        } else {
            others_offered(players, game, one, said) && others_offered(players, game, other, also)
        },
    ensures
        one == other,
        said == also,
{
    if game.current_round % 2 == 0 {
        let lead = game.lead as int;
        assert(one[lead].offered_as_lead(&players[lead], game, said));
        assert(other[lead].offered_as_lead(&players[lead], game, also));
        assert(one[lead] == other[lead]);
        assert(one =~= other);
    } else {
        assert forall|seat: int| 0 <= seat < players.len() implies one[seat] == other[seat]
            && offer_under(said, seat as usize) == offer_under(also, seat as usize) by {
            if seat != game.lead {
                assert(one[seat].offered_as_non_lead(
                    &players[seat],
                    game,
                    offer_under(said, seat as usize),
                ));
                assert(other[seat].offered_as_non_lead(
                    &players[seat],
                    game,
                    offer_under(also, seat as usize),
                ));
            } else {
                assert(one[seat] == players[seat]);
                assert(other[seat] == players[seat]);
                assert(!said.contains_key(seat as usize));
                assert(!also.contains_key(seat as usize));
            }
        }
        assert(one =~= other);
        assert forall|seat: PlayerId|
            #![trigger said.dom().contains(seat)]
            #![trigger also.dom().contains(seat)]
            said.dom().contains(seat) == also.dom().contains(seat) && (said.dom().contains(seat)
                ==> said[seat] == also[seat]) by {
            if said.contains_key(seat) || also.contains_key(seat) {
                let at = seat as int;
                assert(0 <= at < players.len() && at != game.lead);
                assert(one[at].offered_as_non_lead(
                    &players[at],
                    game,
                    offer_under(said, at as usize),
                ));
                assert(other[at].offered_as_non_lead(
                    &players[at],
                    game,
                    offer_under(also, at as usize),
                ));
                assert(offer_under(said, seat) == offer_under(also, seat));
            }
        }
        assert(said =~= also);
    }
}

/// Players that decide alone give the same answers to the same offers.
pub proof fn lemma_answers_repeat<S: PlayerStrategy>(
    game: GameView,
    players: Seq<S>,
    one: Seq<S>,
    said: Seq<bool>,
    other: Seq<S>,
    also: Seq<bool>,
)
    requires
        decides_alone::<S>(),
        if game.current_round % 2 == 0 {
            others_answered(players, game, one, said) && others_answered(
                players,
                game,
                other,
                also,
            )
        } else {
            lead_answered(players, game, one, said) && lead_answered(players, game, other, also)
        },
    ensures
        one == other,
        said == also,
{
    if game.current_round % 2 == 0 {
        assert forall|seat: int| 0 <= seat < players.len() implies one[seat] == other[seat] && (
        game.proposals.contains_key(seat as usize) ==> said[offers_below(
            game.proposals,
            seat as nat,
        ).len() as int] == also[offers_below(game.proposals, seat as nat).len() as int]) by {
            if game.proposals.contains_key(seat as usize) {
                let position = offers_below(game.proposals, seat as nat).len() as int;
                assert(one[seat].answered_as_non_lead(
                    &players[seat],
                    game,
                    game.proposals[seat as usize],
                    said[position],
                ));
                assert(other[seat].answered_as_non_lead(
                    &players[seat],
                    game,
                    game.proposals[seat as usize],
                    also[position],
                ));
            } else {
                assert(one[seat] == players[seat]);
                assert(other[seat] == players[seat]);
            }
        }
        assert(one =~= other);
        assert forall|position: int| 0 <= position < said.len() implies said[position]
            == also[position] by {
            lemma_position_has_seat(game.proposals, players.len(), position);
            let seat = choose|seat: int|
                0 <= seat < players.len() && game.proposals.contains_key(seat as usize)
                    && #[trigger] offers_below(game.proposals, seat as nat).len() == position;
            assert(one[seat] == other[seat]);
        }
        assert(said =~= also);
    } else {
        let lead = game.lead as int;
        assert(one[lead].answered_as_lead(&players[lead], game, said));
        assert(other[lead].answered_as_lead(&players[lead], game, also));
        assert(one[lead] == other[lead]);
        assert(one =~= other);
    }
}

/// A round repeats itself: from the same state, with the same players, who
/// decide alone, it ends the same way in the same state and leaves the same
/// players.
pub proof fn lemma_round_repeats<S: PlayerStrategy>(
    game: GameView,
    rules: GameRules,
    players: Seq<S>,
    end: Result<RoundEnd, PlayError>,
    after_game: GameView,
    after: Seq<S>,
    other_end: Result<RoundEnd, PlayError>,
    other_game: GameView,
    other: Seq<S>,
)
    requires
        decides_alone::<S>(),
        round_played(game, rules, players, end, after_game, after),
        round_played(game, rules, players, other_end, other_game, other),
    ensures
        end == other_end,
        after_game == other_game,
        after == other,
{
    if !victorious(game, rules) && game.current_round != i32::MAX {
        let (mid, said, answered) = choose|
            mid: Seq<S>,
            proposals: Map<PlayerId, Trade>,
            answers: Seq<bool>,
        | #[trigger] round_went(game, players, mid, proposals, answers, end, after_game, after);
        let (other_mid, also, other_answered) = choose|
            mid: Seq<S>,
            proposals: Map<PlayerId, Trade>,
            answers: Seq<bool>,
        | #[trigger]
            round_went(game, players, mid, proposals, answers, other_end, other_game, other);
        lemma_offers_repeat(game, players, mid, said, other_mid, also);
        if offers_verdict(game, said) is None {
            lemma_answers_repeat(
                with_proposals(game, said),
                mid,
                after,
                answered,
                other,
                other_answered,
            );
        }
    }
}

/// How the round ends that ends a turn this way.
pub open spec fn last_round_end(end: Result<TurnEnd, PlayError>) -> Result<RoundEnd, PlayError> {
    match end {
        Ok(TurnEnd::Victory) => Ok(RoundEnd::Victory),
        Ok(TurnEnd::Passed) => Ok(RoundEnd::Silence),
        Err(error) => Err(error),
    }
}

/// The state in which the round ends that ends a turn this way.
pub open spec fn last_round_game(
    end: Result<TurnEnd, PlayError>,
    last: GameView,
    after_game: GameView,
) -> GameView {
    match end {
        Ok(TurnEnd::Passed) => with_proposals(last, Map::empty()),
        _ => after_game,
    }
}

/// Two runs of rounds from the same position, by players who decide alone,
/// pass through the same positions.
pub proof fn lemma_rounds_agree<S: PlayerStrategy>(
    rules: GameRules,
    one: Seq<(GameView, Seq<S>)>,
    other: Seq<(GameView, Seq<S>)>,
    i: int,
)
    requires
        decides_alone::<S>(),
        rounds_chained(rules, one),
        rounds_chained(rules, other),
        0 <= i < one.len(),
        i < other.len(),
        one[0] == other[0],
    ensures
        one[i] == other[i],
    decreases i,
{
    if i > 0 {
        lemma_rounds_agree(rules, one, other, i - 1);
        let from = one[i - 1];
        assert(round_played(from.0, rules, from.1, Ok(RoundEnd::Settled), one[i].0, one[i].1));
        assert(other[i - 1] == from);
        assert(round_played(
            other[i - 1].0,
            rules,
            other[i - 1].1,
            Ok(RoundEnd::Settled),
            other[i].0,
            other[i].1,
        ));
        lemma_round_repeats(
            from.0,
            rules,
            from.1,
            Ok(RoundEnd::Settled),
            one[i].0,
            one[i].1,
            Ok(RoundEnd::Settled),
            other[i].0,
            other[i].1,
        );
    }
}

/// A turn repeats itself: from the same state, with the same players, who
/// decide alone, it ends the same way in the same state and leaves the same
/// players.
pub proof fn lemma_turn_repeats<S: PlayerStrategy>(
    game: GameView,
    rules: GameRules,
    players: Seq<S>,
    end: Result<TurnEnd, PlayError>,
    after_game: GameView,
    after: Seq<S>,
    other_end: Result<TurnEnd, PlayError>,
    other_game: GameView,
    other: Seq<S>,
)
    requires
        decides_alone::<S>(),
        turn_played(game, rules, players, end, after_game, after),
        turn_played(game, rules, players, other_end, other_game, other),
    ensures
        end == other_end,
        after_game == other_game,
        after == other,
{
    let one = choose|trace: Seq<(GameView, Seq<S>)>| #[trigger]
        turn_went(game, rules, players, trace, end, after_game, after);
    let two = choose|trace: Seq<(GameView, Seq<S>)>| #[trigger]
        turn_went(game, rules, players, trace, other_end, other_game, other);
    let shorter = if one.len() <= two.len() {
        one.len() - 1
    } else {
        two.len() - 1
    };
    lemma_rounds_agree(rules, one, two, shorter);
    let from = one[shorter];
    assert(two[shorter] == from);
    if one.len() < two.len() {
        assert(one.last() == from);
        assert(round_played(
            from.0,
            rules,
            from.1,
            last_round_end(end),
            last_round_game(end, from.0, after_game),
            after,
        ));
        assert(round_played(
            two[shorter].0,
            rules,
            two[shorter].1,
            Ok(RoundEnd::Settled),
            two[shorter + 1].0,
            two[shorter + 1].1,
        ));
        lemma_round_repeats(
            from.0,
            rules,
            from.1,
            last_round_end(end),
            last_round_game(end, from.0, after_game),
            after,
            Ok(RoundEnd::Settled),
            two[shorter + 1].0,
            two[shorter + 1].1,
        );
    } else if two.len() < one.len() {
        assert(two.last() == from);
        assert(round_played(
            from.0,
            rules,
            from.1,
            last_round_end(other_end),
            last_round_game(other_end, from.0, other_game),
            other,
        ));
        assert(round_played(
            one[shorter].0,
            rules,
            one[shorter].1,
            Ok(RoundEnd::Settled),
            one[shorter + 1].0,
            one[shorter + 1].1,
        ));
        lemma_round_repeats(
            from.0,
            rules,
            from.1,
            last_round_end(other_end),
            last_round_game(other_end, from.0, other_game),
            other,
            Ok(RoundEnd::Settled),
            one[shorter + 1].0,
            one[shorter + 1].1,
        );
    } else {
        assert(one.last() == from);
        assert(two.last() == from);
        lemma_round_repeats(
            from.0,
            rules,
            from.1,
            last_round_end(end),
            last_round_game(end, from.0, after_game),
            after,
            last_round_end(other_end),
            last_round_game(other_end, from.0, other_game),
            other,
        );
    }
}

/// Two runs of turns from the same position, by players who decide alone,
/// pass through the same positions.
pub proof fn lemma_turns_agree<S: PlayerStrategy>(
    rules: GameRules,
    one: Seq<(GameView, Seq<S>)>,
    other: Seq<(GameView, Seq<S>)>,
    i: int,
)
    requires
        decides_alone::<S>(),
        turns_chained(rules, one),
        turns_chained(rules, other),
        0 <= i < one.len(),
        i < other.len(),
        one[0] == other[0],
    ensures
        one[i] == other[i],
    decreases i,
{
    if i > 0 {
        lemma_turns_agree(rules, one, other, i - 1);
        let from = one[i - 1];
        assert(turn_played(from.0, rules, from.1, Ok(TurnEnd::Passed), one[i].0, one[i].1));
        assert(other[i - 1] == from);
        assert(turn_played(
            other[i - 1].0,
            rules,
            other[i - 1].1,
            Ok(TurnEnd::Passed),
            other[i].0,
            other[i].1,
        ));
        lemma_turn_repeats(
            from.0,
            rules,
            from.1,
            Ok(TurnEnd::Passed),
            one[i].0,
            one[i].1,
            Ok(TurnEnd::Passed),
            other[i].0,
            other[i].1,
        );
    }
}

/// How the turn ends that ends a game with a victory or a fault.
pub open spec fn last_turn_end(end: Result<GameEnd, PlayError>) -> Result<TurnEnd, PlayError> {
    match end {
        Err(error) => Err(error),
        _ => Ok(TurnEnd::Victory),
    }
}

/// Whether the game ends with a turn that is cut short: by the lead's
/// victory or by a fault.
pub open spec fn ends_in_a_turn(end: Result<GameEnd, PlayError>) -> bool {
    end is Err || end == Ok::<GameEnd, PlayError>(GameEnd::Victory)
}

/// A game repeats itself: from the same state, with the same players, who
/// decide alone, it ends the same way in the same state, the record of
/// trades with it, and leaves the same players.
pub proof fn lemma_game_repeats<S: PlayerStrategy>(
    game: GameView,
    rules: GameRules,
    players: Seq<S>,
    end: Result<GameEnd, PlayError>,
    after_game: GameView,
    after: Seq<S>,
    other_end: Result<GameEnd, PlayError>,
    other_game: GameView,
    other: Seq<S>,
)
    requires
        decides_alone::<S>(),
        game_played(game, rules, players, end, after_game, after),
        game_played(game, rules, players, other_end, other_game, other),
    ensures
        end == other_end,
        after_game == other_game,
        after == other,
{
    let one = choose|trace: Seq<(GameView, Seq<S>)>| #[trigger]
        game_went(game, rules, players, trace, end, after_game, after);
    let two = choose|trace: Seq<(GameView, Seq<S>)>| #[trigger]
        game_went(game, rules, players, trace, other_end, other_game, other);
    let shorter = if one.len() <= two.len() {
        one.len() - 1
    } else {
        two.len() - 1
    };
    lemma_turns_agree(rules, one, two, shorter);
    let from = one[shorter];
    assert(two[shorter] == from);
    if one.len() < two.len() {
        assert(one.last() == from);
        assert(two[shorter].0.current_turn < rules.max_turns && two[shorter].0.deck.len() > 0
            && turn_played(
            two[shorter].0,
            rules,
            two[shorter].1,
            Ok(TurnEnd::Passed),
            two[shorter + 1].0,
            two[shorter + 1].1,
        ));
        if ends_in_a_turn(end) {
            lemma_turn_repeats(
                from.0,
                rules,
                from.1,
                last_turn_end(end),
                after_game,
                after,
                Ok(TurnEnd::Passed),
                two[shorter + 1].0,
                two[shorter + 1].1,
            );
        }
    } else if two.len() < one.len() {
        assert(two.last() == from);
        assert(one[shorter].0.current_turn < rules.max_turns && one[shorter].0.deck.len() > 0
            && turn_played(
            one[shorter].0,
            rules,
            one[shorter].1,
            Ok(TurnEnd::Passed),
            one[shorter + 1].0,
            one[shorter + 1].1,
        ));
        if ends_in_a_turn(other_end) {
            lemma_turn_repeats(
                from.0,
                rules,
                from.1,
                last_turn_end(other_end),
                other_game,
                other,
                Ok(TurnEnd::Passed),
                one[shorter + 1].0,
                one[shorter + 1].1,
            );
        }
    } else {
        assert(one.last() == from);
        assert(two.last() == from);
        if ends_in_a_turn(end) && ends_in_a_turn(other_end) {
            lemma_turn_repeats(
                from.0,
                rules,
                from.1,
                last_turn_end(end),
                after_game,
                after,
                last_turn_end(other_end),
                other_game,
                other,
            );
        }
    }
}

/// The player that never trades decides alone.
pub proof fn lemma_never_trader_decides_alone()
    ensures
        decides_alone::<PlayerNoTrades>(),
{
}

/// Equal games give equal results: two games from the same state, with the
/// same players, who decide alone, that both came to an end, show the same
/// turns, the same scores and the same winner, and have left the same record
/// of trades.
pub proof fn lemma_results_repeat<S: PlayerStrategy>(
    game: GameView,
    rules: GameRules,
    players: Seq<S>,
    end: GameEnd,
    last: GameView,
    after: Seq<S>,
    result: GameResult,
    other_end: GameEnd,
    other_last: GameView,
    other_after: Seq<S>,
    other_result: GameResult,
)
    requires
        decides_alone::<S>(),
        game_played(game, rules, players, Ok(end), last, after),
        game_played(game, rules, players, Ok(other_end), other_last, other_after),
        result.is_snapshot_of(last),
        other_result.is_snapshot_of(other_last),
    ensures
        result.turns == other_result.turns,
        result.scores@ == other_result.scores@,
        result.winner == other_result.winner,
        last.past_trades == other_last.past_trades,
        last.current_trades == other_last.current_trades,
{
    lemma_game_repeats(
        game,
        rules,
        players,
        Ok(end),
        last,
        after,
        Ok(other_end),
        other_last,
        other_after,
    );
    lemma_snapshot_unique(last, result, other_result);
}

} // verus!
