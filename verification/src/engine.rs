//! The engine: it plays rounds, turns and whole games, asking the players in
//! a fixed order and settling only what can be fulfilled.

use vstd::prelude::*;
use std::collections::HashMap;
use crate::game::{accepted, offers_below, GameResult, GameRules, GameState, GameView};
use crate::ledger::{
    lemma_settle_all_concat, lemma_settle_all_conserves, settle_all, PlayerState,
};
use crate::player::{all_at_baseline, all_never_trade, PlayerStrategy};
use crate::types::{Category, PlayerId, Trade};

verus! {

broadcast use vstd::std_specs::hash::group_hash_axioms;

/// Someone who watches the game: called at the start of every round, before
/// anything is decided. What it does has no part in the game.
pub trait RoundObserver {
    /// Called with the state in which the round begins.
    fn before_round(&mut self, game_state: &GameState)
        requires
            game_state@.well_formed(),
    ;
}

/// The observer that does nothing.
pub struct Unobserved {}

impl RoundObserver for Unobserved {
    fn before_round(&mut self, game_state: &GameState) {
    }
}

/// Why a game could not go on. Each is the fault of a player or of the
/// machine, never a way for a game to end. The state is left as it stood
/// when the fault was found, the offending offers on the table.
#[derive(Clone, Copy, PartialEq, Eq, Structural, Debug)]
pub enum PlayError {
    /// An offer stands under a seat that is not at the table.
    StrayProposal,
    /// An offer was accepted that cannot be fulfilled.
    CannotSettle,
    /// The round counter has reached its limit.
    RoundLimit,
}

/// How a round ended.
#[derive(Clone, Copy, PartialEq, Eq, Structural, Debug)]
pub enum RoundEnd {
    /// The lead had reached the victory threshold: nobody was asked anything.
    Victory,
    /// The lead had nothing more to offer: the trading of this turn is over.
    Silence,
    /// Offers were made and answered, and the accepted ones settled.
    Settled,
}

/// How a turn ended.
#[derive(Clone, Copy, PartialEq, Eq, Structural, Debug)]
pub enum TurnEnd {
    /// The lead reached the victory threshold.
    Victory,
    /// The lead passed to the next seat.
    Passed,
}

/// How a game ended.
#[derive(Clone, Copy, PartialEq, Eq, Structural, Debug)]
pub enum GameEnd {
    /// The lead reached the victory threshold.
    Victory,
    /// No card was left to draw.
    DeckExhausted,
    /// The turn counter reached the limit of the rules.
    MaxTurnsReached,
}

/// Whether the lead's score has reached the victory threshold.
pub open spec fn victorious(game: GameView, rules: GameRules) -> bool {
    game.players[game.lead as int].points() >= rules.victory_threshold
}

/// The state that differs from `game` in the offers on the table only.
pub open spec fn with_proposals(game: GameView, proposals: Map<PlayerId, Trade>) -> GameView {
    GameView { proposals, ..game }
}

/// What a round makes of a state, for each way it can end.
pub open spec fn round_outcome(
    before: GameView,
    rules: GameRules,
    end: Result<RoundEnd, PlayError>,
    after: GameView,
) -> bool {
    match end {
        Ok(RoundEnd::Victory) => victorious(before, rules) && after == before,
        Ok(RoundEnd::Silence) => {
            &&& !victorious(before, rules)
            &&& before.current_round > 0
            &&& before.current_round % 2 == 0
            &&& after == with_proposals(before, Map::empty())
        },
        Ok(RoundEnd::Settled) => {
            let traded = after.current_trades.skip(before.current_trades.len() as int);
            &&& !victorious(before, rules)
            &&& before.current_round < i32::MAX
            &&& before.current_trades.len() <= after.current_trades.len()
            &&& settle_all(before.players, traded) is Some
            &&& after == GameView {
                players: settle_all(before.players, traded).unwrap(),
                current_round: (before.current_round + 1) as i32,
                proposals: Map::empty(),
                current_trades: before.current_trades + traded,
                ..before
            }
        },
        Err(error) => {
            &&& !victorious(before, rules)
            &&& after == with_proposals(before, after.proposals)
            &&& error == PlayError::RoundLimit <==> before.current_round == i32::MAX
            &&& error == PlayError::StrayProposal <==> before.current_round < i32::MAX
                && !after.proposals_seated()
        },
    }
}

/// Players who never trade stay such when one of them has been asked and
/// has stayed such.
pub proof fn lemma_one_asked<S: PlayerStrategy>(before: Seq<S>, after: Seq<S>, seat: int)
    requires
        0 <= seat < before.len(),
        after == before.update(seat, after[seat]),
        before[seat].never_trades() ==> after[seat].never_trades(),
    ensures
        all_never_trade(before) ==> all_never_trade(after),
{
    if all_never_trade(before) {
        assert forall|i: int| 0 <= i < after.len() implies (#[trigger] after[i]).never_trades() by {
            if i != seat {
                assert(before[i].never_trades());
            }
        }
    }
}

/// What a round makes of a state when none of the players ever trades: it
/// ends the game if the lead has won, ends the trading on an even round after
/// the first, and else just goes by.
pub open spec fn quiet_round(before: GameView, rules: GameRules) -> (
    Result<RoundEnd, PlayError>,
    GameView,
) {
    if victorious(before, rules) {
        (Ok(RoundEnd::Victory), before)
    } else if before.current_round == i32::MAX {
        (Err(PlayError::RoundLimit), before)
    } else if before.current_round > 0 && before.current_round % 2 == 0 {
        (Ok(RoundEnd::Silence), with_proposals(before, Map::empty()))
    } else {
        (
            Ok(RoundEnd::Settled),
            GameView {
                current_round: (before.current_round + 1) as i32,
                proposals: Map::empty(),
                ..before
            },
        )
    }
}

/// Where nothing is offered, nothing is settled.
pub proof fn lemma_no_offers(players: Seq<PlayerState>, seats: nat, decisions: Seq<bool>)
    ensures
        offers_below(Map::<PlayerId, Trade>::empty(), seats) == Seq::<Trade>::empty(),
        accepted(offers_below(Map::<PlayerId, Trade>::empty(), seats), decisions) == Seq::<
            Trade,
        >::empty(),
        settle_all(
            players,
            accepted(offers_below(Map::<PlayerId, Trade>::empty(), seats), decisions),
        ) == Some(players),
    decreases seats,
{
    if seats > 0 {
        lemma_no_offers(players, (seats - 1) as nat, decisions);
    }
}

/// The offer that stands under a seat, if any.
pub open spec fn offer_under(proposals: Map<PlayerId, Trade>, seat: PlayerId) -> Option<Trade> {
    if proposals.contains_key(seat) {
        Some(proposals[seat])
    } else {
        None
    }
}

/// Whether the lead, and nobody else, was asked for offers and made these.
pub open spec fn lead_offered<S: PlayerStrategy>(
    before: Seq<S>,
    game: GameView,
    after: Seq<S>,
    proposals: Map<PlayerId, Trade>,
) -> bool {
    &&& game.lead < before.len()
    &&& after == before.update(game.lead as int, after[game.lead as int])
    &&& after[game.lead as int].offered_as_lead(&before[game.lead as int], game, proposals)
}

/// Whether every player but the lead, and not the lead, was asked for an
/// offer, and the offers made are these, each under the seat of its maker.
pub open spec fn others_offered<S: PlayerStrategy>(
    before: Seq<S>,
    game: GameView,
    after: Seq<S>,
    proposals: Map<PlayerId, Trade>,
) -> bool {
    &&& after.len() == before.len()
    &&& forall|seat: PlayerId| #[trigger]
        proposals.contains_key(seat) ==> seat < before.len() && seat != game.lead
    &&& forall|seat: int|
        0 <= seat < before.len() ==> if seat == game.lead {
            #[trigger] after[seat] == before[seat]
        } else {
            after[seat].offered_as_non_lead(
                &before[seat],
                game,
                offer_under(proposals, seat as usize),
            )
        }
}

/// Whether every player with an offer under its seat, and nobody else, was
/// asked about that offer, and the answers are these, by ascending seat.
pub open spec fn others_answered<S: PlayerStrategy>(
    before: Seq<S>,
    game: GameView,
    after: Seq<S>,
    answers: Seq<bool>,
) -> bool {
    &&& after.len() == before.len()
    &&& answers.len() == offers_below(game.proposals, before.len()).len()
    &&& forall|seat: int|
        0 <= seat < before.len() ==> if game.proposals.contains_key(seat as usize) {
            (#[trigger] after[seat]).answered_as_non_lead(
                &before[seat],
                game,
                game.proposals[seat as usize],
                answers[offers_below(game.proposals, seat as nat).len() as int],
            )
        } else {
            after[seat] == before[seat]
        }
}

/// Whether the lead, and nobody else, was asked to answer the offers on the
/// table and gave these answers.
pub open spec fn lead_answered<S: PlayerStrategy>(
    before: Seq<S>,
    game: GameView,
    after: Seq<S>,
    answers: Seq<bool>,
) -> bool {
    &&& game.lead < before.len()
    &&& after == before.update(game.lead as int, after[game.lead as int])
    &&& after[game.lead as int].answered_as_lead(&before[game.lead as int], game, answers)
}

/// What comes of offers put on the table: the lead's silence on an even
/// round after the first ends the trading, an offer under a seat that is not
/// at the table stops the game, and else the offers wait for their answers.
pub open spec fn offers_verdict(game: GameView, proposals: Map<PlayerId, Trade>) -> Option<
    Result<RoundEnd, PlayError>,
> {
    if game.current_round > 0 && game.current_round % 2 == 0 && proposals.len() == 0 {
        Some(Ok(RoundEnd::Silence))
    } else if !with_proposals(game, proposals).proposals_seated() {
        Some(Err(PlayError::StrayProposal))
    } else {
        None
    }
}

/// What comes of answers to the offers on the table: the accepted offers
/// are settled and the round ends, or one of them cannot be fulfilled and
/// nothing changes.
pub open spec fn answers_verdict(game: GameView, answers: Seq<bool>) -> (
    Result<RoundEnd, PlayError>,
    GameView,
) {
    if game.can_end_round(answers) {
        (Ok(RoundEnd::Settled), game.round_ended(answers))
    } else {
        (Err(PlayError::CannotSettle), game)
    }
}

/// Puts the offers on the table and says what comes of them: how the round
/// ends, or nothing where they wait for answers.
pub fn table_offers(game: &mut GameState, proposals: HashMap<PlayerId, Trade>) -> (next: Option<
    Result<RoundEnd, PlayError>,
>)
    requires
        old(game)@.well_formed(),
        old(game).current_round < i32::MAX,
    ensures
        final(game)@ == with_proposals(old(game)@, proposals@),
        next == offers_verdict(old(game)@, proposals@),
{
    let ghost offered = proposals@;
    game.current_trade_proposals = proposals;
    assert(game@ == with_proposals(old(game)@, offered));
    if game.current_round > 0 && game.current_round % 2 == 0
        && game.current_trade_proposals.len() == 0 {
        return Some(Ok(RoundEnd::Silence));
    }
    if !game.proposals_are_seated() {
        return Some(Err(PlayError::StrayProposal));
    }
    None
}

/// Ends the round with the answers to the offers on the table: settles the
/// accepted offers, or finds one that cannot be fulfilled and changes nothing.
pub fn settle_answers(game: &mut GameState, answers: Vec<bool>) -> (end: Result<
    RoundEnd,
    PlayError,
>)
    requires
        old(game)@.well_formed(),
        old(game)@.proposals_seated(),
        old(game).current_round < i32::MAX,
    ensures
        (end, final(game)@) == answers_verdict(old(game)@, answers@),
        final(game)@.well_formed(),
        final(game).players.len() == old(game).players.len(),
        forall|c: Category| final(game)@.supply(c) == old(game)@.supply(c),
{
    if !game.round_settles(&answers) {
        return Err(PlayError::CannotSettle);
    }
    game.end_round(answers);
    Ok(RoundEnd::Settled)
}

/// Asks every player but the lead for an offer to the lead, by ascending seat.
fn collect_offers<S: PlayerStrategy>(game: &GameState, players: &mut Vec<S>) -> (offers: HashMap<
    PlayerId,
    Trade,
>)
    requires
        game@.well_formed(),
        game@.current_round % 2 == 1,
        old(players).len() == game.players.len(),
    ensures
        final(players).len() == old(players).len(),
        others_offered(old(players)@, game@, final(players)@, offers@),
        all_never_trade(old(players)@) ==> all_never_trade(final(players)@) && offers@
            == Map::<PlayerId, Trade>::empty(),
{
    let mut offers: HashMap<PlayerId, Trade> = HashMap::new();
    let mut seat: usize = 0;
    while seat < players.len()
        invariant
            game@.well_formed(),
            game@.current_round % 2 == 1,
            players.len() == game.players.len(),
            players.len() == old(players).len(),
            seat <= players.len(),
            forall|s: PlayerId| #[trigger]
                offers@.contains_key(s) ==> s < seat && s != game.lead,
            forall|s: int|
                0 <= s < seat ==> if s == game.lead {
                    #[trigger] players@[s] == old(players)@[s]
                } else {
                    players@[s].offered_as_non_lead(
                        &old(players)@[s],
                        game@,
                        offer_under(offers@, s as usize),
                    )
                },
            forall|s: int| seat <= s < players.len() ==> #[trigger] players@[s] == old(players)@[s],
            all_never_trade(old(players)@) ==> all_never_trade(players@) && offers@
                == Map::<PlayerId, Trade>::empty(),
        decreases players.len() - seat,
    {
        let ghost before = players@;
        let ghost tabled = offers@;
        if seat != game.lead {
            let proposal = players[seat].propose_trade_as_non_lead(game);
            proof {
                lemma_one_asked(before, players@, seat as int);
            }
            match proposal {
                Some(trade) => {
                    offers.insert(seat, trade);
                },
                None => {},
            }
        }
        proof {
            assert forall|s: int| 0 <= s < seat + 1 implies if s == game.lead {
                #[trigger] players@[s] == old(players)@[s]
            } else {
                players@[s].offered_as_non_lead(
                    &old(players)@[s],
                    game@,
                    offer_under(offers@, s as usize),
                )
            } by {
                if s < seat {
                    assert(players@[s] == before[s]);
                    assert(offer_under(offers@, s as usize) == offer_under(tabled, s as usize));
                }
            }
        }
        seat = seat + 1;
    }
    offers
}

/// Asks every player to whom the lead made an offer for an answer, by
/// ascending seat. There is one answer for each offer on the table, in the
/// order of the offers; what each answer is, the player decides.
fn collect_answers<S: PlayerStrategy>(game: &GameState, players: &mut Vec<S>) -> (answers: Vec<
    bool,
>)
    requires
        game@.well_formed(),
        game@.current_round % 2 == 0,
        old(players).len() == game.players.len(),
    ensures
        final(players).len() == old(players).len(),
        answers@.len() == game@.offers().len(),
        others_answered(old(players)@, game@, final(players)@, answers@),
        all_never_trade(old(players)@) ==> all_never_trade(final(players)@) && forall|i: int|
            0 <= i < answers@.len() ==> !answers@[i],
{
    let mut answers: Vec<bool> = Vec::new();
    let mut seat: usize = 0;
    while seat < players.len()
        invariant
            game@.well_formed(),
            game@.current_round % 2 == 0,
            players.len() == game.players.len(),
            players.len() == old(players).len(),
            seat <= players.len(),
            answers@.len() == offers_below(game@.proposals, seat as nat).len(),
            forall|s: int|
                0 <= s < seat ==> if game@.proposals.contains_key(s as usize) {
                    (#[trigger] players@[s]).answered_as_non_lead(
                        &old(players)@[s],
                        game@,
                        game@.proposals[s as usize],
                        answers@[offers_below(game@.proposals, s as nat).len() as int],
                    )
                } else {
                    players@[s] == old(players)@[s]
                },
            forall|s: int|
                0 <= s < seat && game@.proposals.contains_key(s as usize) ==> #[trigger] offers_below(
                    game@.proposals,
                    s as nat,
                ).len() < offers_below(game@.proposals, seat as nat).len(),
            forall|s: int| seat <= s < players.len() ==> #[trigger] players@[s] == old(players)@[s],
            all_never_trade(old(players)@) ==> all_never_trade(players@) && forall|i: int|
                0 <= i < answers@.len() ==> !answers@[i],
        decreases players.len() - seat,
    {
        let ghost before = players@;
        let ghost given = answers@;
        match game.current_trade_proposals.get(&seat) {
            Some(trade) => {
                let answer = players[seat].accept_trades_as_non_lead(game, trade);
                proof {
                    lemma_one_asked(before, players@, seat as int);
                }
                answers.push(answer);
            },
            None => {},
        }
        proof {
            assert forall|s: int| 0 <= s < seat + 1 implies if game@.proposals.contains_key(
                s as usize,
            ) {
                (#[trigger] players@[s]).answered_as_non_lead(
                    &old(players)@[s],
                    game@,
                    game@.proposals[s as usize],
                    answers@[offers_below(game@.proposals, s as nat).len() as int],
                )
            } else {
                players@[s] == old(players)@[s]
            } by {
                if s < seat {
                    assert(players@[s] == before[s]);
                    if game@.proposals.contains_key(s as usize) {
                        let k = offers_below(game@.proposals, s as nat).len() as int;
                        assert(k < given.len());
                        assert(answers@[k] == given[k]);
                    }
                }
            }
        }
        seat = seat + 1;
    }
    answers
}

impl GameState {
    /// Whether the lead's score has reached the victory threshold.
    pub fn lead_has_won(&self, rules: &GameRules) -> (won: bool)
        requires
            self.lead < self.players.len(),
        ensures
            won == victorious(self@, *rules),
    {
        self.players[self.lead].score() >= rules.victory_threshold as i128
    }
}

/// Whether a round went by these offers and answers: the side whose round
/// it is was asked for offers (the lead on even rounds, the others on odd
/// rounds) and made `proposals`, which left the players as `mid`; and where
/// the offers waited for answers, the other side was asked and gave `answers`.
pub open spec fn round_went<S: PlayerStrategy>(
    before_game: GameView,
    before: Seq<S>,
    mid: Seq<S>,
    proposals: Map<PlayerId, Trade>,
    answers: Seq<bool>,
    end: Result<RoundEnd, PlayError>,
    after_game: GameView,
    after: Seq<S>,
) -> bool {
    let on_even_round = before_game.current_round % 2 == 0;
    let tabled = with_proposals(before_game, proposals);
    &&& if on_even_round {
        lead_offered(before, before_game, mid, proposals)
    } else {
        others_offered(before, before_game, mid, proposals)
    }
    &&& match offers_verdict(before_game, proposals) {
        Some(verdict) => end == verdict && after_game == tabled && after == mid,
        None => {
            &&& if on_even_round {
                others_answered(mid, tabled, after, answers)
            } else {
                lead_answered(mid, tabled, after, answers)
            }
            &&& (end, after_game) == answers_verdict(tabled, answers)
        },
    }
}

/// What a round is, whoever plays: if the lead has won, or the round counter
/// is at its limit, nobody is asked and nothing changes; else the round goes
/// by some offers and answers of the players, asked as `round_went` tells.
pub open spec fn round_played<S: PlayerStrategy>(
    before_game: GameView,
    rules: GameRules,
    before: Seq<S>,
    end: Result<RoundEnd, PlayError>,
    after_game: GameView,
    after: Seq<S>,
) -> bool {
    if victorious(before_game, rules) {
        end == Ok::<RoundEnd, PlayError>(RoundEnd::Victory) && after_game == before_game && after
            == before
    } else if before_game.current_round == i32::MAX {
        end == Err::<RoundEnd, PlayError>(PlayError::RoundLimit) && after_game == before_game
            && after == before
    } else {
        exists|mid: Seq<S>, proposals: Map<PlayerId, Trade>, answers: Seq<bool>| #[trigger]
            round_went(before_game, before, mid, proposals, answers, end, after_game, after)
    }
}

/// Plays one round. If the lead has reached the victory threshold, nobody is
/// asked and nothing changes. Otherwise the initiating side makes its offers
/// (the lead on even rounds, the others on odd rounds); the lead's silence on
/// a later even round ends the trading; else the other side answers and the
/// accepted offers are settled by ascending seat.
pub fn play_round<S: PlayerStrategy, O: RoundObserver>(
    rules: &GameRules,
    game: &mut GameState,
    players: &mut Vec<S>,
    observer: &mut O,
) -> (end: Result<RoundEnd, PlayError>)
    requires
        old(game)@.well_formed(),
        old(players).len() == old(game).players.len(),
    ensures
        round_played(old(game)@, *rules, old(players)@, end, final(game)@, final(players)@),
        round_outcome(old(game)@, *rules, end, final(game)@),
        end == Ok::<RoundEnd, PlayError>(RoundEnd::Victory) <==> victorious(old(game)@, *rules),
        end == Ok::<RoundEnd, PlayError>(RoundEnd::Victory) ==> final(players)@ == old(players)@,
        final(players).len() == old(players).len(),
        final(game).players.len() == old(game).players.len(),
        final(game)@.well_formed(),
        forall|c: Category| final(game)@.supply(c) == old(game)@.supply(c),
        all_never_trade(old(players)@) ==> all_never_trade(final(players)@) && (end, final(game)@)
            == quiet_round(old(game)@, *rules),
{
    let ghost quiet = all_never_trade(players@);
    observer.before_round(game);
    if game.lead_has_won(rules) {
        return Ok(RoundEnd::Victory);
    }
    if game.current_round == i32::MAX {
        assert(game@ == with_proposals(old(game)@, game@.proposals));
        return Err(PlayError::RoundLimit);
    }
    let on_even_round = game.current_round % 2 == 0;
    let ghost before = players@;
    let proposals = if on_even_round {
        let proposals = players[game.lead].propose_trades_as_lead(game);
        proof {
            lemma_one_asked(before, players@, game.lead as int);
        }
        proposals
    } else {
        collect_offers(game, players)
    };
    let ghost offered = proposals@;
    let ghost mid = players@;
    match table_offers(game, proposals) {
        Some(verdict) => {
            proof {
                assert(round_went(
                    old(game)@,
                    before,
                    mid,
                    offered,
                    Seq::<bool>::empty(),
                    verdict,
                    game@,
                    players@,
                ));
                if verdict == Ok::<RoundEnd, PlayError>(RoundEnd::Silence) {
                    assert(offered =~= Map::<PlayerId, Trade>::empty());
                }
            }
            return verdict;
        },
        None => {},
    }
    let ghost tabled = game@;
    let answers = if on_even_round {
        collect_answers(game, players)
    } else {
        let answers = players[game.lead].accept_trades_as_lead(game);
        proof {
            lemma_one_asked(mid, players@, game.lead as int);
        }
        answers
    };
    let ghost answered = answers@;
    proof {
        if quiet {
            lemma_no_offers(game@.players, game@.players.len(), answers@);
        }
        if tabled.can_end_round(answered) {
            crate::game::lemma_round_conserves(tabled, answered);
        }
    }
    let end = settle_answers(game, answers);
    proof {
        assert(round_went(old(game)@, before, mid, offered, answered, end, game@, players@));
        if end is Ok {
            let settled = accepted(tabled.offers(), answered);
            let traded = game@.current_trades.skip(old(game)@.current_trades.len() as int);
            assert(traded =~= settled);
            if quiet {
                assert(game@.current_trades =~= old(game)@.current_trades);
            }
        }
    }
    end
}

/// Whether `now` is a state of the turn that began in `start`: trades were
/// settled and recorded, rounds went by, and nothing else happened.
pub open spec fn in_turn(start: GameView, now: GameView) -> bool {
    let traded = now.current_trades.skip(start.current_trades.len() as int);
    &&& start.current_trades.len() <= now.current_trades.len()
    &&& start.current_round <= now.current_round
    &&& settle_all(start.players, traded) is Some
    &&& now == GameView {
        players: settle_all(start.players, traded).unwrap(),
        current_round: now.current_round,
        proposals: now.proposals,
        current_trades: start.current_trades + traded,
        ..start
    }
}

/// A round that does not fail keeps the game within the turn.
pub proof fn lemma_round_in_turn(
    start: GameView,
    before: GameView,
    rules: GameRules,
    end: Result<RoundEnd, PlayError>,
    after: GameView,
)
    requires
        in_turn(start, before),
        round_outcome(before, rules, end, after),
    ensures
        in_turn(start, after),
{
    let earlier = before.current_trades.skip(start.current_trades.len() as int);
    match end {
        Ok(RoundEnd::Settled) => {
            let traded = after.current_trades.skip(before.current_trades.len() as int);
            let all = after.current_trades.skip(start.current_trades.len() as int);
            assert(all =~= earlier + traded);
            lemma_settle_all_concat(start.players, earlier, traded);
            assert(after.current_trades =~= start.current_trades + all);
        },
        _ => {
            assert(after.current_trades == before.current_trades);
        },
    }
}

/// What a turn makes of a state, for each way it can end.
pub open spec fn turn_outcome(
    before: GameView,
    rules: GameRules,
    end: Result<TurnEnd, PlayError>,
    after: GameView,
) -> bool {
    match end {
        Ok(TurnEnd::Victory) => {
            &&& in_turn(before.drawn(), after)
            &&& victorious(after, rules)
            &&& victorious(before.drawn(), rules) ==> after == before.drawn()
        },
        Ok(TurnEnd::Passed) => !victorious(before.drawn(), rules) && exists|last: GameView|
            {
                &&& in_turn(before.drawn(), last)
                &&& last.proposals == Map::<PlayerId, Trade>::empty()
                &&& !victorious(last, rules)
                &&& #[trigger] last.lead_passed() == after
            },
        Err(error) => {
            &&& in_turn(before.drawn(), after)
            &&& !victorious(before.drawn(), rules)
            &&& !victorious(after, rules)
            &&& error == PlayError::RoundLimit <==> after.current_round == i32::MAX
            &&& error == PlayError::StrayProposal <==> after.current_round < i32::MAX
                && !after.proposals_seated()
        },
    }
}

/// What a turn makes of a state when none of the players ever trades: the
/// lead draws, and wins or passes on.
pub open spec fn quiet_turn(before: GameView, rules: GameRules) -> (TurnEnd, GameView) {
    if victorious(before.drawn(), rules) {
        (TurnEnd::Victory, before.drawn())
    } else {
        (TurnEnd::Passed, with_proposals(before.drawn(), Map::empty()).lead_passed())
    }
}

/// Whether each position but the last becomes the next by a round that
/// settles: a position is a state with the players as they then are.
pub open spec fn rounds_chained<S: PlayerStrategy>(
    rules: GameRules,
    trace: Seq<(GameView, Seq<S>)>,
) -> bool {
    forall|i: int|
        0 <= i < trace.len() - 1 ==> round_played(
            (#[trigger] trace[i]).0,
            rules,
            trace[i].1,
            Ok(RoundEnd::Settled),
            trace[i + 1].0,
            trace[i + 1].1,
        )
}

/// Whether a turn went by these positions: the first is the state after the
/// lead's draw, each becomes the next by a round that settles, and the round
/// played from the last one ends the turn: with the lead's victory, with the
/// lead's silence, after which the lead passes on, or with a fault.
pub open spec fn turn_went<S: PlayerStrategy>(
    before_game: GameView,
    rules: GameRules,
    before: Seq<S>,
    trace: Seq<(GameView, Seq<S>)>,
    end: Result<TurnEnd, PlayError>,
    after_game: GameView,
    after: Seq<S>,
) -> bool {
    let last = trace.last();
    &&& trace.len() >= 1
    &&& trace[0] == (before_game.drawn(), before)
    &&& rounds_chained(rules, trace)
    &&& match end {
        Ok(TurnEnd::Victory) => round_played(
            last.0,
            rules,
            last.1,
            Ok(RoundEnd::Victory),
            after_game,
            after,
        ),
        Ok(TurnEnd::Passed) => {
            let silent = with_proposals(last.0, Map::empty());
            &&& round_played(last.0, rules, last.1, Ok(RoundEnd::Silence), silent, after)
            &&& after_game == silent.lead_passed()
        },
        Err(error) => round_played(last.0, rules, last.1, Err(error), after_game, after),
    }
}

/// What a turn is, whoever plays: the lead draws, and rounds are played one
/// after the other, as `turn_went` tells of some positions.
pub open spec fn turn_played<S: PlayerStrategy>(
    before_game: GameView,
    rules: GameRules,
    before: Seq<S>,
    end: Result<TurnEnd, PlayError>,
    after_game: GameView,
    after: Seq<S>,
) -> bool {
    exists|trace: Seq<(GameView, Seq<S>)>| #[trigger]
        turn_went(before_game, rules, before, trace, end, after_game, after)
}

/// Plays one turn: the lead draws, then rounds are played until the lead has
/// won or has nothing more to offer; in the latter case the lead passes on.
pub fn play_turn<S: PlayerStrategy, O: RoundObserver>(
    rules: &GameRules,
    game: &mut GameState,
    players: &mut Vec<S>,
    observer: &mut O,
) -> (end: Result<TurnEnd, PlayError>)
    requires
        old(game)@.well_formed(),
        old(game).deck.len() > 0,
        old(game).current_turn < i32::MAX,
        old(players).len() == old(game).players.len(),
    ensures
        turn_played(old(game)@, *rules, old(players)@, end, final(game)@, final(players)@),
        turn_outcome(old(game)@, *rules, end, final(game)@),
        final(players).len() == old(players).len(),
        final(game).players.len() == old(game).players.len(),
        final(game)@.well_formed(),
        forall|c: Category| final(game)@.supply(c) == old(game)@.supply(c),
        victorious(old(game)@.drawn(), *rules) ==> end == Ok::<TurnEnd, PlayError>(
            TurnEnd::Victory,
        ) && final(game)@ == old(game)@.drawn() && final(players)@ == old(players)@,
        all_never_trade(old(players)@) ==> all_never_trade(final(players)@),
        all_never_trade(old(players)@) && old(game).current_round < i32::MAX ==> (end matches Ok(
            ended,
        ) && (ended, final(game)@) == quiet_turn(old(game)@, *rules)),
{
    let ghost quiet = all_never_trade(players@) && game.current_round < i32::MAX;
    game.start_lead_turn();
    let ghost start = game@;
    let ghost mut first = true;
    let ghost mut trace: Seq<(GameView, Seq<S>)> = seq![(start, players@)];
    assert(start.current_trades.skip(start.current_trades.len() as int) =~= Seq::<Trade>::empty());
    assert(start.current_trades + Seq::<Trade>::empty() =~= start.current_trades);
    loop
        invariant
            trace.len() >= 1,
            trace[0] == (start, old(players)@),
            trace.last() == (game@, players@),
            rounds_chained(*rules, trace),
            start == old(game)@.drawn(),
            in_turn(start, game@),
            game@.well_formed(),
            game.current_turn < i32::MAX,
            players.len() == game.players.len(),
            players.len() == old(players).len(),
            game.players.len() == old(game).players.len(),
            forall|c: Category| game@.supply(c) == old(game)@.supply(c),
            first ==> game@ == start && players@ == old(players)@,
            !first ==> !victorious(start, *rules),
            all_never_trade(old(players)@) ==> all_never_trade(players@),
            quiet == (all_never_trade(old(players)@) && old(game).current_round < i32::MAX),
            quiet ==> game.current_round < i32::MAX && game@ == (GameView {
                current_round: game@.current_round,
                proposals: game@.proposals,
                ..start
            }),
        decreases i32::MAX - game.current_round,
    {
        let ghost before = game@;
        let round = play_round(rules, game, players, observer);
        proof {
            lemma_round_in_turn(start, before, *rules, round, game@);
            first = false;
        }
        match round {
            Ok(RoundEnd::Victory) => {
                assert(turn_went(
                    old(game)@,
                    *rules,
                    old(players)@,
                    trace,
                    Ok(TurnEnd::Victory),
                    game@,
                    players@,
                ));
                return Ok(TurnEnd::Victory);
            },
            Ok(RoundEnd::Silence) => {
                let ghost last = game@;
                game.end_lead_turn();
                assert(last.lead_passed() == game@);
                assert(last == with_proposals(before, Map::empty()));
                assert(turn_went(
                    old(game)@,
                    *rules,
                    old(players)@,
                    trace,
                    Ok(TurnEnd::Passed),
                    game@,
                    players@,
                ));
                return Ok(TurnEnd::Passed);
            },
            Ok(RoundEnd::Settled) => {
                proof {
                    let longer = trace.push((game@, players@));
                    assert forall|i: int| 0 <= i < longer.len() - 1 implies round_played(
                        (#[trigger] longer[i]).0,
                        *rules,
                        longer[i].1,
                        Ok(RoundEnd::Settled),
                        longer[i + 1].0,
                        longer[i + 1].1,
                    ) by {
                        if i < trace.len() - 1 {
                            assert(longer[i] == trace[i]);
                            assert(longer[i + 1] == trace[i + 1]);
                        } else {
                            assert(longer[i] == trace.last());
                        }
                    }
                    trace = longer;
                }
            },
            Err(error) => {
                assert(turn_went(
                    old(game)@,
                    *rules,
                    old(players)@,
                    trace,
                    Err(error),
                    game@,
                    players@,
                ));
                return Err(error);
            },
        }
    }
}

/// Whether the state stands at the start of a turn: no round has been played,
/// nothing is offered and nothing has been traded.
pub open spec fn at_turn_start(game: GameView) -> bool {
    &&& game.current_round == 0
    &&& game.proposals == Map::<PlayerId, Trade>::empty()
    &&& game.current_trades == Seq::<Trade>::empty()
}

/// What holds between the state a game was started in and every state it
/// reaches: the same players with the same preferences sit at the table, the
/// supply of every category is what it was, the lead has moved on by one seat
/// for each turn that passed, the deck has lost cards from its end only, and
/// the record of the turns outside those played since is untouched.
pub open spec fn in_game(start: GameView, now: GameView) -> bool {
    let passed = now.current_turn - start.current_turn;
    &&& now.well_formed()
    &&& passed >= 0
    &&& now.players.len() == start.players.len()
    &&& forall|i: int|
        0 <= i < start.players.len() ==> (#[trigger] now.players[i]).preferences
            == start.players[i].preferences
    &&& forall|c: Category| #[trigger] now.supply(c) == start.supply(c)
    &&& now.lead == (start.lead + passed) % (start.players.len() as int)
    &&& now.deck.len() <= start.deck.len()
    &&& now.deck == start.deck.take(now.deck.len() as int)
    &&& forall|turn: i32|
        !(start.current_turn <= turn < now.current_turn) ==> (#[trigger] now.past_trades.contains_key(
            turn,
        ) == start.past_trades.contains_key(turn) && (start.past_trades.contains_key(turn)
            ==> now.past_trades[turn] == start.past_trades[turn]))
}

/// What a game makes of a state, for each way it can end or fail. A card is
/// drawn for every turn that passed, and one more for a turn that was cut
/// short. Where the game started with a blank record, the holdings are what
/// the draws and the recorded trades make of the start.
pub open spec fn game_outcome(
    before: GameView,
    rules: GameRules,
    end: Result<GameEnd, PlayError>,
    after: GameView,
) -> bool {
    let passed = after.current_turn - before.current_turn;
    let drawn = before.deck.len() - after.deck.len();
    &&& in_game(before, after)
    &&& record_is_blank(before) ==> follows_record(before, after) && no_win_passed(
        before,
        after.past_trades,
        passed as nat,
        rules,
    )
    &&& before.current_turn < rules.max_turns && before.deck.len() > 0 && victorious(
        before.drawn(),
        rules,
    ) ==> end == Ok::<GameEnd, PlayError>(GameEnd::Victory) && after == before.drawn()
    &&& passed == 0 || at_turn_start(after) || drawn == passed + 1
    &&& match end {
        Ok(GameEnd::Victory) => {
            &&& victorious(after, rules)
            &&& after.current_turn < rules.max_turns
            &&& drawn == passed + 1
        },
        Ok(GameEnd::MaxTurnsReached) => {
            &&& after.current_turn >= rules.max_turns
            &&& drawn == passed
            &&& passed > 0 ==> after.current_turn == rules.max_turns
            &&& passed == 0 ==> after == before
        },
        Ok(GameEnd::DeckExhausted) => {
            &&& after.current_turn < rules.max_turns
            &&& after.deck.len() == 0
            &&& drawn == passed
            &&& passed == 0 ==> after == before
        },
        Err(error) => {
            &&& !victorious(after, rules)
            &&& after.current_turn < rules.max_turns
            &&& drawn == passed + 1
            &&& error == PlayError::RoundLimit <==> after.current_round == i32::MAX
            &&& error == PlayError::StrayProposal <==> after.current_round < i32::MAX
                && !after.proposals_seated()
        },
    }
}

/// What a game makes of a state when none of the players ever trades: turn
/// after turn the lead draws, and wins or passes on.
pub open spec fn quiet_game(game: GameView, rules: GameRules) -> (GameEnd, GameView)
    decreases game.deck.len(),
{
    if game.current_turn >= rules.max_turns {
        (GameEnd::MaxTurnsReached, game)
    } else if game.deck.len() == 0 {
        (GameEnd::DeckExhausted, game)
    } else if victorious(game.drawn(), rules) {
        (GameEnd::Victory, game.drawn())
    } else {
        quiet_game(with_proposals(game.drawn(), Map::empty()).lead_passed(), rules)
    }
}

/// A game in which nobody ever trades puts nothing on record: if nothing
/// had been traded on the turn it starts in, the record of the past turns
/// stays as it was, and nothing is traded when it ends.
pub proof fn lemma_quiet_game_trades_nothing(game: GameView, rules: GameRules)
    requires
        game.current_trades.len() == 0,
    ensures
        quiet_game(game, rules).1.past_trades == game.past_trades,
        quiet_game(game, rules).1.current_trades.len() == 0,
    decreases game.deck.len(),
{
    if game.current_turn < rules.max_turns && game.deck.len() > 0 && !victorious(
        game.drawn(),
        rules,
    ) {
        lemma_quiet_game_trades_nothing(
            with_proposals(game.drawn(), Map::empty()).lead_passed(),
            rules,
        );
    }
}

/// Whether the record of a game that starts here will be the game's own:
/// nothing has been traded on the turn, and nothing is on file for this turn
/// or a later one.
pub open spec fn record_is_blank(game: GameView) -> bool {
    &&& game.current_trades.len() == 0
    &&& forall|turn: i32|
        turn >= game.current_turn ==> !(#[trigger] game.past_trades.contains_key(turn))
}

/// The trades on file for a turn.
pub open spec fn on_file(history: Map<i32, Seq<Trade>>, turn: int) -> Seq<Trade> {
    if i32::MIN <= turn <= i32::MAX && history.contains_key(turn as i32) {
        history[turn as i32]
    } else {
        Seq::empty()
    }
}

/// The table after the draw of the turn that comes `turns` turns after the
/// start: the lead of that turn gets the card that is then last in the deck.
pub open spec fn drawn_at(start: GameView, players: Seq<PlayerState>, turns: nat) -> Seq<
    PlayerState,
> {
    let lead = (start.lead + turns) % (start.players.len() as int);
    let card = start.deck[start.deck.len() - 1 - turns];
    players.update(lead, players[lead].gave(card.category, -1))
}

/// The table after `turns` turns from the start, as the record tells it: on
/// each turn the lead draws, and then the trades on file for the turn are
/// settled in their order.
pub open spec fn replayed(start: GameView, history: Map<i32, Seq<Trade>>, turns: nat) -> Option<
    Seq<PlayerState>,
>
    decreases turns,
{
    if turns == 0 {
        Some(start.players)
    } else {
        match replayed(start, history, (turns - 1) as nat) {
            Some(players) => settle_all(
                drawn_at(start, players, (turns - 1) as nat),
                on_file(history, start.current_turn + turns - 1),
            ),
            None => None,
        }
    }
}

/// Whether the holdings are what the draws and the recorded trades make of
/// the start: the turns that passed are replayed from the record, and where
/// a turn was cut short, its draw and its trades so far come on top.
pub open spec fn follows_record(start: GameView, now: GameView) -> bool {
    let passed = (now.current_turn - start.current_turn) as nat;
    match replayed(start, now.past_trades, passed) {
        Some(players) => if start.deck.len() - now.deck.len() == passed {
            now.players == players
        } else {
            settle_all(drawn_at(start, players, passed), now.current_trades) == Some(
                now.players,
            )
        },
        None => false,
    }
}

/// Whether, as the record tells it, on none of the `turns` turns after the
/// start the lead had met the victory threshold, neither after its draw nor
/// when it passed on.
pub open spec fn no_win_passed(
    start: GameView,
    history: Map<i32, Seq<Trade>>,
    turns: nat,
    rules: GameRules,
) -> bool
    decreases turns,
{
    if turns == 0 {
        true
    } else {
        let earlier = (turns - 1) as nat;
        let lead = (start.lead + earlier) % (start.players.len() as int);
        &&& no_win_passed(start, history, earlier, rules)
        &&& replayed(start, history, earlier) is Some
        &&& drawn_at(start, replayed(start, history, earlier).unwrap(), earlier)[lead].points()
            < rules.victory_threshold
        &&& replayed(start, history, turns) is Some
        &&& replayed(start, history, turns).unwrap()[lead].points() < rules.victory_threshold
    }
}

/// Records that agree on the turns that are replayed tell the same of the
/// leads.
pub proof fn lemma_no_win_agrees(
    start: GameView,
    history: Map<i32, Seq<Trade>>,
    other: Map<i32, Seq<Trade>>,
    turns: nat,
    rules: GameRules,
)
    requires
        forall|turn: int|
            start.current_turn <= turn < start.current_turn + turns ==> #[trigger] on_file(
                history,
                turn,
            ) == on_file(other, turn),
    ensures
        no_win_passed(start, history, turns, rules) == no_win_passed(start, other, turns, rules),
    decreases turns,
{
    if turns > 0 {
        lemma_no_win_agrees(start, history, other, (turns - 1) as nat, rules);
        lemma_replayed_agrees(start, history, other, (turns - 1) as nat);
        lemma_replayed_agrees(start, history, other, turns);
    }
}

/// Records that agree on the turns that are replayed give the same table.
pub proof fn lemma_replayed_agrees(
    start: GameView,
    history: Map<i32, Seq<Trade>>,
    other: Map<i32, Seq<Trade>>,
    turns: nat,
)
    requires
        forall|turn: int|
            start.current_turn <= turn < start.current_turn + turns ==> #[trigger] on_file(
                history,
                turn,
            ) == on_file(other, turn),
    ensures
        replayed(start, history, turns) == replayed(start, other, turns),
    decreases turns,
{
    if turns > 0 {
        lemma_replayed_agrees(start, history, other, (turns - 1) as nat);
        assert(on_file(history, start.current_turn + turns - 1) == on_file(
            other,
            start.current_turn + turns - 1,
        ));
    }
}

/// What a turn that starts with nothing traded puts on record: the trades
/// that, settled after the draw, give the holdings it ends with.
pub proof fn lemma_turn_record(
    before: GameView,
    rules: GameRules,
    end: Result<TurnEnd, PlayError>,
    after: GameView,
)
    requires
        before.well_formed(),
        before.deck.len() > 0,
        before.current_turn < i32::MAX,
        record_is_blank(before),
        turn_outcome(before, rules, end, after),
    ensures
        end == Ok::<TurnEnd, PlayError>(TurnEnd::Passed) ==> settle_all(
            before.drawn().players,
            on_file(after.past_trades, before.current_turn as int),
        ) == Some(after.players) && record_is_blank(after) && !victorious(before.drawn(), rules)
            && after.players[before.lead as int].points() < rules.victory_threshold,
        end != Ok::<TurnEnd, PlayError>(TurnEnd::Passed) ==> settle_all(
            before.drawn().players,
            after.current_trades,
        ) == Some(after.players),
{
    let start = before.drawn();
    let last = if end == Ok::<TurnEnd, PlayError>(TurnEnd::Passed) {
        choose|last: GameView|
            {
                &&& in_turn(start, last)
                &&& last.proposals == Map::<PlayerId, Trade>::empty()
                &&& !victorious(last, rules)
                &&& #[trigger] last.lead_passed() == after
            }
    } else {
        after
    };
    assert(in_turn(start, last));
    let traded = last.current_trades.skip(start.current_trades.len() as int);
    assert(traded =~= last.current_trades);
    assert(!before.past_trades.contains_key(before.current_turn));
    if end == Ok::<TurnEnd, PlayError>(TurnEnd::Passed) {
        if traded.len() == 0 {
            assert(traded =~= Seq::<Trade>::empty());
        }
        assert forall|turn: i32| turn >= after.current_turn implies !(
        #[trigger] after.past_trades.contains_key(turn)) by {
            assert(!before.past_trades.contains_key(turn));
        }
    }
}

/// The record determines the holdings: two games from the same start with a
/// blank record that took as many turns, drew as many cards and recorded the
/// same trades have left every player with the same goods.
pub proof fn lemma_record_determines_holdings(start: GameView, one: GameView, other: GameView)
    requires
        follows_record(start, one),
        follows_record(start, other),
        one.current_turn == other.current_turn,
        one.deck.len() == other.deck.len(),
        one.past_trades == other.past_trades,
        one.current_trades == other.current_trades,
    ensures
        one.players == other.players,
{
}

/// What a turn leaves as it was, and what it moves.
pub proof fn lemma_turn_outcome(
    before: GameView,
    rules: GameRules,
    end: Result<TurnEnd, PlayError>,
    after: GameView,
)
    requires
        before.well_formed(),
        before.deck.len() > 0,
        before.current_turn < i32::MAX,
        turn_outcome(before, rules, end, after),
    ensures
        after.players.len() == before.players.len(),
        forall|i: int|
            0 <= i < before.players.len() ==> (#[trigger] after.players[i]).preferences
                == before.players[i].preferences,
        after.deck == before.deck.drop_last(),
        end == Ok::<TurnEnd, PlayError>(TurnEnd::Passed) ==> {
            &&& at_turn_start(after)
            &&& after.current_turn == before.current_turn + 1
            &&& after.lead == (before.lead + 1) % (before.players.len() as int)
            &&& forall|turn: i32|
                turn != before.current_turn ==> (#[trigger] after.past_trades.contains_key(turn)
                    == before.past_trades.contains_key(turn) && (before.past_trades.contains_key(
                    turn,
                ) ==> after.past_trades[turn] == before.past_trades[turn]))
        },
        end != Ok::<TurnEnd, PlayError>(TurnEnd::Passed) ==> {
            &&& after.current_turn == before.current_turn
            &&& after.lead == before.lead
            &&& after.past_trades == before.past_trades
        },
{
    let start = before.drawn();
    crate::game::lemma_drawn_conserves(before);
    let last = if end == Ok::<TurnEnd, PlayError>(TurnEnd::Passed) {
        choose|last: GameView|
            {
                &&& in_turn(start, last)
                &&& last.proposals == Map::<PlayerId, Trade>::empty()
                &&& !victorious(last, rules)
                &&& #[trigger] last.lead_passed() == after
            }
    } else {
        after
    };
    assert(in_turn(start, last));
    let traded = last.current_trades.skip(start.current_trades.len() as int);
    lemma_settle_all_conserves(start.players, traded);
    assert forall|i: int| 0 <= i < before.players.len() implies (
    #[trigger] after.players[i]).preferences == before.players[i].preferences by {
        assert(last.players[i].preferences == start.players[i].preferences);
    }
}

/// A turn keeps the game within what holds of it from its start.
#[verifier::spinoff_prover]
pub proof fn lemma_turn_in_game(
    start: GameView,
    before: GameView,
    rules: GameRules,
    turn: Result<TurnEnd, PlayError>,
    after: GameView,
)
    requires
        in_game(start, before),
        before.deck.len() > 0,
        before.current_turn < i32::MAX,
        turn_outcome(before, rules, turn, after),
        after.well_formed(),
        forall|c: Category| after.supply(c) == before.supply(c),
    ensures
        in_game(start, after),
        after.deck.len() == before.deck.len() - 1,
        turn == Ok::<TurnEnd, PlayError>(TurnEnd::Passed) ==> at_turn_start(after)
            && after.current_turn == before.current_turn + 1,
        turn != Ok::<TurnEnd, PlayError>(TurnEnd::Passed) ==> after.current_turn
            == before.current_turn,
{
    let seats = start.players.len() as int;
    let passed = before.current_turn - start.current_turn;
    lemma_turn_outcome(before, rules, turn, after);
    assert(after.deck =~= start.deck.take(after.deck.len() as int));
    assert forall|c: Category| #[trigger] after.supply(c) == start.supply(c) by {
        assert(before.supply(c) == start.supply(c));
    }
    assert forall|i: int| 0 <= i < seats implies (#[trigger] after.players[i]).preferences
        == start.players[i].preferences by {
        assert(before.players[i].preferences == start.players[i].preferences);
    }
    if turn == Ok::<TurnEnd, PlayError>(TurnEnd::Passed) {
        vstd::arithmetic::div_mod::lemma_add_mod_noop(start.lead + passed, 1, seats);
        vstd::arithmetic::div_mod::lemma_mod_twice(start.lead + passed, seats);
        if seats == 1 {
            assert(after.lead == 0);
        } else {
            vstd::arithmetic::div_mod::lemma_small_mod(1, seats as nat);
        }
    }
    assert forall|t: i32| !(start.current_turn <= t < after.current_turn) implies (
    #[trigger] after.past_trades.contains_key(t) == start.past_trades.contains_key(t) && (
    start.past_trades.contains_key(t) ==> after.past_trades[t] == start.past_trades[t])) by {
        assert(before.past_trades.contains_key(t) == start.past_trades.contains_key(t));
    }
    assert(after.current_turn - start.current_turn >= 0);
    assert(after.players.len() == start.players.len());
    assert(after.lead == (start.lead + (after.current_turn - start.current_turn)) % seats);
    assert(after.deck.len() <= start.deck.len());
    assert(after.deck == start.deck.take(after.deck.len() as int));
    assert(forall|i: int|
        0 <= i < start.players.len() ==> (#[trigger] after.players[i]).preferences
            == start.players[i].preferences);
    assert(forall|c: Category| #[trigger] after.supply(c) == start.supply(c));
    assert(forall|turn: i32|
        !(start.current_turn <= turn < after.current_turn) ==> (
        #[trigger] after.past_trades.contains_key(turn) == start.past_trades.contains_key(turn) && (
        start.past_trades.contains_key(turn) ==> after.past_trades[turn]
            == start.past_trades[turn])));
    assert(in_game(start, after));
}

/// A turn of a game that began with a blank record adds its own to the
/// record, and the record goes on telling the holdings.
pub proof fn lemma_turn_on_record(
    start: GameView,
    before: GameView,
    rules: GameRules,
    turn: Result<TurnEnd, PlayError>,
    after: GameView,
)
    requires
        in_game(start, before),
        before.deck.len() > 0,
        before.current_turn < i32::MAX,
        start.deck.len() - before.deck.len() == before.current_turn - start.current_turn,
        turn_outcome(before, rules, turn, after),
        record_is_blank(start),
        record_is_blank(before),
        replayed(start, before.past_trades, (before.current_turn - start.current_turn) as nat)
            == Some(before.players),
        no_win_passed(
            start,
            before.past_trades,
            (before.current_turn - start.current_turn) as nat,
            rules,
        ),
    ensures
        no_win_passed(
            start,
            after.past_trades,
            (after.current_turn - start.current_turn) as nat,
            rules,
        ),
        follows_record(start, after),
        turn == Ok::<TurnEnd, PlayError>(TurnEnd::Passed) ==> record_is_blank(after) && replayed(
            start,
            after.past_trades,
            (after.current_turn - start.current_turn) as nat,
        ) == Some(after.players),
{
    let passed = before.current_turn - start.current_turn;
    lemma_turn_outcome(before, rules, turn, after);
    lemma_turn_record(before, rules, turn, after);
    assert(before.deck.last() == start.deck[start.deck.len() - 1 - passed]);
    assert(before.drawn().players == drawn_at(start, before.players, passed as nat));
    assert forall|t: int|
        start.current_turn <= t < start.current_turn + passed implies #[trigger] on_file(
        after.past_trades,
        t,
    ) == on_file(before.past_trades, t) by {
        assert(after.past_trades.contains_key(t as i32) == before.past_trades.contains_key(
            t as i32,
        ));
    }
    lemma_replayed_agrees(start, after.past_trades, before.past_trades, passed as nat);
    lemma_no_win_agrees(start, after.past_trades, before.past_trades, passed as nat, rules);
}

/// Whether each position but the last becomes the next by a turn at whose
/// end the lead passes on, begun below the turn limit with a card to draw.
pub open spec fn turns_chained<S: PlayerStrategy>(
    rules: GameRules,
    trace: Seq<(GameView, Seq<S>)>,
) -> bool {
    forall|i: int|
        0 <= i < trace.len() - 1 ==> (#[trigger] trace[i]).0.current_turn < rules.max_turns
            && trace[i].0.deck.len() > 0 && turn_played(
            trace[i].0,
            rules,
            trace[i].1,
            Ok(TurnEnd::Passed),
            trace[i + 1].0,
            trace[i + 1].1,
        )
}

/// Whether a game went by these positions: the first is the start, each
/// becomes the next by a turn at whose end the lead passes on, and from the
/// last one the game ends: at once, where the turn limit is reached or no
/// card is left, or by a turn that the lead wins or a fault cuts short.
pub open spec fn game_went<S: PlayerStrategy>(
    before_game: GameView,
    rules: GameRules,
    before: Seq<S>,
    trace: Seq<(GameView, Seq<S>)>,
    end: Result<GameEnd, PlayError>,
    after_game: GameView,
    after: Seq<S>,
) -> bool {
    let last = trace.last();
    let can_go_on = last.0.current_turn < rules.max_turns && last.0.deck.len() > 0;
    &&& trace.len() >= 1
    &&& trace[0] == (before_game, before)
    &&& turns_chained(rules, trace)
    &&& match end {
        Ok(GameEnd::Victory) => can_go_on && turn_played(
            last.0,
            rules,
            last.1,
            Ok(TurnEnd::Victory),
            after_game,
            after,
        ),
        Ok(GameEnd::MaxTurnsReached) => last.0.current_turn >= rules.max_turns && (
            after_game,
            after,
        ) == last,
        Ok(GameEnd::DeckExhausted) => last.0.current_turn < rules.max_turns && last.0.deck.len()
            == 0 && (after_game, after) == last,
        Err(error) => can_go_on && turn_played(
            last.0,
            rules,
            last.1,
            Err(error),
            after_game,
            after,
        ),
    }
}

/// What a game is, whoever plays: turn after turn, as `game_went` tells of
/// some positions. So no player is asked anything but in a round of a turn
/// of the game, and in no round that the lead has won when it begins.
pub open spec fn game_played<S: PlayerStrategy>(
    before_game: GameView,
    rules: GameRules,
    before: Seq<S>,
    end: Result<GameEnd, PlayError>,
    after_game: GameView,
    after: Seq<S>,
) -> bool {
    exists|trace: Seq<(GameView, Seq<S>)>| #[trigger]
        game_went(before_game, rules, before, trace, end, after_game, after)
}

/// Plays turns until the lead has won, the deck is empty or the turn counter
/// has reached the limit of the rules.
pub fn play_turns<S: PlayerStrategy, O: RoundObserver>(
    rules: &GameRules,
    game: &mut GameState,
    players: &mut Vec<S>,
    observer: &mut O,
) -> (end: Result<GameEnd, PlayError>)
    requires
        old(game)@.well_formed(),
        old(players).len() == old(game).players.len(),
    ensures
        game_played(old(game)@, *rules, old(players)@, end, final(game)@, final(players)@),
        game_outcome(old(game)@, *rules, end, final(game)@),
        old(game).current_turn >= rules.max_turns || old(game).deck.len() == 0 ==> end is Ok,
        final(players).len() == old(players).len(),
        old(game).current_turn < rules.max_turns && old(game).deck.len() > 0 && victorious(
            old(game)@.drawn(),
            *rules,
        ) ==> final(players)@ == old(players)@,
        all_never_trade(old(players)@) ==> all_never_trade(final(players)@),
        all_never_trade(old(players)@) && old(game).current_round < i32::MAX ==> (end matches Ok(
            ended,
        ) && (ended, final(game)@) == quiet_game(old(game)@, *rules)),
{
    let ghost quiet = all_never_trade(players@) && game.current_round < i32::MAX;
    let ghost mut trace: Seq<(GameView, Seq<S>)> = seq![(game@, players@)];
    proof {
        assert(old(game)@.deck.take(old(game)@.deck.len() as int) =~= old(game)@.deck);
        vstd::arithmetic::div_mod::lemma_small_mod(
            old(game).lead as nat,
            old(game)@.players.len(),
        );
    }
    while game.current_turn < rules.max_turns && game.deck.len() > 0
        invariant
            trace.len() >= 1,
            trace[0] == (old(game)@, old(players)@),
            trace.last() == (game@, players@),
            turns_chained(*rules, trace),
            in_game(old(game)@, game@),
            players.len() == game.players.len(),
            players.len() == old(players).len(),
            old(game).deck.len() - game.deck.len() == game.current_turn - old(game).current_turn,
            game.current_turn == old(game).current_turn ==> game@ == old(game)@,
            game.current_turn > old(game).current_turn ==> at_turn_start(game@)
                && game.current_turn <= rules.max_turns,
            record_is_blank(old(game)@) ==> record_is_blank(game@) && replayed(
                old(game)@,
                game@.past_trades,
                (game.current_turn - old(game).current_turn) as nat,
            ) == Some(game@.players) && no_win_passed(
                old(game)@,
                game@.past_trades,
                (game.current_turn - old(game).current_turn) as nat,
                *rules,
            ),
            game.current_turn == old(game).current_turn ==> players@ == old(players)@,
            game.current_turn > old(game).current_turn ==> !(old(game).current_turn
                < rules.max_turns && old(game).deck.len() > 0 && victorious(
                old(game)@.drawn(),
                *rules,
            )),
            all_never_trade(old(players)@) ==> all_never_trade(players@),
            quiet == (all_never_trade(old(players)@) && old(game).current_round < i32::MAX),
            quiet ==> game.current_round < i32::MAX && quiet_game(game@, *rules) == quiet_game(
                old(game)@,
                *rules,
            ),
        decreases game.deck.len(),
    {
        let ghost before = game@;
        let turn = play_turn(rules, game, players, observer);
        proof {
            lemma_turn_in_game(old(game)@, before, *rules, turn, game@);
            if record_is_blank(old(game)@) {
                lemma_turn_on_record(old(game)@, before, *rules, turn, game@);
            }
        }
        match turn {
            Ok(TurnEnd::Victory) => {
                assert(game_went(
                    old(game)@,
                    *rules,
                    old(players)@,
                    trace,
                    Ok(GameEnd::Victory),
                    game@,
                    players@,
                ));
                return Ok(GameEnd::Victory);
            },
            Ok(TurnEnd::Passed) => {
                proof {
                    let longer = trace.push((game@, players@));
                    assert forall|i: int| 0 <= i < longer.len() - 1 implies (
                    #[trigger] longer[i]).0.current_turn < rules.max_turns && longer[i].0.deck.len()
                        > 0 && turn_played(
                        longer[i].0,
                        *rules,
                        longer[i].1,
                        Ok(TurnEnd::Passed),
                        longer[i + 1].0,
                        longer[i + 1].1,
                    ) by {
                        if i < trace.len() - 1 {
                            assert(longer[i] == trace[i]);
                            assert(longer[i + 1] == trace[i + 1]);
                        } else {
                            assert(longer[i] == trace.last());
                        }
                    }
                    trace = longer;
                }
            },
            Err(error) => {
                assert(game_went(
                    old(game)@,
                    *rules,
                    old(players)@,
                    trace,
                    Err(error),
                    game@,
                    players@,
                ));
                return Err(error);
            },
        }
    }
    if game.current_turn >= rules.max_turns {
        assert(game_went(
            old(game)@,
            *rules,
            old(players)@,
            trace,
            Ok(GameEnd::MaxTurnsReached),
            game@,
            players@,
        ));
        Ok(GameEnd::MaxTurnsReached)
    } else {
        assert(game_went(
            old(game)@,
            *rules,
            old(players)@,
            trace,
            Ok(GameEnd::DeckExhausted),
            game@,
            players@,
        ));
        Ok(GameEnd::DeckExhausted)
    }
}

/// Plays a game to its end and says how it ended: the turns played, every
/// player's score, and the first seat among those with the highest score.
/// The players are to be as `init` or `reset` left them. A game that is
/// over when it starts, or that the lead wins with the first draw, ends
/// without a player being asked; a game of players who never trade ends as
/// `quiet_game` tells; and every game goes as `game_played` tells.
pub fn play<S: PlayerStrategy, O: RoundObserver>(
    rules: &GameRules,
    game: GameState,
    players: &mut Vec<S>,
    observer: &mut O,
) -> (outcome: Result<GameResult, PlayError>)
    requires
        game@.well_formed(),
        old(players).len() == game.players.len(),
        all_at_baseline(old(players)@),
    ensures
        match outcome {
            Ok(result) => {
                &&& exists|end: GameEnd, last: GameView|
                    #[trigger] game_outcome(game@, *rules, Ok(end), last) && game_played(
                        game@,
                        *rules,
                        old(players)@,
                        Ok(end),
                        last,
                        final(players)@,
                    ) && result.is_snapshot_of(last)
                &&& result.scores@.len() == game.players.len()
                &&& result.winner < game.players.len()
                &&& game.current_turn <= result.turns
                &&& result.turns <= rules.max_turns || result.turns == game.current_turn
            },
            Err(error) => exists|last: GameView|
                #[trigger] game_outcome(game@, *rules, Err(error), last) && game_played(
                    game@,
                    *rules,
                    old(players)@,
                    Err(error),
                    last,
                    final(players)@,
                ),
        },
        game.current_turn >= rules.max_turns || game.deck.len() == 0 ==> (outcome matches Ok(
            result,
        ) && result.is_snapshot_of(game@)),
        game.current_turn < rules.max_turns && game.deck.len() > 0 && victorious(
            game@.drawn(),
            *rules,
        ) ==> (outcome matches Ok(result) && result.turns == game.current_turn
            && result.is_snapshot_of(game@.drawn()) && final(players)@ == old(players)@),
        all_never_trade(old(players)@) ==> all_never_trade(final(players)@),
        all_never_trade(old(players)@) && game.current_round < i32::MAX ==> (outcome matches Ok(
            result,
        ) && result.is_snapshot_of(quiet_game(game@, *rules).1)),
        final(players).len() == old(players).len(),
{
    let mut game = game;
    let ghost start = game@;
    match play_turns(rules, &mut game, players, observer) {
        Ok(end) => {
            let result = GameResult::from_state(&game);
            assert(game_outcome(start, *rules, Ok(end), game@));
            Ok(result)
        },
        Err(error) => {
            assert(game_outcome(start, *rules, Err(error), game@));
            Err(error)
        },
    }
}

} // verus!
