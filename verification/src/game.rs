//! The state of one game and the steps that advance it: the lead's draw, the
//! end of a round of trading, and the passing of the lead.

use vstd::prelude::*;
use vstd::set_lib::{lemma_len_subset, lemma_subset_equality};
use std::collections::HashMap;
use crate::ledger::{
    all_well_formed, held, in_deck, lemma_held_bounds_one, lemma_held_grows, lemma_held_update,
    lemma_in_deck_grows, lemma_settle_all_conserves, settle_all, PlayerState,
};
use crate::player::PlayerConfig;
use crate::types::{Category, Good, PlayerId, Trade};

verus! {

broadcast use vstd::std_specs::hash::group_hash_axioms;

/// The table of one game.
#[derive(Clone, Debug)]
pub struct GameState {
    /// The cards not yet drawn; the next one is drawn from the end.
    pub deck: Vec<Good>,
    /// The players, by seat.
    pub players: Vec<PlayerState>,
    /// It is this player's turn.
    pub lead: PlayerId,
    /// Starts at 0 and goes up by one each time the lead passes on.
    pub current_turn: i32,
    /// Starts at 0 on each turn and goes up by one each time a round of
    /// trading ends. The lead makes the offers on even rounds.
    pub current_round: i32,
    /// The offers of the round in progress, each under the seat of the player
    /// other than the lead that it concerns.
    pub current_trade_proposals: HashMap<PlayerId, Trade>,
    /// The trades settled so far on this turn, in the order they were settled.
    pub current_trades: Vec<Trade>,
    /// The trades of earlier turns, by turn. A turn without trades has no entry.
    pub past_trades: HashMap<i32, Vec<Trade>>,
}

/// What a `GameState` holds, as mathematical values.
pub struct GameView {
    pub deck: Seq<Good>,
    pub players: Seq<PlayerState>,
    pub lead: PlayerId,
    pub current_turn: i32,
    pub current_round: i32,
    pub proposals: Map<PlayerId, Trade>,
    pub current_trades: Seq<Trade>,
    pub past_trades: Map<i32, Seq<Trade>>,
}

impl View for GameState {
    type V = GameView;

    open spec fn view(&self) -> GameView {
        GameView {
            deck: self.deck@,
            players: self.players@,
            lead: self.lead,
            current_turn: self.current_turn,
            current_round: self.current_round,
            proposals: self.current_trade_proposals@,
            current_trades: self.current_trades@,
            past_trades: self.past_trades@.map_values(|trades: Vec<Trade>| trades@),
        }
    }
}

/// The seats below `seats` that an offer stands under.
pub open spec fn seated_below(proposals: Map<PlayerId, Trade>, seats: nat) -> Set<PlayerId> {
    proposals.dom().filter(|seat: PlayerId| seat < seats)
}

/// The offers made to or by the seats below `seats`, by ascending seat.
pub open spec fn offers_below(proposals: Map<PlayerId, Trade>, seats: nat) -> Seq<Trade>
    decreases seats,
{
    if seats == 0 {
        Seq::empty()
    } else {
        let earlier = offers_below(proposals, (seats - 1) as nat);
        if proposals.contains_key((seats - 1) as usize) {
            earlier.push(proposals[(seats - 1) as usize])
        } else {
            earlier
        }
    }
}

/// The offers that were accepted: offer `i` is, where `decisions` has a
/// position `i` and holds `true` there.
pub open spec fn accepted(offers: Seq<Trade>, decisions: Seq<bool>) -> Seq<Trade>
    decreases offers.len(),
{
    if offers.len() == 0 {
        Seq::empty()
    } else {
        let earlier = accepted(offers.drop_last(), decisions);
        if offers.len() <= decisions.len() && decisions[offers.len() - 1] {
            earlier.push(offers.last())
        } else {
            earlier
        }
    }
}

/// The table after the accepted offers of the seats below `seats` have been
/// settled by ascending seat, or `None` where one of them cannot be fulfilled
/// when its turn comes.
pub open spec fn settled_below(
    players: Seq<PlayerState>,
    proposals: Map<PlayerId, Trade>,
    decisions: Seq<bool>,
    seats: nat,
) -> Option<Seq<PlayerState>> {
    settle_all(players, accepted(offers_below(proposals, seats), decisions))
}

/// What one more seat adds to the offers, to the accepted ones and to the table.
pub proof fn lemma_next_seat(
    players: Seq<PlayerState>,
    proposals: Map<PlayerId, Trade>,
    decisions: Seq<bool>,
    seat: PlayerId,
)
    requires
        seat < usize::MAX,
    ensures
        ({
            let offers = offers_below(proposals, seat as nat);
            let taken = accepted(offers, decisions);
            let next_offers = offers_below(proposals, (seat + 1) as nat);
            let next_taken = accepted(next_offers, decisions);
            if !proposals.contains_key(seat) {
                next_offers == offers
            } else if offers.len() < decisions.len() && decisions[offers.len() as int] {
                &&& next_offers == offers.push(proposals[seat])
                &&& next_taken == taken.push(proposals[seat])
                &&& settled_below(players, proposals, decisions, (seat + 1) as nat) == (
                match settled_below(players, proposals, decisions, seat as nat) {
                    Some(before) => if proposals[seat].can_settle(before) {
                        Some(proposals[seat].settled(before))
                    } else {
                        None
                    },
                    None => None,
                })
            } else {
                &&& next_offers == offers.push(proposals[seat])
                &&& next_taken == taken
            }
        }),
{
    let offers = offers_below(proposals, seat as nat);
    let taken = accepted(offers, decisions);
    if proposals.contains_key(seat) {
        let next_offers = offers.push(proposals[seat]);
        assert(next_offers.drop_last() =~= offers);
        if offers.len() < decisions.len() && decisions[offers.len() as int] {
            assert(taken.push(proposals[seat]).drop_last() =~= taken);
        }
    }
}

/// Once an accepted offer cannot be fulfilled, the seats after it do not mend it.
pub proof fn lemma_unsettled_stays(
    players: Seq<PlayerState>,
    proposals: Map<PlayerId, Trade>,
    decisions: Seq<bool>,
    seat: PlayerId,
    seats: PlayerId,
)
    requires
        seat <= seats,
        settled_below(players, proposals, decisions, seat as nat) is None,
    ensures
        settled_below(players, proposals, decisions, seats as nat) is None,
    decreases seats - seat,
{
    if seat < seats {
        lemma_next_seat(players, proposals, decisions, seat);
        lemma_unsettled_stays(players, proposals, decisions, (seat + 1) as usize, seats);
    }
}

/// Settles, by ascending seat, the offers that were accepted, and records
/// them. Stops at the first that cannot be fulfilled, and says whether there
/// was none.
fn settle_round(
    players: &mut Vec<PlayerState>,
    proposals: &HashMap<PlayerId, Trade>,
    decisions: &Vec<bool>,
    record: &mut Vec<Trade>,
) -> (done: bool)
    requires
        all_well_formed(old(players)@),
        forall|c: Category| held(old(players)@, c) <= i64::MAX,
    ensures
        done == (settled_below(old(players)@, proposals@, decisions@, old(players)@.len())
            is Some),
        done ==> final(players)@ == settled_below(
            old(players)@,
            proposals@,
            decisions@,
            old(players)@.len(),
        ).unwrap(),
        done ==> final(record)@ == old(record)@ + accepted(
            offers_below(proposals@, old(players)@.len()),
            decisions@,
        ),
{
    let seats: usize = players.len();
    let mut seat: usize = 0;
    let mut position: usize = 0;
    while seat < seats
        invariant
            seat <= seats,
            seats == old(players)@.len(),
            players@.len() == seats,
            position == offers_below(proposals@, seat as nat).len(),
            position <= seat,
            settled_below(old(players)@, proposals@, decisions@, seat as nat) == Some(players@),
            record@ == old(record)@ + accepted(offers_below(proposals@, seat as nat), decisions@),
            all_well_formed(old(players)@),
            forall|c: Category| held(old(players)@, c) <= i64::MAX,
        decreases seats - seat,
    {
        proof {
            lemma_next_seat(old(players)@, proposals@, decisions@, seat);
            lemma_settle_all_conserves(
                old(players)@,
                accepted(offers_below(proposals@, seat as nat), decisions@),
            );
            assert forall|c: Category| held(players@, c) <= i64::MAX by {
                assert(held(players@, c) == held(old(players)@, c));
            }
        }
        match proposals.get(&seat) {
            Some(trade) => {
                if position < decisions.len() && decisions[position] {
                    if !trade.is_settleable(players) {
                        proof {
                            lemma_unsettled_stays(
                                old(players)@,
                                proposals@,
                                decisions@,
                                (seat + 1) as usize,
                                seats,
                            );
                        }
                        return false;
                    }
                    trade.settle(players);
                    record.push(*trade);
                    assert(record@ =~= old(record)@ + accepted(
                        offers_below(proposals@, (seat + 1) as nat),
                        decisions@,
                    ));
                }
                position = position + 1;
            },
            None => {},
        }
        seat = seat + 1;
    }
    true
}

impl GameView {
    /// How many units of `c` exist in the game: held by players or still in
    /// the deck.
    pub open spec fn supply(self, c: Category) -> int {
        held(self.players, c) + in_deck(self.deck, c)
    }

    /// The lead is at the table, the seats can be counted, no holding is
    /// negative, the supply of each category can be counted, and the counters
    /// have not run backwards.
    pub open spec fn well_formed(self) -> bool {
        &&& self.lead < self.players.len() <= usize::MAX
        &&& all_well_formed(self.players)
        &&& forall|c: Category| #![trigger held(self.players, c)] self.supply(c) <= i64::MAX
        &&& self.current_turn >= 0
        &&& self.current_round >= 0
    }

    /// Every offer stands under a seat at the table.
    pub open spec fn proposals_seated(self) -> bool {
        forall|seat: PlayerId| self.proposals.contains_key(seat) ==> seat < self.players.len()
    }

    /// The offers of the round in progress, by ascending seat.
    pub open spec fn offers(self) -> Seq<Trade> {
        offers_below(self.proposals, self.players.len())
    }

    /// The state after the lead has drawn the last card of the deck.
    pub open spec fn drawn(self) -> GameView {
        let card = self.deck.last();
        let lead = self.players[self.lead as int];
        GameView {
            deck: self.deck.drop_last(),
            players: self.players.update(self.lead as int, lead.gave(card.category, -1)),
            ..self
        }
    }

    /// Whether the round in progress can end with these answers: every
    /// accepted offer can be fulfilled when its turn comes.
    pub open spec fn can_end_round(self, decisions: Seq<bool>) -> bool {
        &&& self.well_formed()
        &&& self.proposals_seated()
        &&& self.current_round < i32::MAX
        &&& settle_all(self.players, accepted(self.offers(), decisions)) is Some
    }

    /// The state after the round in progress has ended with these answers:
    /// the accepted offers are settled by ascending seat and recorded, the
    /// others are dropped.
    pub open spec fn round_ended(self, decisions: Seq<bool>) -> GameView {
        let settled = accepted(self.offers(), decisions);
        GameView {
            players: settle_all(self.players, settled).unwrap(),
            current_round: (self.current_round + 1) as i32,
            proposals: Map::empty(),
            current_trades: self.current_trades + settled,
            ..self
        }
    }

    /// The state after the lead has passed to the next seat: the turn's
    /// trades, if any, are filed under the turn that ends.
    pub open spec fn lead_passed(self) -> GameView {
        GameView {
            lead: ((self.lead + 1) % (self.players.len() as int)) as usize,
            current_turn: (self.current_turn + 1) as i32,
            current_round: 0,
            current_trades: Seq::empty(),
            past_trades: if self.current_trades.len() > 0 {
                self.past_trades.insert(self.current_turn, self.current_trades)
            } else {
                self.past_trades
            },
            ..self
        }
    }
}

/// Drawing a card moves one unit from the deck to the lead.
pub proof fn lemma_drawn_conserves(game: GameView)
    requires
        game.well_formed(),
        game.deck.len() > 0,
    ensures
        game.drawn().well_formed(),
        forall|c: Category| game.drawn().supply(c) == game.supply(c),
{
    let card = game.deck.last();
    let lead = game.players[game.lead as int];
    let after = game.drawn();
    let holding = lead.num_goods.of(card.category);
    assert(lead.well_formed());
    assert(holding < i64::MAX) by {
        lemma_held_bounds_one(game.players, game.lead as int, card.category);
        assert(game.supply(card.category) <= i64::MAX);
        assert(in_deck(game.deck, card.category) >= 1);
    }
    lead.num_goods.lemma_with(card.category, (holding + 1) as i64);
    assert forall|c: Category| after.supply(c) == game.supply(c) by {
        lemma_held_update(game.players, game.lead as int, lead.gave(card.category, -1), c);
    }
    assert forall|i: int| 0 <= i < after.players.len() implies (
    #[trigger] after.players[i]).well_formed() by {
        if i != game.lead {
            assert(game.players[i].well_formed());
        }
    }
    assert forall|c: Category| after.supply(c) <= i64::MAX by {
        assert(game.supply(c) <= i64::MAX);
    }
}

/// Settlement creates and destroys nothing: when a round ends, the supply of
/// every category is what it was before, whatever was accepted, and no
/// holding has turned negative.
pub proof fn lemma_round_conserves(game: GameView, decisions: Seq<bool>)
    requires
        game.can_end_round(decisions),
    ensures
        game.round_ended(decisions).well_formed(),
        forall|c: Category| game.round_ended(decisions).supply(c) == game.supply(c),
        all_well_formed(game.round_ended(decisions).players),
{
    let after = game.round_ended(decisions);
    lemma_settle_all_conserves(game.players, accepted(game.offers(), decisions));
    assert forall|c: Category| after.supply(c) == game.supply(c) by {
        assert(held(after.players, c) == held(game.players, c));
    }
    assert forall|c: Category| #![trigger held(after.players, c)] after.supply(c) <= i64::MAX by {
        assert(held(after.players, c) == held(game.players, c));
    }
}

/// Passing the lead moves no goods.
pub proof fn lemma_lead_passed_conserves(game: GameView)
    requires
        game.well_formed(),
        game.current_turn < i32::MAX,
    ensures
        game.lead_passed().well_formed(),
        forall|c: Category| game.lead_passed().supply(c) == game.supply(c),
{
}

/// Whether `after` is what one step of the game makes of `before`: the lead
/// draws, offers are put on the table, a round ends, or the lead passes on.
pub open spec fn is_step(before: GameView, after: GameView) -> bool {
    ||| before.deck.len() > 0 && after == before.drawn()
    ||| after == GameView { proposals: after.proposals, ..before }
    ||| exists|decisions: Seq<bool>|
        before.can_end_round(decisions) && after == #[trigger] before.round_ended(decisions)
    ||| before.current_turn < i32::MAX && after == before.lead_passed()
}

/// The turn counter goes up, by one, on the steps on which the lead changes
/// and on no others; on those steps the round counter goes back to 0, and on
/// no others does it go down. (At a table of one the lead has nobody to pass
/// to and never changes, though the turns are counted.)
pub proof fn lemma_turn_bookkeeping(before: GameView, after: GameView)
    requires
        before.well_formed(),
        before.players.len() >= 2,
        is_step(before, after),
    ensures
        after.lead != before.lead <==> after.current_turn == before.current_turn + 1,
        after.lead != before.lead <==> after.current_turn != before.current_turn,
        after.lead != before.lead ==> after.current_round == 0,
        after.lead == before.lead ==> after.current_round >= before.current_round,
{
    let seats = before.players.len() as int;
    if before.current_turn < i32::MAX && after == before.lead_passed() {
        if before.lead + 1 < seats {
            vstd::arithmetic::div_mod::lemma_small_mod((before.lead + 1) as nat, seats as nat);
        } else {
            vstd::arithmetic::div_mod::lemma_mod_self_0(seats);
        }
    }
}

/// Every step of the game leaves the state well formed and the supply of
/// every category as it was.
pub proof fn lemma_step_conserves(before: GameView, after: GameView)
    requires
        before.well_formed(),
        is_step(before, after),
    ensures
        after.well_formed(),
        forall|c: Category| after.supply(c) == before.supply(c),
{
    if before.deck.len() > 0 && after == before.drawn() {
        lemma_drawn_conserves(before);
    } else if after == (GameView { proposals: after.proposals, ..before }) {
    } else if before.current_turn < i32::MAX && after == before.lead_passed() {
        lemma_lead_passed_conserves(before);
    } else {
        let decisions = choose|decisions: Seq<bool>|
            before.can_end_round(decisions) && after == #[trigger] before.round_ended(decisions);
        lemma_round_conserves(before, decisions);
    }
}

impl GameState {
    /// The player whose turn it is.
    pub fn lead_player_state(&self) -> (player: &PlayerState)
        requires
            self.lead < self.players.len(),
        ensures
            *player == self.players[self.lead as int],
    {
        &self.players[self.lead]
    }

    /// The player at a seat.
    pub fn player_state(&self, player_id: PlayerId) -> (player: &PlayerState)
        requires
            player_id < self.players.len(),
        ensures
            *player == self.players[player_id as int],
    {
        &self.players[player_id]
    }

    /// Whether the units of a category in the game, held and in the deck,
    /// can be counted.
    fn supply_is_countable(&self, c: Category) -> (r: bool)
        requires
            all_well_formed(self.players@),
        ensures
            r == (self@.supply(c) <= i64::MAX),
    {
        let mut counted: i64 = 0;
        let mut seat: usize = 0;
        assert(self.players@.take(0) =~= Seq::<PlayerState>::empty());
        while seat < self.players.len()
            invariant
                seat <= self.players.len(),
                all_well_formed(self.players@),
                0 <= counted == held(self.players@.take(seat as int), c),
            decreases self.players.len() - seat,
        {
            let holding: i64 = self.players[seat].num_goods.get(c);
            proof {
                assert(self.players@.take(seat + 1).drop_last() =~= self.players@.take(
                    seat as int,
                ));
                assert(self.players@.take(seat + 1).last() == self.players@[seat as int]);
                assert(self.players@[seat as int].well_formed());
                lemma_held_grows(self.players@, seat + 1, c);
            }
            if holding > i64::MAX - counted {
                return false;
            }
            counted = counted + holding;
            seat = seat + 1;
        }
        assert(self.players@.take(seat as int) =~= self.players@);
        let mut card: usize = 0;
        assert(self.deck@.take(0) =~= Seq::<Good>::empty());
        while card < self.deck.len()
            invariant
                card <= self.deck.len(),
                0 <= counted == held(self.players@, c) + in_deck(self.deck@.take(card as int), c),
            decreases self.deck.len() - card,
        {
            proof {
                assert(self.deck@.take(card + 1).drop_last() =~= self.deck@.take(card as int));
                assert(self.deck@.take(card + 1).last() == self.deck@[card as int]);
                lemma_in_deck_grows(self.deck@, card + 1, c);
            }
            if self.deck[card].category == c {
                if counted == i64::MAX {
                    return false;
                }
                counted = counted + 1;
            }
            card = card + 1;
        }
        assert(self.deck@.take(card as int) =~= self.deck@);
        true
    }

    /// Whether the state is well formed: whether the engine can play on from it.
    pub fn is_well_formed(&self) -> (r: bool)
        ensures
            r == self@.well_formed(),
    {
        if self.lead >= self.players.len() || self.current_turn < 0 || self.current_round < 0 {
            return false;
        }
        let mut seat: usize = 0;
        while seat < self.players.len()
            invariant
                seat <= self.players.len(),
                forall|i: int| 0 <= i < seat ==> (#[trigger] self.players@[i]).well_formed(),
            decreases self.players.len() - seat,
        {
            if !self.players[seat].is_well_formed() {
                return false;
            }
            seat = seat + 1;
        }
        let mut i: usize = 0;
        while i < 6
            invariant
                i <= 6,
                all_well_formed(self.players@),
                forall|j: int| 0 <= j < i ==> self@.supply(Category::at(j)) <= i64::MAX,
            decreases 6 - i,
        {
            if !self.supply_is_countable(Category::from_index(i)) {
                return false;
            }
            i = i + 1;
        }
        assert forall|c: Category| #![trigger held(self@.players, c)] self@.supply(c)
            <= i64::MAX by {
            assert(Category::at(c.ordinal()) == c);
        }
        true
    }

    /// The lead draws the last card of the deck.
    pub fn start_lead_turn(&mut self)
        requires
            old(self)@.well_formed(),
            old(self).deck.len() > 0,
        ensures
            final(self)@ == old(self)@.drawn(),
            final(self)@.well_formed(),
            forall|c: Category| final(self)@.supply(c) == old(self)@.supply(c),
    {
        proof {
            lemma_drawn_conserves(self@);
            lemma_held_bounds_one(self.players@, self.lead as int, self.deck@.last().category);
            assert(self@.supply(self.deck@.last().category) <= i64::MAX);
        }
        let card = self.deck.pop().unwrap();
        let mut lead = self.players[self.lead];
        let holding: i64 = lead.num_goods.get(card.category);
        lead.num_goods.set(card.category, holding + 1);
        self.players[self.lead] = lead;
        assert(self.past_trades@ == old(self).past_trades@);
    }

    /// Whether every offer stands under a seat at the table.
    pub fn proposals_are_seated(&self) -> (r: bool)
        ensures
            r == self@.proposals_seated(),
    {
        let proposals = &self.current_trade_proposals;
        let seats: usize = self.players.len();
        let mut seat: usize = 0;
        let mut found: usize = 0;
        assert(seated_below(proposals@, 0) =~= Set::<PlayerId>::empty());
        while seat < seats
            invariant
                seat <= seats,
                found <= seat,
                found == seated_below(proposals@, seat as nat).len(),
            decreases seats - seat,
        {
            proof {
                let below = seated_below(proposals@, seat as nat);
                let next = seated_below(proposals@, (seat + 1) as nat);
                lemma_len_subset(below, proposals@.dom());
                if proposals@.contains_key(seat) {
                    assert(next =~= below.insert(seat));
                } else {
                    assert(next =~= below);
                }
            }
            if proposals.contains_key(&seat) {
                found = found + 1;
            }
            seat = seat + 1;
        }
        proof {
            let below = seated_below(proposals@, seats as nat);
            lemma_len_subset(below, proposals@.dom());
            if found == proposals@.len() {
                lemma_subset_equality(below, proposals@.dom());
                assert forall|k: PlayerId| proposals@.contains_key(k) implies k < seats by {
                    assert(below.contains(k));
                }
            }
            if self@.proposals_seated() {
                assert forall|k: PlayerId| proposals@.dom().contains(k) implies below.contains(
                    k,
                ) by {
                    assert(self@.proposals.contains_key(k));
                    assert(k < self@.players.len());
                }
                assert(below =~= proposals@.dom());
            }
        }
        found == proposals.len()
    }

    /// Whether the round in progress can end with these answers: whether
    /// every accepted offer can be fulfilled when its turn comes.
    pub fn round_settles(&self, trade_acceptances: &Vec<bool>) -> (r: bool)
        requires
            self@.well_formed(),
        ensures
            r == (settle_all(self@.players, accepted(self@.offers(), trade_acceptances@))
                is Some),
    {
        let mut players: Vec<PlayerState> = self.players.clone();
        assert(players@ =~= self.players@);
        let mut record: Vec<Trade> = Vec::new();
        settle_round(&mut players, &self.current_trade_proposals, trade_acceptances, &mut record)
    }

    /// Ends the round in progress: settles the accepted offers by ascending
    /// seat, records them among the turn's trades and drops the others.
    /// Answer `i` belongs to the `i`-th offer by ascending seat; an offer
    /// without an answer is not accepted.
    pub fn end_round(&mut self, trade_acceptances: Vec<bool>)
        requires
            old(self)@.can_end_round(trade_acceptances@),
        ensures
            final(self)@ == old(self)@.round_ended(trade_acceptances@),
            final(self)@.well_formed(),
            final(self).players.len() == old(self).players.len(),
            forall|c: Category| final(self)@.supply(c) == old(self)@.supply(c),
    {
        let mut proposals: HashMap<PlayerId, Trade> = HashMap::new();
        core::mem::swap(&mut self.current_trade_proposals, &mut proposals);
        proof {
            lemma_settle_all_conserves(
                self.players@,
                accepted(old(self)@.offers(), trade_acceptances@),
            );
        }
        let done = settle_round(
            &mut self.players,
            &proposals,
            &trade_acceptances,
            &mut self.current_trades,
        );
        self.current_round += 1;
        proof {
            assert(self.past_trades@ == old(self).past_trades@);
            assert(self@.proposals =~= Map::<PlayerId, Trade>::empty());
            assert forall|c: Category| self@.supply(c) == old(self)@.supply(c) by {
                assert(held(self.players@, c) == held(old(self).players@, c));
            }
        }
    }

    /// The lead passes to the next seat.
    pub fn end_lead_turn(&mut self)
        requires
            old(self)@.well_formed(),
            old(self)@.proposals.len() == 0,
            old(self).current_turn < i32::MAX,
        ensures
            final(self)@ == old(self)@.lead_passed(),
            final(self)@.well_formed(),
            forall|c: Category| final(self)@.supply(c) == old(self)@.supply(c),
    {
        assert(self.lead < self.players.len());
        self.lead = (self.lead + 1) % self.players.len();
        if self.current_trades.len() > 0 {
            let mut trades: Vec<Trade> = Vec::new();
            core::mem::swap(&mut self.current_trades, &mut trades);
            self.past_trades.insert(self.current_turn, trades);
            assert(self@.past_trades =~= old(self)@.past_trades.insert(
                old(self).current_turn,
                old(self)@.current_trades,
            ));
        }
        self.current_turn += 1;
        self.current_round = 0;
        assert(self@.current_trades =~= Seq::<Trade>::empty());
    }
}

/// A state shows one outcome: two results that are snapshots of the same
/// state name the same turns, the same scores and the same winner.
pub proof fn lemma_snapshot_unique(game: GameView, one: GameResult, other: GameResult)
    requires
        one.is_snapshot_of(game),
        other.is_snapshot_of(game),
    ensures
        one.turns == other.turns,
        one.scores@ == other.scores@,
        one.winner == other.winner,
{
    assert(one.scores@ =~= other.scores@);
    if one.winner < other.winner {
        assert(other.scores@[one.winner as int] < other.scores@[other.winner as int]);
        assert(one.scores@[other.winner as int] <= one.scores@[one.winner as int]);
    } else if other.winner < one.winner {
        assert(one.scores@[other.winner as int] < one.scores@[one.winner as int]);
        assert(other.scores@[one.winner as int] <= other.scores@[other.winner as int]);
    }
}

/// The parameters of the game.
#[derive(Clone, Copy, Debug)]
pub struct GameRules {
    /// The lead wins on reaching this score.
    pub victory_threshold: i64,
    /// The money that every player starts with.
    pub start_money: i64,
    /// The number of cards asked for; the deck holds the largest multiple of
    /// five that is not above it.
    pub deck_size: usize,
    /// The game stops when this many turns have been played.
    pub max_turns: i32,
}

impl Default for GameRules {
    fn default() -> (rules: GameRules)
        ensures
            rules.victory_threshold == 50,
            rules.start_money == 10,
            rules.deck_size == 500,
            rules.max_turns == 1000,
    {
        GameRules { victory_threshold: 50, start_money: 10, deck_size: 500, max_turns: 1000 }
    }
}

/// The parameters of a series of games.
#[derive(Debug)]
pub struct SimConfig {
    /// Seeds the shuffle of the deck; 0 asks for a deck that no seed gives again.
    pub deck_shuffle_seed: u64,
    /// Seeds the dealing of preferences; 0 asks for preferences that no seed
    /// gives again.
    pub preferences_seed: u64,
    pub num_players: usize,
    pub num_runs: i32,
    /// The strategies of the first seats, in order.
    pub player_configs: Vec<PlayerConfig>,
    /// For those who watch: how long to wait before each round.
    pub turn_pause_millis: u64,
    /// For those who watch: whether to keep the state to oneself.
    pub hide_game_state: bool,
}

impl Default for SimConfig {
    fn default() -> (config: SimConfig)
        ensures
            config.deck_shuffle_seed == 0,
            config.preferences_seed == 1,
            config.num_players == 2,
            config.num_runs == 100,
            config.player_configs@.len() == 0,
            config.turn_pause_millis == 500,
            !config.hide_game_state,
    {
        SimConfig {
            deck_shuffle_seed: 0,
            preferences_seed: 1,
            num_players: 2,
            num_runs: 100,
            player_configs: Vec::new(),
            turn_pause_millis: 500,
            hide_game_state: false,
        }
    }
}

/// How a game ended.
#[derive(Clone, Debug)]
pub struct GameResult {
    /// The number of turns that were completed.
    pub turns: i32,
    /// The first seat among those with the highest score.
    pub winner: PlayerId,
    /// The score of each player, by seat.
    pub scores: Vec<i128>,
}

impl GameResult {
    /// Whether this is the outcome that the state shows: the turn counter,
    /// every player's score, and as winner the first seat that no other
    /// outscores.
    pub open spec fn is_snapshot_of(self, game: GameView) -> bool {
        &&& self.turns == game.current_turn
        &&& self.scores@.len() == game.players.len()
        &&& forall|i: int|
            0 <= i < game.players.len() ==> #[trigger] self.scores@[i] == game.players[i].points()
        &&& self.winner < game.players.len()
        &&& forall|i: int|
            0 <= i < game.players.len() ==> #[trigger] self.scores@[i]
                <= self.scores@[self.winner as int]
        &&& forall|i: int|
            0 <= i < self.winner ==> #[trigger] self.scores@[i] < self.scores@[self.winner as int]
    }

    /// The outcome that the state shows.
    pub fn from_state(game: &GameState) -> (result: GameResult)
        requires
            game.players.len() > 0,
        ensures
            result.is_snapshot_of(game@),
    {
        let mut scores: Vec<i128> = Vec::new();
        let mut winner: usize = 0;
        let mut seat: usize = 0;
        while seat < game.players.len()
            invariant
                seat <= game.players.len(),
                scores@.len() == seat,
                forall|i: int| 0 <= i < seat ==> #[trigger] scores@[i] == game.players[i].points(),
                seat == 0 ==> winner == 0,
                seat > 0 ==> winner < seat,
                forall|i: int| 0 <= i < seat ==> #[trigger] scores@[i] <= scores@[winner as int],
                forall|i: int| 0 <= i < winner ==> #[trigger] scores@[i] < scores@[winner as int],
            decreases game.players.len() - seat,
        {
            let score: i128 = game.players[seat].score();
            scores.push(score);
            if score > scores[winner] {
                winner = seat;
            }
            seat = seat + 1;
        }
        GameResult { turns: game.current_turn, winner, scores }
    }
}

} // verus!
