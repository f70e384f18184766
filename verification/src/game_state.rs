use vstd::prelude::*;
use vstd::multiset::Multiset;

use crate::card::{deck_mset, valid_card, Card, Color};
use crate::engine_error::EngineError;
use crate::player_game_state::PlayerGameState;
use crate::rng::{random_below, shuffle_cards};
use crate::shared_game_state::SharedGameState;
use crate::trick::{trick_cards_seq, Trick};
use crate::vec_util::{copy_vec, sub_vec};

verus! {

/// The authoritative, omniscient state of a match: all four hands, the
/// kitty, and the public match state.
#[derive(Debug)]
pub struct GameState {
    pub players_state: [PlayerGameState; 4],
    pub kitty: [Card; 6],
    pub shared_state: SharedGameState,
}

/// The number of cards still held, over all four seats.
pub open spec fn cards_in_hands(gs: GameState) -> int {
    gs.players_state@[0].hand@.len() as int + gs.players_state@[1].hand@.len() as int
        + gs.players_state@[2].hand@.len() as int + gs.players_state@[3].hand@.len() as int
}

/// The exact observable effect of one accepted play by seat `p`: the card
/// moves from that seat's hand into the trick record (finishing the trick
/// when it is the fourth), and everything else stays.
pub open spec fn spec_played_from(pre: GameState, post: GameState, p: int, c: Card) -> bool {
    &&& post.shared_state.used_mset() == pre.shared_state.used_mset().insert(c)
    &&& post.players_state@[p].hand@.to_multiset() == pre.players_state@[p].hand@.to_multiset()
        .remove(c)
    &&& forall|c2: Card|
        #[trigger] post.players_state@[p].hand@.contains(c2) <==> (
        pre.players_state@[p].hand@.contains(c2) && c2 != c)
    &&& forall|q: int|
        0 <= q < 4 && q != p ==> (#[trigger] post.players_state@[q]).hand@
            == pre.players_state@[q].hand@
    &&& post.kitty@ == pre.kitty@
    &&& post.shared_state.dealer == pre.shared_state.dealer
    &&& post.shared_state.taker == pre.shared_state.taker
    &&& post.shared_state.game_type == pre.shared_state.game_type
    &&& forall|q: int|
        0 <= q < 4 ==> post.shared_state.hf_view(q) == pre.shared_state.hf_view(q)
    &&& cards_in_hands(post) == cards_in_hands(pre) - 1
    &&& match post.shared_state.current_trick {
        None => post.shared_state.played_tricks@.len() == pre.shared_state.played_tricks@.len()
            + 1,
        Some(t2) => post.shared_state.played_tricks@.len()
            == pre.shared_state.played_tricks@.len() && crate::trick::trick_fill_count(t2) == (
        match pre.shared_state.current_trick {
            Some(t0) => crate::trick::trick_fill_count(t0) + 1,
            None => 1int,
        }),
    }
}

impl GameState {
    /// The four hands combined, as a multiset.
    pub open spec fn hands_mset(self) -> Multiset<Card> {
        self.players_state@[0].hand@.to_multiset().add(
            self.players_state@[1].hand@.to_multiset(),
        ).add(self.players_state@[2].hand@.to_multiset()).add(
            self.players_state@[3].hand@.to_multiset(),
        )
    }

    /// Every card the state accounts for: hands, kitty, and played cards.
    pub open spec fn all_cards_mset(self) -> Multiset<Card> {
        self.hands_mset().add(self.kitty@.to_multiset()).add(self.shared_state.used_mset())
    }

    /// Deck conservation and bookkeeping: the hands, the kitty and the
    /// played cards partition the 78-card deck exactly, and each hand
    /// holds 18 cards minus one per trick the seat has played into.
    pub open spec fn wf(self) -> bool {
        &&& self.shared_state.wf()
        &&& forall|p: int| 0 <= p < 4 ==> (#[trigger] self.players_state@[p]).wf()
        &&& self.all_cards_mset() == deck_mset()
        &&& forall|p: int|
            0 <= p < 4 ==> (#[trigger] self.players_state@[p]).hand@.len() as int == 18
                - self.shared_state.played_tricks@.len() - self.shared_state.cur_filled(p)
    }

    /// The same observable state, field for field.
    pub open spec fn obs_eq(self, other: GameState) -> bool {
        &&& forall|p: int|
            0 <= p < 4 ==> (#[trigger] self.players_state@[p]).hand@
                == other.players_state@[p].hand@
        &&& self.kitty@ == other.kitty@
        &&& self.shared_state.obs_eq(other.shared_state)
    }

    /// The seat the trick engine expects next, a fresh trick's leader when
    /// no trick is in progress.
    pub open spec fn spec_effective_next(self) -> Option<int> {
        match self.shared_state.current_trick {
            Some(t) => t.spec_next_to_play(),
            None => Some(self.shared_state.spec_player_to_lead()),
        }
    }

    /// The verdict of the play-legality rules against the trick in
    /// progress, or against a fresh trick when none is.
    pub open spec fn spec_verdict_in_state(self, p: int, c: Card) -> Result<(), EngineError> {
        match self.shared_state.current_trick {
            Some(t) => self.players_state@[p].spec_allowed_verdict(c, t),
            None => if self.players_state@[p].hand@.contains(c) {
                Ok(())
            } else {
                Err(EngineError::DoesNotHaveCard)
            },
        }
    }

    /// Whether the seat may legally play the card now.
    pub open spec fn spec_allowed_in_state(self, p: int, c: Card) -> bool {
        self.spec_verdict_in_state(p, c) is Ok
    }

    /// The authoritative state of a fresh deal.
    pub fn initialize(hands: [Vec<Card>; 4], kitty: [Card; 6], dealer: u8) -> (r: Self)
        requires
            dealer < 4,
            hands@[0]@.to_multiset().add(hands@[1]@.to_multiset()).add(
                hands@[2]@.to_multiset(),
            ).add(hands@[3]@.to_multiset()).add(kitty@.to_multiset()) == deck_mset(),
            forall|p: int| 0 <= p < 4 ==> (#[trigger] hands@[p])@.len() == 18,
        ensures
            r.wf(),
            forall|p: int|
                0 <= p < 4 ==> (#[trigger] r.players_state@[p]).hand@ == hands@[p]@,
            r.kitty@ == kitty@,
            r.shared_state.dealer == dealer,
            r.shared_state.taker is None,
            r.shared_state.game_type is None,
            r.shared_state.current_trick is None,
            r.shared_state.played_tricks@.len() == 0,
            forall|p: int| 0 <= p < 4 ==> r.shared_state.hf_view(p) is None,
    {
        let ghost hands0 = hands@;
        let mut hands = hands;
        let mut h0: Vec<Card> = Vec::new();
        let mut h1: Vec<Card> = Vec::new();
        let mut h2: Vec<Card> = Vec::new();
        let mut h3: Vec<Card> = Vec::new();
        core::mem::swap(&mut h0, &mut hands[0]);
        core::mem::swap(&mut h1, &mut hands[1]);
        core::mem::swap(&mut h2, &mut hands[2]);
        core::mem::swap(&mut h3, &mut hands[3]);
        proof {
            assert(h0@ == hands0[0]@ && h1@ == hands0[1]@ && h2@ == hands0[2]@ && h3@
                == hands0[3]@);
        }
        let r = Self {
            players_state: [
                PlayerGameState { hand: h0 },
                PlayerGameState { hand: h1 },
                PlayerGameState { hand: h2 },
                PlayerGameState { hand: h3 },
            ],
            kitty,
            shared_state: SharedGameState::initialize(dealer),
        };
        proof {
            broadcast use vstd::multiset::group_multiset_axioms;
            broadcast use vstd::seq_lib::group_to_multiset_ensures;

            assert(r.shared_state.used_seq().to_multiset() =~= Multiset::<Card>::empty());
            assert(r.all_cards_mset() =~= deck_mset());
            assert forall|p: int| 0 <= p < 4 implies (#[trigger] r.players_state@[p]).wf() by {
                let h = r.players_state@[p].hand@;
                assert forall|c: Card|
                    #[trigger] h.to_multiset().count(c) <= deck_mset().count(c) by {
                    assert(r.all_cards_mset().count(c) == deck_mset().count(c));
                }
                crate::card::lemma_deck_part_wf(h);
            }
        }
        r
    }

    /// A uniformly random fresh deal: the shuffled deck split into four
    /// hands of 18 and a kitty of 6, with a random dealer.
    pub fn random_init() -> (r: Result<GameState, EngineError>)
        ensures
            match r {
                Ok(gs) => {
                    &&& gs.wf()
                    &&& gs.shared_state.taker is None
                    &&& gs.shared_state.game_type is None
                    &&& gs.shared_state.current_trick is None
                    &&& gs.shared_state.played_tricks@.len() == 0
                },
                Err(_) => false,
            },
    {
        let mut cards = Card::all_possibles();
        shuffle_cards(&mut cards);
        let h0 = sub_vec(&cards, 0, 18);
        let h1 = sub_vec(&cards, 18, 36);
        let h2 = sub_vec(&cards, 36, 54);
        let h3 = sub_vec(&cards, 54, 72);
        let kv = sub_vec(&cards, 72, 78);
        let kitty: [Card; 6] = [kv[0], kv[1], kv[2], kv[3], kv[4], kv[5]];
        let dealer = random_below(4);
        proof {
            let s = cards@;
            assert(kitty@ =~= kv@);
            assert(s =~= s.subrange(0, 18) + s.subrange(18, 36) + s.subrange(36, 54) + s.subrange(
                54,
                72,
            ) + s.subrange(72, 78));
            vstd::seq_lib::lemma_multiset_commutative(s.subrange(0, 18), s.subrange(18, 36));
            vstd::seq_lib::lemma_multiset_commutative(
                s.subrange(0, 18) + s.subrange(18, 36),
                s.subrange(36, 54),
            );
            vstd::seq_lib::lemma_multiset_commutative(
                s.subrange(0, 18) + s.subrange(18, 36) + s.subrange(36, 54),
                s.subrange(54, 72),
            );
            vstd::seq_lib::lemma_multiset_commutative(
                s.subrange(0, 18) + s.subrange(18, 36) + s.subrange(36, 54) + s.subrange(54, 72),
                s.subrange(72, 78),
            );
            assert(h0@.to_multiset().add(h1@.to_multiset()).add(h2@.to_multiset()).add(
                h3@.to_multiset(),
            ).add(kitty@.to_multiset()) =~= deck_mset());
        }
        Ok(Self::initialize([h0, h1, h2, h3], kitty, dealer as u8))
    }

    /// Plays one card for the seat, against the trick in progress or a
    /// fresh trick led by the seat to lead; a complete trick is frozen at
    /// once. A rejection changes nothing.
    pub fn play_card(&mut self, player_index: u8, card: &Card) -> (r: Result<(), EngineError>)
        requires
            old(self).wf(),
            player_index < 4,
        ensures
            final(self).wf(),
            r is Ok <==> (old(self).shared_state.spec_next_to_play() == Some(player_index as int)
                && old(self).spec_allowed_in_state(player_index as int, *card)),
            match r {
                Ok(_) => spec_played_from(*old(self), *final(self), player_index as int, *card),
                Err(e) => {
                    &&& final(self).obs_eq(*old(self))
                    &&& (old(self).spec_effective_next() == Some(player_index as int)
                        ==> old(self).spec_verdict_in_state(player_index as int, *card)
                        == Err::<(), EngineError>(e))
                    &&& (old(self).spec_effective_next() != Some(player_index as int) ==> e
                        == EngineError::OutOfOrderPlay)
                },
            },
    {
        let mut trick = match &self.shared_state.current_trick {
            Some(t) => *t,
            None => Trick::new(self.shared_state.player_to_lead()),
        };
        let ghost t0 = trick;
        let ghost gs0 = *old(self);
        proof {
            if gs0.shared_state.current_trick is None {
                assert(trick_cards_seq(t0) =~= Seq::<Card>::empty());
                assert(t0.spec_color() is None);
            }
        }
        let res = {
            let ps = &mut self.players_state[player_index as usize];
            ps.play_a_card(&mut trick, player_index, card)
        };
        match res {
            Err(e) => {
                proof {
                    assert(self.obs_eq(gs0));
                    lemma_obs_eq_wf(gs0, *self);
                    if gs0.shared_state.spec_next_to_play() == Some(player_index as int)
                        && gs0.spec_allowed_in_state(player_index as int, *card) {
                        assert(t0.spec_next_to_play() == Some(player_index as int));
                        assert(gs0.players_state@[player_index as int].spec_allowed(*card, t0));
                        assert(false);
                    }
                }
                Err(e)
            },
            Ok(()) => {
                proof {
                    lemma_play_ok_shared_next(gs0, t0, player_index as int, *card);
                }
                let completed = match trick.next_to_play() {
                    Some(_) => false,
                    None => true,
                };
                self.shared_state.current_trick = Some(trick);
                if completed {
                    proof {
                        lemma_trick_complete_after_fill(t0, trick, player_index as int, *card);
                        assert(gs0.players_state@[player_index as int].hand@.contains(*card));
                        assert(gs0.players_state@[player_index as int].hand@.len() > 0);
                        assert(gs0.shared_state.played_tricks@.len() < 18);
                    }
                    let fr = self.shared_state.finish_trick();
                    proof {
                        assert(fr is Ok);
                    }
                }
                proof {
                    lemma_play_ok_wf(gs0, *self, t0, trick, player_index as int, *card, completed);
                }
                Ok(())
            },
        }
    }

    /// Folds the revealed kitty into the taker's hand and sets the six
    /// chosen cards aside as the new face-down kitty; rejects a choice of
    /// cards the taker does not hold, changing nothing.
    #[verifier::loop_isolation(false)]
    pub fn exchange_kitty(&mut self, taker: u8, aside: &[Card; 6]) -> (r: Result<(), EngineError>)
        requires
            old(self).wf(),
            taker < 4,
        ensures
            final(self).wf(),
            r is Ok <==> (aside@.no_duplicates() && forall|i: int|
                0 <= i < 6 ==> old(self).players_state@[taker as int].hand@.contains(
                    #[trigger] aside@[i],
                ) || old(self).kitty@.contains(aside@[i])),
            match r {
                Ok(_) => {
                    &&& final(self).kitty@ == aside@
                    &&& final(self).players_state@[taker as int].hand@.to_multiset()
                        == old(self).players_state@[taker as int].hand@.to_multiset().add(
                        old(self).kitty@.to_multiset(),
                    ).sub(aside@.to_multiset())
                    &&& forall|q: int|
                        0 <= q < 4 && q != taker as int
                            ==> (#[trigger] final(self).players_state@[q]).hand@
                            == old(self).players_state@[q].hand@
                    &&& final(self).shared_state == old(self).shared_state
                },
                Err(e) => {
                    &&& *final(self) == *old(self)
                    &&& e == EngineError::DoesNotHaveCard
                },
            },
    {
        proof {
            broadcast use vstd::seq_lib::group_to_multiset_ensures;
            broadcast use vstd::multiset::group_multiset_axioms;

        }
        let mut i: usize = 0;
        while i < 6
            invariant
                i <= 6,
                forall|a: int, b: int| 0 <= a < b < i ==> aside@[a] != aside@[b],
                forall|m: int|
                    0 <= m < i ==> self.players_state@[taker as int].hand@.contains(
                        #[trigger] aside@[m],
                    ) || self.kitty@.contains(aside@[m]),
            decreases 6 - i,
        {
            let c = aside[i];
            let mut j: usize = 0;
            while j < i
                invariant
                    j <= i,
                    c == aside@[i as int],
                    forall|m: int| 0 <= m < j ==> aside@[m] != c,
                decreases i - j,
            {
                if aside[j] == c {
                    return Err(EngineError::DoesNotHaveCard);
                }
                j = j + 1;
            }
            if !self.players_state[taker as usize].contains_card(&c) && !kitty_contains(
                &self.kitty,
                &c,
            ) {
                return Err(EngineError::DoesNotHaveCard);
            }
            i = i + 1;
        }
        proof {
            assert(aside@.no_duplicates()) by {
                assert forall|a: int, b: int|
                    0 <= a < 6 && 0 <= b < 6 && a != b implies aside@[a] != aside@[b] by {
                    if a < b {
                    } else {
                        assert(aside@[b] != aside@[a]);
                    }
                }
            }
        }
        let kitty0: [Card; 6] = self.kitty;
        let ghost gs0 = *old(self);
        let ghost hand0 = gs0.players_state@[taker as int].hand@;
        proof {
            // the kitty holds distinct valid cards, none already in hand
            assert forall|c: Card|
                #[trigger] kitty0@.to_multiset().count(c) <= deck_mset().count(c) by {
                assert(gs0.all_cards_mset().count(c) == deck_mset().count(c));
            }
            crate::card::lemma_deck_part_wf(kitty0@);
            crate::card::lemma_deck_properties();
            assert forall|c: Card| #[trigger] kitty0@.contains(c) implies !hand0.contains(c) by {
                assert(gs0.all_cards_mset().count(c) == deck_mset().count(c));
                assert(gs0.hands_mset().count(c) >= hand0.to_multiset().count(c));
                if hand0.contains(c) {
                    assert(hand0.to_multiset().count(c) > 0);
                    assert(kitty0@.to_multiset().count(c) > 0);
                    assert(deck_mset().count(c) <= 1);
                }
            }
        }
        {
            let ps = &mut self.players_state[taker as usize];
            ps.add_cards(&kitty0);
        }
        let res = {
            let ps = &mut self.players_state[taker as usize];
            ps.chose_aside(aside)
        };
        match res {
            Ok(()) => {},
            Err(_) => {
                proof {
                    assert forall|m: int| 0 <= m < 6 implies (hand0 + kitty0@).contains(
                        #[trigger] aside@[m],
                    ) by {
                        if hand0.contains(aside@[m]) {
                            let w = choose|w: int| 0 <= w < hand0.len() && hand0[w] == aside@[m];
                            assert((hand0 + kitty0@)[w] == aside@[m]);
                        } else {
                            assert(kitty0@.contains(aside@[m]));
                            let w = choose|w: int|
                                0 <= w < kitty0@.len() && kitty0@[w] == aside@[m];
                            assert((hand0 + kitty0@)[hand0.len() + w] == aside@[m]);
                        }
                    }
                    assert(false);
                }
                return Err(EngineError::DoesNotHaveCard);
            },
        }
        self.kitty = *aside;
        proof {
            broadcast use vstd::seq_lib::group_to_multiset_ensures;
            broadcast use vstd::multiset::group_multiset_axioms;

            let handf = self.players_state@[taker as int].hand@;
            vstd::seq_lib::lemma_multiset_commutative(hand0, kitty0@);
            assert(handf.to_multiset() == hand0.to_multiset().add(kitty0@.to_multiset()).sub(
                aside@.to_multiset(),
            ));
            assert(self.all_cards_mset() == deck_mset()) by {
                assert forall|c: Card|
                    self.all_cards_mset().count(c) == deck_mset().count(c) by {
                    assert(gs0.all_cards_mset().count(c) == deck_mset().count(c));
                    assert(aside@.to_multiset().count(c) <= (hand0 + kitty0@).to_multiset().count(
                        c,
                    )) by {
                        aside@.lemma_multiset_has_no_duplicates();
                        if aside@.contains(c) {
                            assert((hand0 + kitty0@).to_multiset().count(c) > 0) by {
                                assert(aside@.to_multiset().count(c) > 0);
                            }
                            assert(aside@.to_multiset().count(c) == 1);
                        } else {
                            assert(aside@.to_multiset().count(c) == 0);
                        }
                    }
                    assert(self.shared_state == gs0.shared_state);
                }
            }
            assert forall|q: int|
                0 <= q < 4 implies (#[trigger] self.players_state@[q]).hand@.len() as int == 18
                - self.shared_state.played_tricks@.len() - self.shared_state.cur_filled(q) by {
                if q == taker as int {
                    assert(handf.to_multiset().len() == handf.len());
                    assert(hand0.to_multiset().len() == hand0.len());
                }
            }
        }
        Ok(())
    }

    /// Every card the seat may legally play now: the hand filtered by the
    /// rules against the trick in progress, or the whole hand when the
    /// seat is to lead a fresh trick.
    pub fn cards_allowed(&self, player: u8) -> (r: Vec<Card>)
        requires
            self.wf(),
            player < 4,
        ensures
            forall|c: Card|
                #[trigger] r@.contains(c) <==> self.spec_allowed_in_state(player as int, c),
            r@.no_duplicates(),
    {
        match &self.shared_state.current_trick {
            Some(t) => {
                let r = self.players_state[player as usize].cards_allowed(t);
                proof {
                    assert forall|c: Card|
                        #[trigger] r@.contains(c) <==> self.spec_allowed_in_state(
                            player as int,
                            c,
                        ) by {}
                }
                r
            },
            None => copy_vec(&self.players_state[player as usize].hand),
        }
    }
}

impl Clone for GameState {
    /// A deep copy with the same observable state; simulations always
    /// clone before they mutate.
    fn clone(&self) -> (r: Self)
        ensures
            r.obs_eq(*self),
            self.obs_eq(r),
    {
        GameState {
            players_state: [
                PlayerGameState { hand: copy_vec(&self.players_state[0].hand) },
                PlayerGameState { hand: copy_vec(&self.players_state[1].hand) },
                PlayerGameState { hand: copy_vec(&self.players_state[2].hand) },
                PlayerGameState { hand: copy_vec(&self.players_state[3].hand) },
            ],
            kitty: self.kitty,
            shared_state: self.shared_state.clone(),
        }
    }
}

/// Whether the kitty holds the card.
fn kitty_contains(k: &[Card; 6], c: &Card) -> (r: bool)
    ensures
        r == k@.contains(*c),
{
    let mut i: usize = 0;
    while i < 6
        invariant
            i <= 6,
            forall|j: int| 0 <= j < i ==> k@[j] != *c,
        decreases 6 - i,
    {
        if k[i] == *c {
            proof {
                assert(k@.contains(*c));
            }
            return true;
        }
        i = i + 1;
    }
    false
}

/// Deck conservation: in a well-formed full game state the four hands, the
/// kitty and every played card together hold each of the 78 valid cards
/// exactly once — no card is lost, duplicated or invented by play.
pub proof fn lemma_deck_conservation(gs: GameState)
    requires
        gs.wf(),
    ensures
        forall|c: Card|
            #[trigger] gs.all_cards_mset().count(c) == if valid_card(c) { 1int } else { 0int },
{
    crate::card::lemma_deck_properties();
}

/// Legal-move closure: while the match is unfinished and it is some seat's
/// turn, that seat always holds at least one card the rules allow.
pub proof fn lemma_legal_moves_nonempty(gs: GameState, p: int)
    requires
        gs.wf(),
        gs.shared_state.spec_next_to_play() == Some(p),
    ensures
        0 <= p < 4,
        exists|c: Card| #[trigger] gs.spec_allowed_in_state(p, c),
{
    let n = gs.shared_state.played_tricks@.len() as int;
    assert(n < 18);
    match gs.shared_state.current_trick {
        None => {
            assert(0 <= p < 4);
            let hand = gs.players_state@[p].hand@;
            assert(gs.shared_state.cur_filled(p) == 0);
            assert(hand.len() > 0);
            let c = hand[0];
            assert(hand.contains(c));
            assert(gs.spec_allowed_in_state(p, c));
        },
        Some(t) => {
            assert(t.spec_next_to_play() == Some(p));
            assert(p == crate::trick::seat_at(t.leader, t.first_empty()));
            assert(0 <= p < 4);
            assert(t.cards@[p] is None);
            assert(gs.shared_state.cur_filled(p) == 0);
            let ps = gs.players_state@[p];
            let hand = ps.hand@;
            assert(hand.len() > 0);
            match t.spec_color() {
                None => {
                    let c = hand[0];
                    assert(hand.contains(c));
                    assert(ps.spec_allowed_verdict(c, t) is Ok);
                    assert(gs.spec_allowed_in_state(p, c));
                },
                Some(tc) => {
                    if ps.spec_has_color(tc) {
                        let i = choose|i: int|
                            0 <= i < hand.len() && (#[trigger] hand[i]).color == tc;
                        let c = hand[i];
                        assert(hand.contains(c));
                        assert(ps.spec_allowed_verdict(c, t) is Ok);
                        assert(gs.spec_allowed_in_state(p, c));
                    } else if ps.spec_has_color(Color::Trump) {
                        if ps.spec_can_overtrump(t) {
                            let i = choose|i: int|
                                0 <= i < hand.len() && (#[trigger] hand[i]).color == Color::Trump
                                    && hand[i].value > t.spec_highest_trump();
                            let c = hand[i];
                            assert(hand.contains(c));
                            assert(ps.spec_allowed_verdict(c, t) is Ok);
                            assert(gs.spec_allowed_in_state(p, c));
                        } else {
                            let i = choose|i: int|
                                0 <= i < hand.len() && (#[trigger] hand[i]).color == Color::Trump;
                            let c = hand[i];
                            assert(hand.contains(c));
                            assert(ps.spec_allowed_verdict(c, t) is Ok);
                            assert(gs.spec_allowed_in_state(p, c));
                        }
                    } else {
                        let c = hand[0];
                        assert(hand.contains(c));
                        assert(c.color != tc && c.color != Color::Trump);
                        assert(ps.spec_allowed_verdict(c, t) is Ok);
                        assert(gs.spec_allowed_in_state(p, c));
                    }
                },
            }
        },
    }
}

/// States with the same observable fields are equally well-formed.
pub proof fn lemma_obs_eq_wf(a: GameState, b: GameState)
    requires
        a.wf(),
        a.obs_eq(b),
    ensures
        b.wf(),
{
    assert(b.shared_state.wf()) by {
        assert forall|p: int|
            0 <= p < 4 implies match #[trigger] b.shared_state.declared_handfuls@[p] {
            Some(h) => h.wf(),
            None => true,
        } by {
            assert(a.shared_state.hf_view(p) == b.shared_state.hf_view(p));
            match b.shared_state.declared_handfuls@[p] {
                Some(h) => {
                    let ah = a.shared_state.declared_handfuls@[p]->Some_0;
                    assert(ah.wf());
                    assert(ah.cards@ == h.cards@ && ah.handful == h.handful);
                },
                None => {},
            }
        }
    }
    assert forall|p: int| 0 <= p < 4 implies (#[trigger] b.players_state@[p]).wf() by {
        assert(a.players_state@[p].wf());
        assert(a.players_state@[p].hand@ == b.players_state@[p].hand@);
    }
    assert(b.all_cards_mset() == a.all_cards_mset()) by {
        assert(b.hands_mset() == a.hands_mset());
        assert(b.shared_state.used_seq() == a.shared_state.used_seq());
    }
    assert forall|p: int|
        0 <= p < 4 implies (#[trigger] b.players_state@[p]).hand@.len() as int == 18
        - b.shared_state.played_tricks@.len() - b.shared_state.cur_filled(p) by {
        assert(a.players_state@[p].hand@ == b.players_state@[p].hand@);
        assert(a.shared_state.cur_filled(p) == b.shared_state.cur_filled(p));
    }
}

/// After a successful play, the engine-level turn matched the match-level
/// turn and the card was legal in the state.
proof fn lemma_play_ok_shared_next(gs0: GameState, t0: Trick, p: int, c: Card)
    requires
        gs0.wf(),
        0 <= p < 4,
        match gs0.shared_state.current_trick {
            Some(t) => t0 == t,
            None => t0.leader as int == gs0.shared_state.spec_player_to_lead() && t0.cards@
                =~= Seq::new(4, |i: int| None::<Card>),
        },
        t0.wf(),
        t0.spec_next_to_play() == Some(p),
        gs0.players_state@[p].spec_allowed(c, t0),
    ensures
        gs0.shared_state.spec_next_to_play() == Some(p),
        gs0.spec_allowed_in_state(p, c),
{
    assert(gs0.players_state@[p].hand@.contains(c));
    assert(gs0.players_state@[p].hand@.len() > 0);
    assert(!gs0.shared_state.spec_finished()) by {
        if gs0.shared_state.spec_finished() {
            assert(gs0.players_state@[p].hand@.len() as int == 18 - 18
                - gs0.shared_state.cur_filled(p));
        }
    }
    match gs0.shared_state.current_trick {
        Some(t) => {},
        None => {
            assert(t0.first_empty() == 0);
            assert(t0.spec_color() is None);
        },
    }
}

/// Filling the last empty slot completes the trick.
proof fn lemma_trick_complete_after_fill(t0: Trick, t1: Trick, p: int, c: Card)
    requires
        t0.wf(),
        t1.wf(),
        0 <= p < 4,
        t1.leader == t0.leader,
        t0.spec_next_to_play() == Some(p),
        t1.cards@ == t0.cards@.update(p, Some(c)),
        t1.spec_next_to_play() is None,
    ensures
        t1.complete(),
        forall|q: int| 0 <= q < 4 && q != p ==> (#[trigger] t0.cards@[q]) is Some,
        t0.cards@[p] is None,
{
    assert forall|q: int| 0 <= q < 4 && q != p implies (#[trigger] t0.cards@[q]) is Some by {
        assert(t1.cards@[q] == t0.cards@[q]);
        assert(t1.first_empty() == 4);
        let k = choose|k: int| 0 <= k < 4 && crate::trick::seat_at(t1.leader, k) == q;
        assert(crate::trick::seat_at(t1.leader, (q - t1.leader) % 4) == q) by {
            assert((t1.leader + (q - t1.leader) % 4) % 4 == q) by {
                assert(0 <= (q - t1.leader) % 4 < 4);
                assert((t1.leader + (q - t1.leader)) % 4 == q);
            }
        }
    }
    assert(t0.cards@[crate::trick::seat_at(t0.leader, t0.first_empty())] is None);
}

/// Re-establishes well-formedness after one successful play.
proof fn lemma_play_ok_wf(
    gs0: GameState,
    gs1: GameState,
    t0: Trick,
    t1: Trick,
    p: int,
    c: Card,
    completed: bool,
)
    requires
        gs0.wf(),
        0 <= p < 4,
        match gs0.shared_state.current_trick {
            Some(t) => t0 == t,
            None => t0.leader as int == gs0.shared_state.spec_player_to_lead() && t0.cards@
                =~= Seq::new(4, |i: int| None::<Card>),
        },
        t0.wf(),
        t1.wf(),
        t0.spec_next_to_play() == Some(p),
        t1.leader == t0.leader,
        t1.cards@ == t0.cards@.update(p, Some(c)),
        completed <==> t1.complete(),
        gs0.players_state@[p].hand@.contains(c),
        gs1.players_state@[p].wf(),
        gs1.players_state@[p].hand@.len() == gs0.players_state@[p].hand@.len() - 1,
        gs1.players_state@[p].hand@.to_multiset() == gs0.players_state@[p].hand@.to_multiset()
            .remove(c),
        forall|q: int|
            0 <= q < 4 && q != p ==> (#[trigger] gs1.players_state@[q]).hand@
                == gs0.players_state@[q].hand@,
        gs1.kitty@ == gs0.kitty@,
        gs1.shared_state.dealer == gs0.shared_state.dealer,
        gs1.shared_state.taker == gs0.shared_state.taker,
        gs1.shared_state.game_type == gs0.shared_state.game_type,
        forall|q: int|
            0 <= q < 4 ==> gs1.shared_state.hf_view(q) == gs0.shared_state.hf_view(q),
        if completed {
            &&& gs1.shared_state.current_trick is None
            &&& gs1.shared_state.played_tricks@.len() == gs0.shared_state.played_tricks@.len()
                + 1
            &&& ({
                let pt = gs1.shared_state.played_tricks@.last();
                &&& gs1.shared_state.played_tricks@ == gs0.shared_state.played_tricks@.push(pt)
                &&& pt.leader == t1.leader
                &&& pt.winner < 4
                &&& pt.cards@.to_multiset() == trick_cards_seq(t1).to_multiset()
            })
        } else {
            &&& gs1.shared_state.current_trick == Some(t1)
            &&& gs1.shared_state.played_tricks@ == gs0.shared_state.played_tricks@
        },
    ensures
        gs1.wf(),
        gs1.shared_state.used_mset() == gs0.shared_state.used_mset().insert(c),
        cards_in_hands(gs1) == cards_in_hands(gs0) - 1,
{
    broadcast use vstd::multiset::group_multiset_axioms;
    broadcast use vstd::seq_lib::group_to_multiset_ensures;

    let n = gs0.shared_state.played_tricks@.len() as int;
    // the played slot was empty before the play
    assert(t0.cards@[p] is None) by {
        assert(t0.cards@[crate::trick::seat_at(t0.leader, t0.first_empty())] is None);
    }
    crate::trick::lemma_trick_fill_mset(t0, t1, p, c);
    // the seat still held a card, so fewer than 18 tricks were finished
    assert(n < 18) by {
        assert(gs0.players_state@[p].hand@.len() > 0);
        assert(gs0.players_state@[p].hand@.len() as int == 18 - n - gs0.shared_state.cur_filled(
            p,
        ));
    }
    // the shared state stays well-formed
    assert(gs1.shared_state.wf()) by {
        assert forall|q: int|
            0 <= q < 4 implies match #[trigger] gs1.shared_state.declared_handfuls@[q] {
            Some(h) => h.wf(),
            None => true,
        } by {
            assert(gs1.shared_state.hf_view(q) == gs0.shared_state.hf_view(q));
            match gs1.shared_state.declared_handfuls@[q] {
                Some(h) => {
                    let ah = gs0.shared_state.declared_handfuls@[q]->Some_0;
                    assert(ah.wf());
                    assert(ah.cards@ == h.cards@);
                },
                None => {},
            }
        }
        if completed {
            let pt = gs1.shared_state.played_tricks@.last();
            assert forall|i: int|
                0 <= i < gs1.shared_state.played_tricks@.len() implies (
            #[trigger] gs1.shared_state.played_tricks@[i]).wf() by {
                if i < n {
                    assert(gs1.shared_state.played_tricks@[i]
                        == gs0.shared_state.played_tricks@[i]);
                }
            }
        } else {
            assert(!t1.complete()) by {
                assert(completed <==> t1.complete());
            }
        }
    }
    // used cards gain exactly the played card
    assert(gs1.shared_state.used_mset() == gs0.shared_state.used_mset().insert(c)) by {
        let played0 = crate::trick::played_cards_upto(gs0.shared_state.played_tricks@, n);
        if completed {
            let pt = gs1.shared_state.played_tricks@.last();
            crate::trick::lemma_played_cards_push(gs0.shared_state.played_tricks@, pt, n);
            assert(crate::trick::played_cards_upto(gs1.shared_state.played_tricks@, n + 1)
                == crate::trick::played_cards_upto(gs1.shared_state.played_tricks@, n)
                + pt.cards@);
            assert(crate::trick::played_cards_upto(gs1.shared_state.played_tricks@, n)
                == played0);
            assert(gs1.shared_state.used_seq() =~= (played0 + pt.cards@));
            vstd::seq_lib::lemma_multiset_commutative(played0, pt.cards@);
            match gs0.shared_state.current_trick {
                Some(t) => {
                    assert(gs0.shared_state.used_seq() =~= played0 + trick_cards_seq(t0));
                    vstd::seq_lib::lemma_multiset_commutative(played0, trick_cards_seq(t0));
                    assert(gs1.shared_state.used_mset() =~= gs0.shared_state.used_mset().insert(
                        c,
                    ));
                },
                None => {
                    assert(gs0.shared_state.used_seq() =~= played0);
                    assert(trick_cards_seq(t0) =~= Seq::<Card>::empty());
                    assert(gs1.shared_state.used_mset() =~= gs0.shared_state.used_mset().insert(
                        c,
                    ));
                },
            }
        } else {
            assert(gs1.shared_state.used_seq() =~= played0 + trick_cards_seq(t1));
            vstd::seq_lib::lemma_multiset_commutative(played0, trick_cards_seq(t1));
            match gs0.shared_state.current_trick {
                Some(t) => {
                    assert(gs0.shared_state.used_seq() =~= played0 + trick_cards_seq(t0));
                    vstd::seq_lib::lemma_multiset_commutative(played0, trick_cards_seq(t0));
                    assert(gs1.shared_state.used_mset() =~= gs0.shared_state.used_mset().insert(
                        c,
                    ));
                },
                None => {
                    assert(gs0.shared_state.used_seq() =~= played0);
                    assert(gs1.shared_state.used_mset() =~= gs0.shared_state.used_mset().insert(
                        c,
                    ));
                },
            }
        }
    }
    // the hands lose exactly the played card
    assert(gs1.hands_mset() == gs0.hands_mset().remove(c)) by {
        assert(gs0.players_state@[p].hand@.to_multiset().count(c) > 0);
        assert(gs1.hands_mset() =~= gs0.hands_mset().remove(c));
    }
    // partition preserved
    assert(gs1.all_cards_mset() == deck_mset()) by {
        assert(gs0.hands_mset().count(c) > 0) by {
            assert(gs0.players_state@[p].hand@.to_multiset().count(c) > 0);
        }
        assert(gs1.all_cards_mset() =~= gs0.all_cards_mset());
    }
    // per-seat sizes
    assert forall|q: int|
        0 <= q < 4 implies (#[trigger] gs1.players_state@[q]).hand@.len() as int == 18
        - gs1.shared_state.played_tricks@.len() - gs1.shared_state.cur_filled(q) by {
        if completed {
            lemma_trick_complete_after_fill(t0, t1, p, c);
            if q != p {
                assert(t0.cards@[q] is Some);
                assert(gs0.shared_state.cur_filled(q) == 1) by {
                    match gs0.shared_state.current_trick {
                        Some(t) => {},
                        None => {
                            assert(t0.cards@[q] is None);
                        },
                    }
                }
            } else {
                assert(gs0.shared_state.cur_filled(p) == 0) by {
                    match gs0.shared_state.current_trick {
                        Some(t) => {
                            assert(t0.cards@[p] is None);
                        },
                        None => {},
                    }
                }
            }
        } else {
            if q != p {
                assert(t1.cards@[q] == t0.cards@[q]);
                assert(gs1.shared_state.cur_filled(q) == gs0.shared_state.cur_filled(q)) by {
                    match gs0.shared_state.current_trick {
                        Some(t) => {},
                        None => {
                            assert(t0.cards@[q] is None);
                            assert(t1.cards@[q] is None);
                        },
                    }
                }
            } else {
                assert(t1.cards@[p] is Some);
                assert(gs1.shared_state.cur_filled(p) == 1);
                assert(gs0.shared_state.cur_filled(p) == 0) by {
                    match gs0.shared_state.current_trick {
                        Some(t) => {
                            assert(t0.cards@[p] is None);
                        },
                        None => {},
                    }
                }
            }
        }
    }
    // every seat still holds a well-formed hand
    assert forall|q: int| 0 <= q < 4 implies (#[trigger] gs1.players_state@[q]).wf() by {
        if q != p {
            assert(gs0.players_state@[q].wf());
        }
    }
}

} // verus!
