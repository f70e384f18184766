use vstd::prelude::*;

use crate::business_error::BusinessError;
use crate::engine_error::EngineError;
use crate::game_state::GameState;
use crate::game_type::bid_rank;
use crate::known_game_state::KnownGameState;
use crate::player::Player;
use crate::shared_game_state::SharedGameState;

verus! {

/// The position of the current contract in the bid order, 0 while nobody
/// has bid; a successful bid strictly raises it.
pub open spec fn cur_rank(s: SharedGameState) -> int {
    match s.game_type {
        None => 0,
        Some(g) => bid_rank(g) + 1,
    }
}

/// A match of tarot: the authoritative state and the four strategies.
pub struct Tarot<P: Player> {
    pub state: GameState,
    pub players: [P; 4],
}

impl<P: Player> Tarot<P> {
    /// The match state is well-formed, and a contract exists exactly when
    /// a taker does.
    pub open spec fn wf(self) -> bool {
        &&& self.state.wf()
        &&& (self.state.shared_state.game_type is None <==> self.state.shared_state.taker
            is None)
    }

    /// A fresh match over a random deal.
    pub fn initialize(players: [P; 4]) -> (r: Result<Self, EngineError>)
        ensures
            match r {
                Ok(t) => {
                    &&& t.wf()
                    &&& t.state.shared_state.taker is None
                    &&& t.state.shared_state.game_type is None
                    &&& t.state.shared_state.current_trick is None
                    &&& t.state.shared_state.played_tricks@.len() == 0
                },
                Err(_) => false,
            },
    {
        let state = match GameState::random_init() {
            Ok(gs) => gs,
            Err(e) => { return Err(e); },
        };
        Ok(Self { state, players })
    }

    /// Runs the bidding round: each seat in turn raises or passes, and
    /// four consecutive passes end it. If nobody bid, the match cannot
    /// proceed. If the winning contract reveals the kitty, the taker folds
    /// it into its hand and discards six cards, which become the kitty.
    pub fn bid(&mut self) -> (r: Result<(), BusinessError>)
        requires
            old(self).wf(),
        ensures
            final(self).wf(),
            final(self).state.shared_state.played_tricks@.len() == old(self).state.shared_state.played_tricks@.len(),
            final(self).state.shared_state.current_trick == old(self).state.shared_state.current_trick,
            r is Ok ==> final(self).state.shared_state.taker is Some && final(self).state.shared_state.game_type is Some,
            r == Err::<(), BusinessError>(BusinessError::EveryonePassed) ==> final(self).state.shared_state.game_type is None
                && final(self).state.shared_state.taker is None,
            r is Ok ==> match final(self).state.shared_state.game_type {
                Some(g) => final(self).state.shared_state.taker matches Some(t) && (
                if g.spec_kitty_revealed() {
                    // the taker folded the kitty in and set six cards aside,
                    // which became the new kitty
                    &&& final(self).state.players_state@[t as int].hand@.to_multiset()
                        == old(self).state.players_state@[t as int].hand@.to_multiset().add(
                        old(self).state.kitty@.to_multiset(),
                    ).sub(final(self).state.kitty@.to_multiset())
                    &&& forall|q: int|
                        0 <= q < 4 && q != t as int
                            ==> (#[trigger] final(self).state.players_state@[q]).hand@
                            == old(self).state.players_state@[q].hand@
                } else {
                    &&& final(self).state.kitty@ == old(self).state.kitty@
                    &&& forall|q: int|
                        0 <= q < 4 ==> (#[trigger] final(self).state.players_state@[q]).hand@
                            == old(self).state.players_state@[q].hand@
                }),
                None => false,
            },
    {
        let mut current_player: u8 = (self.state.shared_state.dealer + 1) % 4;
        let mut current_pass_count: u8 = 0;
        while current_pass_count < 4
            invariant
                self.wf(),
                current_player < 4,
                current_pass_count <= 4,
                self.players == old(self).players,
                self.state.shared_state.played_tricks@.len() == old(self).state.shared_state.played_tricks@.len(),
                self.state.shared_state.current_trick == old(self).state.shared_state.current_trick,
                forall|q: int|
                    0 <= q < 4 ==> (#[trigger] self.state.players_state@[q]).hand@ == old(self).state.players_state@[q].hand@,
                self.state.kitty@ == old(self).state.kitty@,
                self.state.shared_state.game_type is None <==> self.state.shared_state.taker
                    is None,
                0 <= cur_rank(self.state.shared_state) <= 8,
            decreases 8 - cur_rank(self.state.shared_state), 4 - current_pass_count,
        {
            let known = KnownGameState::from_omniscient(&self.state, current_player);
            let player_bid = match self.players[current_player as usize].bid(&known) {
                Ok(b) => b,
                Err(e) => { return Err(BusinessError::Analysis(e)); },
            };
            match player_bid {
                Some(game_type) => {
                    match self.state.shared_state.bid(current_player, Some(game_type)) {
                        Ok(()) => {},
                        Err(e) => { return Err(BusinessError::Engine(e)); },
                    }
                    current_pass_count = 0;
                },
                None => {
                    current_pass_count = current_pass_count + 1;
                },
            }
            current_player = (current_player + 1) % 4;
        }
        let game_type = match self.state.shared_state.game_type {
            Some(g) => g,
            None => { return Err(BusinessError::EveryonePassed); },
        };
        let taker = match self.state.shared_state.taker {
            Some(t) => t,
            None => {
                proof {
                    assert(false);
                }
                return Err(BusinessError::EveryonePassed);
            },
        };
        if game_type.kitty_should_be_revealed() {
            let known = KnownGameState::from_omniscient(&self.state, taker);
            let aside = match self.players[taker as usize].chose_aside(&known) {
                Ok(a) => a,
                Err(e) => { return Err(BusinessError::Analysis(e)); },
            };
            match self.state.exchange_kitty(taker, &aside) {
                Ok(()) => {},
                Err(e) => { return Err(BusinessError::Engine(e)); },
            }
        }
        Ok(())
    }

    /// Plays one complete trick: each seat in clockwise order is asked for
    /// a card, which the referee applies; the finished trick is frozen.
    pub fn play_a_new_trick(&mut self) -> (r: Result<(), BusinessError>)
        requires
            old(self).wf(),
            old(self).state.shared_state.current_trick is None,
            !old(self).state.shared_state.spec_finished(),
        ensures
            final(self).wf(),
            r is Ok ==> {
                &&& final(self).state.shared_state.played_tricks@.len() == old(self).state.shared_state.played_tricks@.len() + 1
                &&& final(self).state.shared_state.current_trick is None
            },
    {
        let ghost n0 = old(self).state.shared_state.played_tricks@.len() as int;
        let opened = self.state.shared_state.new_trick();
        proof {
            assert(crate::trick::trick_fill_count(opened) == 0);
        }
        let mut k: u8 = 0;
        while k < 4
            invariant
                self.wf(),
                k <= 4,
                self.state.shared_state.played_tricks@.len() == n0 + (if k == 4 {
                    1int
                } else {
                    0int
                }),
                n0 < 18,
                k < 4 ==> match self.state.shared_state.current_trick {
                    None => false,
                    Some(t) => crate::trick::trick_fill_count(t) == k as int,
                },
                k == 4 ==> self.state.shared_state.current_trick is None,
            decreases 4 - k,
        {
            let player_index = match self.state.shared_state.next_to_play() {
                Some(p) => p,
                None => {
                    proof {
                        assert(false);
                    }
                    return Err(BusinessError::Engine(EngineError::FinishedHand));
                },
            };
            let known = KnownGameState::from_omniscient(&self.state, player_index);
            let card = match self.players[player_index as usize].play_a_card(&known) {
                Ok(c) => c,
                Err(e) => { return Err(BusinessError::Analysis(e)); },
            };
            proof {
                match self.state.shared_state.current_trick {
                    Some(t) => {
                        assert(known.player_state.spec_allowed(card, t)
                            == self.state.players_state@[player_index as int].spec_allowed(
                            card,
                            t,
                        ));
                    },
                    None => {},
                }
            }
            match self.state.play_card(player_index, &card) {
                Ok(()) => {},
                Err(e) => { return Err(BusinessError::Engine(e)); },
            }
            proof {
                if k < 3 {
                    match self.state.shared_state.current_trick {
                        Some(t) => {},
                        None => {
                            assert(false);
                        },
                    }
                } else {
                    match self.state.shared_state.current_trick {
                        Some(t) => {
                            assert(crate::trick::trick_fill_count(t) == 4);
                            assert(t.cards@[crate::trick::seat_at(t.leader, 0)] is Some
                                && t.cards@[crate::trick::seat_at(t.leader, 1)] is Some
                                && t.cards@[crate::trick::seat_at(t.leader, 2)] is Some
                                && t.cards@[crate::trick::seat_at(t.leader, 3)] is Some) by {
                                lemma_fill4_complete(t);
                            }
                            assert(t.complete());
                            assert(false);
                        },
                        None => {},
                    }
                }
            }
            k = k + 1;
        }
        Ok(())
    }

    /// Runs one full match: the bidding round, then all 18 tricks, and
    /// returns the taker's final score.
    pub fn play(&mut self) -> (r: Result<usize, BusinessError>)
        requires
            old(self).wf(),
            old(self).state.shared_state.current_trick is None,
            old(self).state.shared_state.played_tricks@.len() == 0,
        ensures
            final(self).wf(),
            r matches Ok(score) ==> final(self).state.shared_state.spec_finished() && score
                == final(self).state.shared_state.spec_score(),
    {
        match self.bid() {
            Ok(()) => {},
            Err(e) => { return Err(e); },
        }
        let mut i: u8 = 0;
        while i < 18
            invariant
                self.wf(),
                i <= 18,
                self.state.shared_state.played_tricks@.len() == i as nat,
                self.state.shared_state.current_trick is None,
            decreases 18 - i,
        {
            match self.play_a_new_trick() {
                Ok(()) => {},
                Err(e) => { return Err(e); },
            }
            i = i + 1;
        }
        Ok(self.state.shared_state.current_score())
    }
}

/// A trick with four filled slots is complete.
proof fn lemma_fill4_complete(t: crate::trick::Trick)
    requires
        t.wf(),
        crate::trick::trick_fill_count(t) == 4,
    ensures
        t.complete(),
{
    assert(t.cards@[0] is Some && t.cards@[1] is Some && t.cards@[2] is Some && t.cards@[3]
        is Some);
}

} // verus!
