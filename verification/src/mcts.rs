use vstd::prelude::*;

use crate::analysis_error::AnalysisError;
use crate::card::Card;
use crate::game_state::GameState;

verus! {

/// One node of the search tree: a full-state snapshot, its visit count and
/// cumulative reward, and the children it owns, keyed by the card played
/// to reach them.
#[derive(Debug)]
pub struct MCTSNode {
    pub state: GameState,
    pub visits: usize,
    pub total_score: usize,
    pub children: Vec<(Card, MCTSNode)>,
}

impl MCTSNode {
    /// The node's snapshot is a well-formed full state.
    pub open spec fn wf(self) -> bool {
        self.state.wf()
    }

    /// Whether some child was reached by playing the card.
    pub open spec fn spec_has_child(self, card: Card) -> bool {
        exists|j: int| 0 <= j < self.children@.len() && (#[trigger] self.children@[j]).0 == card
    }

    /// A fresh, unvisited node owning the snapshot.
    pub fn new(state: GameState) -> (r: Self)
        ensures
            r.state == state,
            r.visits == 0,
            r.total_score == 0,
            r.children@ =~= Seq::<(Card, MCTSNode)>::empty(),
    {
        Self { state, visits: 0, total_score: 0, children: Vec::new() }
    }

    /// Whether a child for the card exists.
    pub fn has_child(&self, card: &Card) -> (r: bool)
        ensures
            r == self.spec_has_child(*card),
    {
        let mut j: usize = 0;
        while j < self.children.len()
            invariant
                j <= self.children@.len(),
                forall|m: int| 0 <= m < j ==> (#[trigger] self.children@[m]).0 != *card,
            decreases self.children@.len() - j,
        {
            if self.children[j].0 == *card {
                proof {
                    assert((self.children@[j as int]).0 == *card);
                }
                return true;
            }
            j = j + 1;
        }
        false
    }

    /// Picks one not-yet-expanded legal move of the snapshot, applies it to
    /// a clone, and returns the move with the new, unvisited child node;
    /// rejected exactly when every legal move already has a child (or none
    /// exists). The node itself is not changed: the caller inserts the
    /// child after the simulation.
    pub fn expand(&mut self) -> (r: Result<(Card, MCTSNode), AnalysisError>)
        requires
            old(self).wf(),
        ensures
            *final(self) == *old(self),
            r is Ok <==> exists|c: Card|
                #[trigger] old(self).spec_allowed_at_next(c) && !old(self).spec_has_child(c),
            match r {
                Ok((card, node)) => {
                    &&& node.wf()
                    &&& !old(self).spec_has_child(card)
                    &&& old(self).spec_allowed_at_next(card)
                    &&& node.visits == 0
                    &&& node.total_score == 0
                    &&& node.children@.len() == 0
                    &&& crate::game_state::spec_played_from(
                        old(self).state,
                        node.state,
                        old(self).state.shared_state.spec_next_to_play()->Some_0,
                        card,
                    )
                },
                Err(e) => e == AnalysisError::AnalysisFinished,
            },
    {
        let player = match self.state.shared_state.next_to_play() {
            Some(p) => p,
            None => (self.state.shared_state.dealer + 1) % 4,
        };
        let legal_moves = self.state.cards_allowed(player);
        let mut i: usize = 0;
        while i < legal_moves.len()
            invariant
                self.wf(),
                *self == *old(self),
                i <= legal_moves@.len(),
                player < 4,
                forall|c: Card|
                    #[trigger] legal_moves@.contains(c) <==> self.state.spec_allowed_in_state(
                        player as int,
                        c,
                    ),
                self.state.shared_state.spec_next_to_play() is Some
                    ==> self.state.shared_state.spec_next_to_play() == Some(player as int),
                forall|j: int|
                    0 <= j < i ==> self.spec_has_child(#[trigger] legal_moves@[j]),
            decreases legal_moves@.len() - i,
        {
            let card = legal_moves[i];
            proof {
                assert(legal_moves@.contains(legal_moves@[i as int]));
            }
            if !self.has_child(&card) {
                proof {
                    lemma_allowed_seat_to_act(self.state, player as int, card);
                }
                let mut new_state = self.state.clone();
                proof {
                    crate::game_state::lemma_obs_eq_wf(self.state, new_state);
                    lemma_obs_eq_allowed(self.state, new_state, player as int, card);
                }
                let ghost cloned = new_state;
                match new_state.play_card(player, &card) {
                    Ok(()) => {
                        proof {
                            lemma_played_from_obs(
                                self.state,
                                cloned,
                                new_state,
                                player as int,
                                card,
                            );
                            assert(old(self).spec_allowed_at_next(card) && !old(
                                self,
                            ).spec_has_child(card));
                        }
                        return Ok((card, MCTSNode::new(new_state)));
                    },
                    Err(_) => {
                        proof {
                            assert(false);
                        }
                        return Err(AnalysisError::AnalysisFinished);
                    },
                }
            }
            i = i + 1;
        }
        proof {
            assert forall|c: Card|
                #[trigger] self.spec_allowed_at_next(c) implies self.spec_has_child(c) by {
                lemma_allowed_seat_to_act(self.state, player as int, c);
                assert(legal_moves@.contains(c));
                let j = choose|j: int| 0 <= j < legal_moves@.len() && legal_moves@[j] == c;
            }
        }
        Err(AnalysisError::AnalysisFinished)
    }

    /// Whether the card is a legal move of the snapshot for the seat to
    /// act.
    pub open spec fn spec_allowed_at_next(self, card: Card) -> bool {
        match self.state.shared_state.spec_next_to_play() {
            Some(p) => self.state.spec_allowed_in_state(p, card),
            None => false,
        }
    }

    /// Records one simulation outcome on this node alone: one more visit,
    /// the reward added to the running total.
    pub fn backpropagate(&mut self, result: usize) -> (r: ())
        requires
            old(self).visits < usize::MAX,
            old(self).total_score + result <= usize::MAX,
        ensures
            final(self).visits == old(self).visits + 1,
            final(self).total_score == old(self).total_score + result,
            final(self).state == old(self).state,
            final(self).children == old(self).children,
    {
        self.visits = self.visits + 1;
        self.total_score = self.total_score + result;
    }
}

/// A legal move in a well-formed state proves the match is unfinished, so
/// it is exactly the seat to act that may play it.
proof fn lemma_allowed_seat_to_act(gs: GameState, p: int, c: Card)
    requires
        gs.wf(),
        0 <= p < 4,
        gs.shared_state.spec_next_to_play() is Some ==> gs.shared_state.spec_next_to_play()
            == Some(p),
        gs.spec_allowed_in_state(p, c),
    ensures
        gs.shared_state.spec_next_to_play() == Some(p),
{
    assert(gs.players_state@[p].hand@.contains(c));
    assert(gs.players_state@[p].hand@.len() > 0);
    if gs.shared_state.spec_finished() {
        assert(gs.players_state@[p].hand@.len() as int == 18 - 18 - gs.shared_state.cur_filled(
            p,
        ));
    }
}

/// A play recorded against one of two observably equal states is a play
/// against the other as well.
proof fn lemma_played_from_obs(pre1: GameState, pre2: GameState, post: GameState, p: int, c: Card)
    requires
        0 <= p < 4,
        pre1.obs_eq(pre2),
        crate::game_state::spec_played_from(pre2, post, p, c),
    ensures
        crate::game_state::spec_played_from(pre1, post, p, c),
{
    assert(pre1.shared_state.used_seq() == pre2.shared_state.used_seq());
    assert(pre1.players_state@[p].hand@ == pre2.players_state@[p].hand@);
    assert(pre1.shared_state.current_trick == pre2.shared_state.current_trick);
    assert forall|q: int|
        0 <= q < 4 implies post.shared_state.hf_view(q) == pre1.shared_state.hf_view(q) by {}
}

/// Observably equal states allow the same moves for the same seat.
proof fn lemma_obs_eq_allowed(a: GameState, b: GameState, p: int, c: Card)
    requires
        0 <= p < 4,
        a.obs_eq(b),
    ensures
        a.spec_allowed_in_state(p, c) == b.spec_allowed_in_state(p, c),
        a.shared_state.spec_next_to_play() == b.shared_state.spec_next_to_play(),
{
    assert(a.players_state@[p].hand@ == b.players_state@[p].hand@);
    assert(a.shared_state.current_trick == b.shared_state.current_trick);
    match a.shared_state.current_trick {
        Some(t) => {
            assert(a.players_state@[p].spec_allowed_verdict(c, t) == b.players_state@[
            p].spec_allowed_verdict(c, t)) by {
                assert(a.players_state@[p].spec_has_color(t.spec_color()->Some_0)
                    == b.players_state@[p].spec_has_color(t.spec_color()->Some_0));
            }
        },
        None => {},
    }
}

} // verus!
