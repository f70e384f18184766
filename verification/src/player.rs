use vstd::prelude::*;

use crate::analysis_error::AnalysisError;
use crate::card::Card;
use crate::game_type::GameType;
use crate::known_game_state::KnownGameState;
use crate::rng::random_below;

verus! {

/// A playing strategy: given one seat's view, it chooses a card, a bid,
/// and the cards to set aside. External strategies implement this too.
pub trait Player {
    /// The strategy's move; on success the card is legal against the
    /// trick in progress.
    fn play_a_card(&mut self, game_state: &KnownGameState) -> (r: Result<Card, AnalysisError>)
        requires
            game_state.wf(),
        ensures
            match r {
                Ok(c) => match game_state.shared_state.current_trick {
                    Some(t) => game_state.player_state.spec_allowed(c, t),
                    None => game_state.player_state.hand@.contains(c),
                },
                Err(_) => true,
            },
    ;

    /// The strategy's bid, `None` to pass. The trivial default always bids
    /// the third contract level.
    fn bid(&self, game_state: &KnownGameState) -> (r: Result<Option<GameType>, AnalysisError>)
        requires
            game_state.wf(),
    {
        let _ = game_state;
        Ok(Some(GameType::GardeSans { chelem: false }))
    }

    /// The six cards the taker sets aside; the trivial default takes the
    /// first six of its hand.
    fn chose_aside(&self, game_state: &KnownGameState) -> (r: Result<[Card; 6], AnalysisError>)
        requires
            game_state.wf(),
    {
        let hand = &game_state.player_state.hand;
        if hand.len() < 6 {
            return Err(AnalysisError::NoCardToPlay);
        }
        Ok([hand[0], hand[1], hand[2], hand[3], hand[4], hand[5]])
    }
}

/// The strategy that plays a uniformly random legal card.
#[derive(Debug)]
pub struct Random {}

impl Player for Random {
    /// Fails exactly when no trick is in progress or no held card is
    /// legal against it; otherwise a uniformly random legal card.
    fn play_a_card(&mut self, game_state: &KnownGameState) -> (r: Result<Card, AnalysisError>)
        ensures
            r is Err <==> match game_state.shared_state.current_trick {
                Some(t) => forall|c: Card| !game_state.player_state.spec_allowed(c, t),
                None => true,
            },
    {
        let trick = match &game_state.shared_state.current_trick {
            Some(t) => *t,
            None => { return Err(AnalysisError::NoCardToPlay); },
        };
        let allowed = game_state.player_state.cards_allowed(&trick);
        if allowed.len() == 0 {
            proof {
                assert forall|c: Card|
                    !game_state.player_state.spec_allowed(c, trick) by {
                    if game_state.player_state.spec_allowed(c, trick) {
                        assert(game_state.player_state.hand@.contains(c));
                        assert(allowed@.contains(c));
                    }
                }
            }
            return Err(AnalysisError::NoCardToPlay);
        }
        let idx = random_below(allowed.len());
        let card = allowed[idx];
        proof {
            assert(allowed@.contains(allowed@[idx as int]));
        }
        Ok(card)
    }
}

} // verus!
