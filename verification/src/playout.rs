use vstd::prelude::*;

use crate::analysis_error::AnalysisError;
use crate::game_state::{cards_in_hands, GameState};
use crate::rng::random_below;

verus! {

/// Runs the match to its end under a uniformly random legal policy and
/// returns the taker's final score: the reward estimator for search
/// leaves. A well-formed state always plays out to completion.
pub fn simulate_random_playout(full: &mut GameState) -> (r: Result<usize, AnalysisError>)
    requires
        old(full).wf(),
    ensures
        final(full).wf(),
        r is Ok,
        match r {
            Ok(score) => final(full).shared_state.spec_finished() && score
                == final(full).shared_state.spec_score(),
            Err(_) => false,
        },
{
    loop
        invariant
            full.wf(),
        decreases cards_in_hands(*full),
    {
        let player = match full.shared_state.next_to_play() {
            Some(p) => p,
            None => {
                proof {
                    assert(full.shared_state.spec_finished());
                }
                return Ok(full.shared_state.current_score());
            },
        };
        let allowed = full.cards_allowed(player);
        proof {
            crate::game_state::lemma_legal_moves_nonempty(*full, player as int);
            let c = choose|c: crate::card::Card|
                #[trigger] full.spec_allowed_in_state(player as int, c);
            assert(allowed@.contains(c));
        }
        let idx = random_below(allowed.len());
        let card = allowed[idx];
        proof {
            assert(allowed@.contains(allowed@[idx as int]));
        }
        match full.play_card(player, &card) {
            Ok(()) => {},
            Err(_) => {
                proof {
                    assert(false);
                }
                return Err(AnalysisError::NoCardToPlay);
            },
        }
    }
}

} // verus!
