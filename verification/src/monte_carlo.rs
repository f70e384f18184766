use vstd::prelude::*;

use crate::analysis_error::AnalysisError;
use crate::card::Card;
use crate::known_game_state::KnownGameState;
use crate::playout::simulate_random_playout;

verus! {

/// One flat Monte-Carlo trial: determinizes a fresh plausible full state
/// from the view, applies the candidate card, and plays the match out at
/// random; the result is the taker's final score, at most 35352. The
/// trial succeeds whenever the candidate is a legal move of the view.
pub fn monte_carlo_trial(known: &KnownGameState, candidate: &Card) -> (r: Result<
    usize,
    AnalysisError,
>)
    requires
        known.wf(),
    ensures
        match r {
            Ok(score) => score <= 35352,
            Err(_) => true,
        },
        (known.shared_state.spec_next_to_play() == Some(known.player_index as int) && (
        match known.shared_state.current_trick {
            Some(t) => known.player_state.spec_allowed(*candidate, t),
            None => known.player_state.hand@.contains(*candidate),
        })) ==> r is Ok,
{
    let mut full = match known.possible_random_full_state() {
        Ok(f) => f,
        Err(_) => {
            proof {
                assert(false);
            }
            return Err(AnalysisError::Other);
        },
    };
    proof {
        lemma_view_allowed(*known, full, *candidate);
    }
    match full.play_card(known.player_index, candidate) {
        Ok(()) => {},
        Err(_) => {
            return Err(AnalysisError::Other);
        },
    }
    let score = match simulate_random_playout(&mut full) {
        Ok(v) => v,
        Err(_) => {
            proof {
                assert(false);
            }
            return Err(AnalysisError::Other);
        },
    };
    proof {
        crate::shared_game_state::lemma_score_bound(full.shared_state);
    }
    Ok(score)
}

/// A determinized state preserving the viewer's hand and the public state
/// allows the viewer the same moves as the view itself.
proof fn lemma_view_allowed(known: KnownGameState, full: crate::game_state::GameState, c: Card)
    requires
        known.wf(),
        full.shared_state.obs_eq(known.shared_state),
        full.players_state@[known.player_index as int].hand@ == known.player_state.hand@,
    ensures
        full.shared_state.spec_next_to_play() == known.shared_state.spec_next_to_play(),
        full.spec_allowed_in_state(known.player_index as int, c) == (
        match known.shared_state.current_trick {
            Some(t) => known.player_state.spec_allowed(c, t),
            None => known.player_state.hand@.contains(c),
        }),
{
    let p = known.player_index as int;
    assert(full.shared_state.current_trick == known.shared_state.current_trick);
    match known.shared_state.current_trick {
        Some(t) => {
            let pa = full.players_state@[p];
            let pb = known.player_state;
            assert(pa.hand@ == pb.hand@);
            assert forall|col: crate::card::Color|
                pa.spec_has_color(col) == pb.spec_has_color(col) by {}
            assert(pa.spec_can_overtrump(t) == pb.spec_can_overtrump(t));
            assert(pa.spec_allowed_verdict(c, t) == pb.spec_allowed_verdict(c, t));
        },
        None => {},
    }
}

/// The candidate with the highest average reward, if any candidate was
/// evaluated: the flat Monte-Carlo final choice.
pub fn best_candidate(results: &Vec<(Card, usize)>) -> (r: Option<Card>)
    ensures
        match r {
            Some(c) => exists|j: int|
                0 <= j < results@.len() && (#[trigger] results@[j]).0 == c && forall|m: int|
                    0 <= m < results@.len() ==> (#[trigger] results@[m]).1 <= results@[j].1,
            None => results@.len() == 0,
        },
{
    if results.len() == 0 {
        return None;
    }
    let mut best: usize = 0;
    let mut m: usize = 1;
    while m < results.len()
        invariant
            results@.len() > 0,
            best < results@.len(),
            m <= results@.len(),
            forall|j: int| 0 <= j < m ==> (#[trigger] results@[j]).1 <= results@[best as int].1,
        decreases results@.len() - m,
    {
        if results[m].1 > results[best].1 {
            best = m;
        }
        m = m + 1;
    }
    Some(results[best].0)
}

} // verus!
