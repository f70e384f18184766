use tarot_engine::analysis_error::AnalysisError;
use tarot_engine::engine_error::EngineError;
use tarot_engine::handfuls::{HandfulDeclaration, Handfuls};
use tarot_engine::card::{Card, Color};
use tarot_engine::game_state::GameState;
use tarot_engine::game_type::GameType;
use tarot_engine::known_game_state::KnownGameState;
use tarot_engine::mcts::MCTSNode;
use tarot_engine::monte_carlo::{best_candidate, monte_carlo_trial};
use tarot_engine::player::{Player, Random};
use tarot_engine::playout::simulate_random_playout;
use tarot_engine::tarot::Tarot;

/// A deterministic strategy for match tests: it bids the lowest level once
/// and then passes, and always plays its first legal card.
struct FirstLegal {}

impl Player for FirstLegal {
    fn play_a_card(&mut self, game_state: &KnownGameState) -> Result<Card, AnalysisError> {
        let trick = match &game_state.shared_state.current_trick {
            Some(t) => *t,
            None => return Err(AnalysisError::NoCardToPlay),
        };
        let allowed = game_state.player_state.cards_allowed(&trick);
        if allowed.is_empty() {
            Err(AnalysisError::NoCardToPlay)
        } else {
            Ok(allowed[0])
        }
    }

    fn bid(&self, game_state: &KnownGameState) -> Result<Option<GameType>, AnalysisError> {
        if game_state.shared_state.game_type.is_none() {
            Ok(Some(GameType::Petit { chelem: false }))
        } else {
            Ok(None)
        }
    }
}

#[test]
fn playout_reaches_a_finished_match() {
    let mut gs = GameState::random_init().unwrap();
    let score = simulate_random_playout(&mut gs).unwrap();
    assert_eq!(gs.shared_state.played_tricks.len(), 18);
    assert!(score <= 35352);
    for p in 0..4 {
        assert!(gs.players_state[p].hand.is_empty());
    }
}

#[test]
fn projection_is_idempotent() {
    let gs = GameState::random_init().unwrap();
    let k1 = KnownGameState::from_omniscient(&gs, 2);
    let k2 = KnownGameState::from_omniscient(&gs, 2);
    assert_eq!(k1.player_index, k2.player_index);
    assert_eq!(k1.player_state.hand, k2.player_state.hand);
    assert_eq!(k1.kitty, k2.kitty);
    assert_eq!(k1.shared_state.dealer, k2.shared_state.dealer);
    assert_eq!(k1.shared_state.taker, k2.shared_state.taker);
    assert_eq!(k1.shared_state.game_type, k2.shared_state.game_type);
    assert_eq!(
        k1.shared_state.played_tricks.len(),
        k2.shared_state.played_tricks.len()
    );
    // the projection hides the kitty while no contract reveals it
    assert!(k1.kitty.is_none());
    assert_eq!(k1.player_state.hand, gs.players_state[2].hand);
}

#[test]
fn unconstrained_determinization_rebuilds_a_full_deal() {
    let gs = GameState::random_init().unwrap();
    let known = KnownGameState::from_omniscient(&gs, 0);
    let full = known.possible_random_full_state().unwrap();
    // the viewer's own hand is preserved
    assert_eq!(full.players_state[0].hand, gs.players_state[0].hand);
    // the rebuilt deal partitions the deck again
    let mut all: Vec<Card> = Vec::new();
    for p in 0..4 {
        assert_eq!(full.players_state[p].hand.len(), 18);
        all.extend_from_slice(&full.players_state[p].hand);
    }
    all.extend_from_slice(&full.kitty);
    assert_eq!(all.len(), 78);
    for i in 0..all.len() {
        for j in 0..i {
            assert_ne!(all[i], all[j]);
        }
    }
}

#[test]
fn constrained_determinization_respects_constraints() {
    let mut gs = GameState::random_init().unwrap();
    // play two full tricks at random to create history
    for _ in 0..8 {
        let p = gs.shared_state.next_to_play().unwrap();
        let allowed = gs.cards_allowed(p);
        gs.play_card(p, &allowed[0]).unwrap();
    }
    let known = KnownGameState::from_omniscient(&gs, 1);
    let full = known.possible_random_full_state_v2().unwrap();
    assert_eq!(full.players_state[1].hand, gs.players_state[1].hand);
    assert_eq!(
        full.shared_state.played_tricks.len(),
        gs.shared_state.played_tricks.len()
    );
    // every reconstructed hand obeys the derived voids and ceilings
    for p in 0..4usize {
        let ct = known.get_known_constraints(p).unwrap();
        assert_eq!(full.players_state[p].hand.len(), ct.number_cards);
        if p != 1 {
            for card in full.players_state[p].hand.iter() {
                let known_card = ct.known_cards.contains(card);
                if !known_card {
                    assert!(!ct.voided_colors.contains(&card.color));
                    if card.color == Color::Trump {
                        assert!(card.value <= ct.highest_trump);
                    }
                }
            }
        }
    }
    // the rebuilt deal still partitions the deck, history included
    let mut all: Vec<Card> = Vec::new();
    for p in 0..4 {
        all.extend_from_slice(&full.players_state[p].hand);
    }
    all.extend_from_slice(&full.kitty);
    for pt in full.shared_state.played_tricks.iter() {
        all.extend_from_slice(&pt.cards);
    }
    assert_eq!(all.len(), 78);
    for i in 0..all.len() {
        for j in 0..i {
            assert_ne!(all[i], all[j]);
        }
    }
}

#[test]
fn monte_carlo_trial_scores_a_legal_candidate() {
    let mut gs = GameState::random_init().unwrap();
    // open the first trick so the seat to act faces a trick in progress
    let leader = gs.shared_state.next_to_play().unwrap();
    let card = gs.cards_allowed(leader)[0];
    gs.play_card(leader, &card).unwrap();
    let p = gs.shared_state.next_to_play().unwrap();
    let known = KnownGameState::from_omniscient(&gs, p);
    let trick = known.shared_state.current_trick.unwrap();
    let candidate = known.player_state.cards_allowed(&trick)[0];
    let score = monte_carlo_trial(&known, &candidate).unwrap();
    assert!(score <= 35352);
}

#[test]
fn best_candidate_picks_the_highest_average() {
    let results = vec![
        (Card::new(Color::Heart, 3).unwrap(), 120),
        (Card::new(Color::Trump, 9).unwrap(), 310),
        (Card::new(Color::Spade, 11).unwrap(), 200),
    ];
    assert_eq!(best_candidate(&results), Some(Card::new(Color::Trump, 9).unwrap()));
    let empty: Vec<(Card, usize)> = Vec::new();
    assert_eq!(best_candidate(&empty), None);
}

#[test]
fn mcts_node_expansion_and_backpropagation() {
    let gs = GameState::random_init().unwrap();
    let mut root = MCTSNode::new(gs);
    assert_eq!(root.visits, 0);
    assert_eq!(root.total_score, 0);
    let (card, mut child) = root.expand().unwrap();
    assert!(!root.has_child(&card));
    let reward = simulate_random_playout(&mut child.state).unwrap();
    child.backpropagate(reward);
    assert_eq!(child.visits, 1);
    assert_eq!(child.total_score, reward);
    root.children.push((card, child));
    assert!(root.has_child(&card));
    // a second expansion picks a different untried move
    let (card2, _) = root.expand().unwrap();
    assert_ne!(card, card2);
}

#[test]
fn random_player_plays_a_legal_card() {
    let mut gs = GameState::random_init().unwrap();
    let leader = gs.shared_state.next_to_play().unwrap();
    let card = gs.cards_allowed(leader)[0];
    gs.play_card(leader, &card).unwrap();
    let p = gs.shared_state.next_to_play().unwrap();
    let known = KnownGameState::from_omniscient(&gs, p);
    let mut random = Random {};
    let chosen = random.play_a_card(&known).unwrap();
    assert!(gs.cards_allowed(p).contains(&chosen));
}

#[test]
fn full_match_with_deterministic_players() {
    let players = [
        FirstLegal {},
        FirstLegal {},
        FirstLegal {},
        FirstLegal {},
    ];
    let mut game = Tarot::initialize(players).unwrap();
    let score = game.play().unwrap();
    assert_eq!(game.state.shared_state.played_tricks.len(), 18);
    assert!(score <= 35352);
    assert!(game.state.shared_state.taker.is_some());
    assert_eq!(
        game.state.shared_state.game_type,
        Some(GameType::Petit { chelem: false })
    );
}

#[test]
fn exchange_kitty_swaps_six_cards() {
    let mut gs = GameState::random_init().unwrap();
    let taker: u8 = 0;
    let old_kitty = gs.kitty;
    // set aside three hand cards and three kitty cards
    let aside = [
        gs.players_state[0].hand[0],
        gs.players_state[0].hand[1],
        gs.players_state[0].hand[2],
        old_kitty[0],
        old_kitty[1],
        old_kitty[2],
    ];
    gs.exchange_kitty(taker, &aside).unwrap();
    assert_eq!(gs.kitty, aside);
    assert_eq!(gs.players_state[0].hand.len(), 18);
    for card in aside.iter() {
        assert!(!gs.players_state[0].hand.contains(card));
    }
    assert!(gs.players_state[0].hand.contains(&old_kitty[3]));
    // a duplicated choice is rejected without damage
    let before = gs.players_state[0].hand.clone();
    let h = &gs.players_state[0].hand;
    let bad = [h[0], h[0], h[1], h[2], h[3], h[4]];
    assert!(gs.exchange_kitty(taker, &bad).is_err());
    assert_eq!(gs.players_state[0].hand, before);
}

#[test]
fn projection_reveals_the_kitty_under_high_contracts() {
    let mut gs = GameState::random_init().unwrap();
    gs.shared_state
        .bid(1, Some(GameType::GardeSans { chelem: false }))
        .unwrap();
    let known = KnownGameState::from_omniscient(&gs, 3);
    assert_eq!(known.kitty, Some(gs.kitty));
    assert_eq!(known.shared_state.taker, Some(1));
}

#[test]
fn overtight_constraints_are_reported() {
    let gs = GameState::random_init().unwrap();
    let mut known = KnownGameState::from_omniscient(&gs, 0);
    // a handful claiming a trump the viewer itself holds is impossible
    let own_trump = known
        .player_state
        .hand
        .iter()
        .copied()
        .find(|card| card.color == Color::Trump);
    if let Some(card) = own_trump {
        known.shared_state.declared_handfuls[1] = Some(HandfulDeclaration {
            handful: Handfuls::Simple,
            cards: vec![card],
        });
        assert_eq!(
            known.possible_random_full_state_v2().unwrap_err(),
            EngineError::HandGenerationNotPossible
        );
    }
}

#[test]
fn expansion_stops_when_every_move_is_tried() {
    let mut gs = GameState::random_init().unwrap();
    // play the match down to the last trick to keep legal moves few
    while gs.shared_state.played_tricks.len() < 17 {
        let p = gs.shared_state.next_to_play().unwrap();
        let allowed = gs.cards_allowed(p);
        gs.play_card(p, &allowed[0]).unwrap();
    }
    let mut node = MCTSNode::new(gs);
    let mut expanded = 0;
    loop {
        match node.expand() {
            Ok((card, child)) => {
                node.children.push((card, child));
                expanded += 1;
            }
            Err(e) => {
                assert_eq!(e, AnalysisError::AnalysisFinished);
                break;
            }
        }
    }
    // the seat to lead the last trick holds exactly one card
    assert_eq!(expanded, 1);
    // a terminal snapshot cannot be expanded at all
    let mut done = node.children.remove(0).1;
    let _ = simulate_random_playout(&mut done.state);
    let mut terminal = MCTSNode::new(done.state);
    assert_eq!(terminal.expand().unwrap_err(), AnalysisError::AnalysisFinished);
}
