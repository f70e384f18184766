use tarot_engine::card::{Card, Color};
use tarot_engine::engine_error::EngineError;
use tarot_engine::evaluate_hand::{count_points, evaluate_hand, points_threshold};
use tarot_engine::game_state::GameState;
use tarot_engine::game_type::GameType;
use tarot_engine::handfuls::Handfuls;
use tarot_engine::player_game_state::PlayerGameState;
use tarot_engine::shared_game_state::SharedGameState;
use tarot_engine::trick::{PlayedTrick, Trick};

fn c(color: Color, value: u8) -> Card {
    Card::new(color, value).unwrap()
}

#[test]
fn test_point_threshold() {
    assert_eq!(points_threshold(GameType::Petit { chelem: false }), 40)
}

#[test]
fn test_thresholds() {
    let mut hand: Vec<Card> = Vec::new();
    hand.push(Card::new(Color::Diamond, 10).unwrap());
    hand.push(Card::new(Color::Spade, 7).unwrap());
    hand.push(Card::new(Color::Spade, 14).unwrap());
    hand.push(Card::new(Color::Trump, 1).unwrap());
    hand.push(Card::new(Color::Trump, 21).unwrap());
    hand.push(Card::new(Color::Club, 11).unwrap());
    hand.push(Card::new(Color::Trump, 20).unwrap());
    hand.push(Card::new(Color::Trump, 14).unwrap());
    hand.push(Card::new(Color::Trump, 15).unwrap());
    hand.push(Card::new(Color::Diamond, 13).unwrap());
    hand.push(Card::new(Color::Heart, 12).unwrap());
    hand.push(Card::new(Color::Trump, 18).unwrap());
    hand.push(Card::new(Color::Heart, 14).unwrap());
    hand.push(Card::new(Color::Club, 14).unwrap());
    hand.push(Card::new(Color::Diamond, 8).unwrap());
    hand.push(Card::new(Color::Diamond, 12).unwrap());
    hand.push(Card::new(Color::Trump, 19).unwrap());
    hand.push(Card::new(Color::Excuse, 0).unwrap());
    assert_eq!(
        count_points(&PlayerGameState { hand }, GameType::Petit { chelem: false }),
        79
    )
}

#[test]
fn card_point_values() {
    assert_eq!(c(Color::Trump, 1).points(), 9);
    assert_eq!(c(Color::Trump, 21).points(), 9);
    assert_eq!(c(Color::Trump, 10).points(), 1);
    assert_eq!(c(Color::Excuse, 0).points(), 9);
    assert_eq!(c(Color::Heart, 2).points(), 1);
    assert_eq!(c(Color::Heart, 10).points(), 1);
    assert_eq!(c(Color::Heart, 11).points(), 3);
    assert_eq!(c(Color::Heart, 12).points(), 5);
    assert_eq!(c(Color::Heart, 13).points(), 7);
    assert_eq!(c(Color::Spade, 14).points(), 9);
}

#[test]
fn card_validation() {
    assert!(Card::new(Color::Trump, 21).is_ok());
    assert_eq!(
        Card::new(Color::Trump, 22),
        Err(EngineError::InvalidCardValue(22))
    );
    assert_eq!(
        Card::new(Color::Trump, 0),
        Err(EngineError::InvalidCardValue(0))
    );
    assert_eq!(
        Card::new(Color::Heart, 15),
        Err(EngineError::InvalidCardValue(15))
    );
    assert!(Card::new(Color::Excuse, 0).is_ok());
    assert_eq!(
        Card::new(Color::Excuse, 1),
        Err(EngineError::InvalidCardValue(1))
    );
}

#[test]
fn full_deck_has_78_distinct_cards() {
    let deck = Card::all_possibles();
    assert_eq!(deck.len(), 78);
    for i in 0..deck.len() {
        for j in 0..i {
            assert_ne!(deck[i], deck[j]);
        }
    }
    let trumps = deck.iter().filter(|card| card.color == Color::Trump).count();
    assert_eq!(trumps, 21);
    let excuses = deck.iter().filter(|card| card.color == Color::Excuse).count();
    assert_eq!(excuses, 1);
}

#[test]
fn trump_beats_led_suit() {
    // leader plays Spade-5, next Spade-10, next Trump-3, next Spade-King:
    // the lowly trump takes the trick
    let mut trick = Trick::new(0);
    trick.play_card(0, &c(Color::Spade, 5)).unwrap();
    trick.play_card(1, &c(Color::Spade, 10)).unwrap();
    trick.play_card(2, &c(Color::Trump, 3)).unwrap();
    trick.play_card(3, &c(Color::Spade, 14)).unwrap();
    assert_eq!(trick.winner().unwrap(), 2);
}

#[test]
fn excuse_led_sets_suit_from_second_card() {
    // the Excuse, when led, does not fix the led suit: the second card does
    let mut trick = Trick::new(0);
    trick.play_card(0, &c(Color::Excuse, 0)).unwrap();
    trick.play_card(1, &c(Color::Heart, 7)).unwrap();
    assert_eq!(trick.color(), Some(Color::Heart));
    trick.play_card(2, &c(Color::Heart, 13)).unwrap();
    trick.play_card(3, &c(Color::Heart, 2)).unwrap();
    // the Excuse never wins a full trick; the highest heart does
    let winner = trick.winner().unwrap();
    assert_eq!(winner, 2);
    assert_ne!(winner, 0);
}

#[test]
fn excuse_led_then_trump_takes_the_trick() {
    // leader plays the Excuse, hearts follow, and a trump played last
    // still beats the established heart suit
    let mut trick = Trick::new(0);
    trick.play_card(0, &c(Color::Excuse, 0)).unwrap();
    trick.play_card(1, &c(Color::Heart, 7)).unwrap();
    trick.play_card(2, &c(Color::Heart, 14)).unwrap();
    trick.play_card(3, &c(Color::Trump, 1)).unwrap();
    assert_eq!(trick.color(), Some(Color::Heart));
    let winner = trick.winner().unwrap();
    assert_eq!(winner, 3);
    assert_ne!(winner, 0);
}

#[test]
fn trick_points_sum() {
    // Trump-1, Trump-21, Excuse and Heart-2 together are worth 28
    let mut trick = Trick::new(0);
    trick.play_card(0, &c(Color::Trump, 1)).unwrap();
    trick.play_card(1, &c(Color::Trump, 21)).unwrap();
    trick.play_card(2, &c(Color::Excuse, 0)).unwrap();
    trick.play_card(3, &c(Color::Heart, 2)).unwrap();
    assert_eq!(trick.points(), 28);
    let played = trick.into_played().unwrap();
    assert_eq!(played.points(), 28);
}

#[test]
fn trick_rejects_out_of_order_and_overflow() {
    let mut trick = Trick::new(1);
    assert_eq!(
        trick.play_card(0, &c(Color::Spade, 5)),
        Err(EngineError::OutOfOrderPlay)
    );
    trick.play_card(1, &c(Color::Spade, 5)).unwrap();
    trick.play_card(2, &c(Color::Spade, 6)).unwrap();
    trick.play_card(3, &c(Color::Spade, 7)).unwrap();
    assert_eq!(trick.next_to_play(), Some(0));
    trick.play_card(0, &c(Color::Spade, 8)).unwrap();
    assert_eq!(trick.next_to_play(), None);
    assert_eq!(
        trick.play_card(1, &c(Color::Spade, 9)),
        Err(EngineError::FinishedHand)
    );
}

#[test]
fn empty_trick_has_no_winner() {
    let trick = Trick::new(2);
    assert_eq!(trick.winner(), Err(EngineError::NotBegunHand));
    assert_eq!(trick.into_played().unwrap_err(), EngineError::UnfinishedHand);
}

#[test]
fn follow_suit_is_enforced() {
    let mut trick = Trick::new(0);
    trick.play_card(0, &c(Color::Heart, 5)).unwrap();
    let hand = PlayerGameState {
        hand: vec![c(Color::Heart, 9), c(Color::Spade, 3), c(Color::Trump, 2)],
    };
    assert_eq!(
        hand.allowed_to_play(&c(Color::Spade, 3), &trick),
        Err(EngineError::HasToFollowSuit)
    );
    assert_eq!(
        hand.allowed_to_play(&c(Color::Trump, 2), &trick),
        Err(EngineError::HasToFollowSuit)
    );
    assert!(hand.allowed_to_play(&c(Color::Heart, 9), &trick).is_ok());
    assert_eq!(
        hand.allowed_to_play(&c(Color::Club, 4), &trick),
        Err(EngineError::DoesNotHaveCard)
    );
}

#[test]
fn void_seat_must_trump_and_overtrump() {
    let mut trick = Trick::new(0);
    trick.play_card(0, &c(Color::Heart, 5)).unwrap();
    trick.play_card(1, &c(Color::Trump, 10)).unwrap();
    let hand = PlayerGameState {
        hand: vec![c(Color::Spade, 3), c(Color::Trump, 4), c(Color::Trump, 12)],
    };
    // void in hearts: a plain discard is illegal while trumps remain
    assert_eq!(
        hand.allowed_to_play(&c(Color::Spade, 3), &trick),
        Err(EngineError::HasToTrump)
    );
    // holding a trump able to beat the 10, the lower trump is illegal
    assert_eq!(
        hand.allowed_to_play(&c(Color::Trump, 4), &trick),
        Err(EngineError::HasToOvertrump)
    );
    assert!(hand.allowed_to_play(&c(Color::Trump, 12), &trick).is_ok());
}

#[test]
fn excuse_is_always_legal() {
    let mut trick = Trick::new(0);
    trick.play_card(0, &c(Color::Heart, 5)).unwrap();
    let hand = PlayerGameState {
        hand: vec![c(Color::Heart, 9), c(Color::Excuse, 0)],
    };
    assert!(hand.allowed_to_play(&c(Color::Excuse, 0), &trick).is_ok());
    let allowed = hand.cards_allowed(&trick);
    assert_eq!(allowed.len(), 2);
}

#[test]
fn undertrump_allowed_when_unable_to_overtrump() {
    let mut trick = Trick::new(0);
    trick.play_card(0, &c(Color::Heart, 5)).unwrap();
    trick.play_card(1, &c(Color::Trump, 20)).unwrap();
    let hand = PlayerGameState {
        hand: vec![c(Color::Trump, 4), c(Color::Trump, 8)],
    };
    assert!(hand.allowed_to_play(&c(Color::Trump, 4), &trick).is_ok());
    assert!(hand.allowed_to_play(&c(Color::Trump, 8), &trick).is_ok());
}

#[test]
fn bidding_must_strictly_raise() {
    let mut shared = SharedGameState::initialize(0);
    assert!(shared.bid(1, None).is_ok());
    assert_eq!(shared.taker, None);
    assert!(shared
        .bid(1, Some(GameType::Garde { chelem: false }))
        .is_ok());
    assert_eq!(shared.taker, Some(1));
    assert_eq!(
        shared.bid(2, Some(GameType::Garde { chelem: false })),
        Err(EngineError::InvalidBid)
    );
    assert_eq!(
        shared.bid(2, Some(GameType::Petit { chelem: false })),
        Err(EngineError::InvalidBid)
    );
    assert!(shared
        .bid(2, Some(GameType::GardeSans { chelem: false }))
        .is_ok());
    assert_eq!(shared.taker, Some(2));
    assert_eq!(
        shared.game_type,
        Some(GameType::GardeSans { chelem: false })
    );
}

#[test]
fn game_type_levels() {
    assert_eq!(GameType::Petit { chelem: false }.hand_points_multiplier(), 1);
    assert_eq!(GameType::Garde { chelem: false }.hand_points_multiplier(), 2);
    assert_eq!(GameType::GardeSans { chelem: false }.hand_points_multiplier(), 4);
    assert_eq!(GameType::GardeContre { chelem: false }.hand_points_multiplier(), 6);
    assert!(!GameType::Petit { chelem: false }.kitty_should_be_revealed());
    assert!(!GameType::Garde { chelem: false }.kitty_should_be_revealed());
    assert!(GameType::GardeSans { chelem: false }.kitty_should_be_revealed());
    assert!(GameType::GardeContre { chelem: false }.kitty_should_be_revealed());
}

#[test]
fn handful_tables() {
    assert_eq!(Handfuls::Simple.points(), 20);
    assert_eq!(Handfuls::Double.points(), 40);
    assert_eq!(Handfuls::Triple.points(), 60);
    assert_eq!(Handfuls::Simple.trumps_required(), 10);
    assert_eq!(Handfuls::Double.trumps_required(), 13);
    assert_eq!(Handfuls::Triple.trumps_required(), 15);
}

#[test]
fn random_deal_partitions_the_deck() {
    let gs = GameState::random_init().unwrap();
    let mut all: Vec<Card> = Vec::new();
    for p in 0..4 {
        assert_eq!(gs.players_state[p].hand.len(), 18);
        all.extend_from_slice(&gs.players_state[p].hand);
    }
    all.extend_from_slice(&gs.kitty);
    assert_eq!(all.len(), 78);
    for i in 0..all.len() {
        for j in 0..i {
            assert_ne!(all[i], all[j]);
        }
    }
}

#[test]
fn play_card_moves_a_card_and_finishes_tricks() {
    let mut gs = GameState::random_init().unwrap();
    for _ in 0..4 {
        let p = gs.shared_state.next_to_play().unwrap();
        let allowed = gs.cards_allowed(p);
        assert!(!allowed.is_empty());
        let card = allowed[0];
        gs.play_card(p, &card).unwrap();
        assert!(!gs.players_state[p as usize].hand.contains(&card));
    }
    assert_eq!(gs.shared_state.played_tricks.len(), 1);
    assert!(gs.shared_state.current_trick.is_none());
    assert_eq!(gs.shared_state.cards_left_to_play().len(), 74);
}

#[test]
fn rejected_play_changes_nothing() {
    let mut gs = GameState::random_init().unwrap();
    let p = gs.shared_state.next_to_play().unwrap();
    let wrong_seat = (p + 1) % 4;
    let card = gs.players_state[wrong_seat as usize].hand[0];
    let before: Vec<Card> = gs.players_state[wrong_seat as usize].hand.clone();
    assert_eq!(
        gs.play_card(wrong_seat, &card),
        Err(EngineError::OutOfOrderPlay)
    );
    assert_eq!(gs.players_state[wrong_seat as usize].hand, before);
    assert_eq!(gs.shared_state.played_tricks.len(), 0);
}

#[test]
fn derived_constraints_from_a_discard() {
    // seat 1 discarded a spade on a led heart: it is void in hearts and
    // holds no trump at all
    let played = PlayedTrick {
        cards: [
            c(Color::Heart, 5),
            c(Color::Spade, 2),
            c(Color::Heart, 10),
            c(Color::Heart, 14),
        ],
        leader: 0,
        winner: 3,
    };
    assert_eq!(played.color(), Color::Heart);
    assert!(played.did_not_have_color(1));
    assert!(!played.did_not_have_color(0));
    assert!(!played.did_not_have_color(2));
    assert_eq!(played.did_not_have_trump_higher(1), Some(0));
    assert_eq!(played.did_not_have_trump_higher(0), None);
}

#[test]
fn derived_constraints_from_an_undertrump() {
    // seat 2, void in hearts, played a trump below seat 1's: it holds no
    // trump above rank 10
    let played = PlayedTrick {
        cards: [
            c(Color::Heart, 5),
            c(Color::Trump, 10),
            c(Color::Trump, 4),
            c(Color::Heart, 14),
        ],
        leader: 0,
        winner: 1,
    };
    assert_eq!(played.did_not_have_trump_higher(2), Some(10));
    assert_eq!(played.did_not_have_trump_higher(1), None);
    assert!(played.did_not_have_color(2));
}

#[test]
fn weak_hand_passes() {
    let hand: Vec<Card> = (1..=14)
        .map(|v| c(Color::Diamond, v))
        .chain((1..=4).map(|v| c(Color::Club, v)))
        .collect();
    let state = PlayerGameState { hand };
    assert_eq!(evaluate_hand(&state), None);
    assert!(count_points(&state, GameType::Petit { chelem: false }) < 40);
}

#[test]
fn rejected_aside_changes_nothing() {
    let mut state = PlayerGameState {
        hand: vec![
            c(Color::Heart, 1),
            c(Color::Heart, 2),
            c(Color::Heart, 3),
            c(Color::Heart, 4),
            c(Color::Heart, 5),
            c(Color::Heart, 6),
            c(Color::Heart, 7),
        ],
    };
    let before = state.hand.clone();
    // a card not held is rejected without touching the hand
    let missing = [
        c(Color::Heart, 1),
        c(Color::Heart, 2),
        c(Color::Heart, 3),
        c(Color::Heart, 4),
        c(Color::Heart, 5),
        c(Color::Spade, 9),
    ];
    assert_eq!(
        state.chose_aside(&missing),
        Err(EngineError::DoesNotHaveCard)
    );
    assert_eq!(state.hand, before);
    // a duplicated card is rejected without touching the hand
    let doubled = [
        c(Color::Heart, 1),
        c(Color::Heart, 1),
        c(Color::Heart, 2),
        c(Color::Heart, 3),
        c(Color::Heart, 4),
        c(Color::Heart, 5),
    ];
    assert_eq!(
        state.chose_aside(&doubled),
        Err(EngineError::DoesNotHaveCard)
    );
    assert_eq!(state.hand, before);
    // a valid choice removes exactly the six cards
    let good = [
        c(Color::Heart, 1),
        c(Color::Heart, 2),
        c(Color::Heart, 3),
        c(Color::Heart, 4),
        c(Color::Heart, 5),
        c(Color::Heart, 6),
    ];
    assert_eq!(state.chose_aside(&good), Ok(()));
    assert_eq!(state.hand, vec![c(Color::Heart, 7)]);
}
