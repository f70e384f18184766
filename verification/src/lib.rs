pub mod analysis_error;
pub mod business_error;
pub mod card;
pub mod engine_error;
pub mod evaluate_hand;
pub mod game_type;
pub mod handfuls;
pub mod known_game_state;
pub mod mcts;
pub mod monte_carlo;
pub mod trick;
pub mod game_state;
pub mod player;
pub mod player_game_state;
pub mod playout;
pub mod presentation;
pub mod rng;
pub mod shared_game_state;
pub mod tarot;
pub mod vec_util;
