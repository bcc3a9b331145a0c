pub mod board;
pub mod card;
pub mod game;
pub mod state;
pub mod text;
pub mod proto;
pub mod players;
pub mod stats;
pub mod local;
pub mod session;
pub mod random;
pub mod deck_builder;
pub mod mcts;
