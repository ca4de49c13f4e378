//! A rules engine for the board game Acquire: tile placement, chain founding
//! and mergers, the stock market and the turn-phase state machine.
pub mod agent;
pub mod board;
pub mod chain_cells;
pub mod game;
pub mod laws;
pub mod player;
pub mod random;
pub mod rules;
pub mod text;
