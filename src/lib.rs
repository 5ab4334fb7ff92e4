//! A simulator for how often each space of a forty-space property-trading
//! board is landed on, with doubles, jail and card decks resolved by a
//! verified turn engine.

pub mod board;
pub mod cards;
pub mod player;
pub mod random;
pub mod simulation;
pub mod turn;
