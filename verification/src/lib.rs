//! A Minesweeper board: lazy mine placement, flood-fill reveal, flags and
//! win/loss detection, with every rule stated as a contract and proved.

pub mod board;
pub mod cell;
pub mod flood;
pub mod grid;
pub mod laws;
pub mod model;
pub mod position_set;
pub mod random;
pub mod sampler;
