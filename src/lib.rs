//! Zjvoltis: the board and its move rules, position hashing, and an
//! alpha-beta search.
pub mod minimax;
pub mod zjvoltis;
pub mod zobrist;
