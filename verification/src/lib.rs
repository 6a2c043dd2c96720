// Verified rule engine for an 8x8 two-color disk-flipping board game:
// cell storage, the eight-direction line-scan that decides move legality,
// and the flip-application logic, each with a full functional contract.

pub mod disk;
pub mod errors;
pub mod position;
pub mod ray;
pub mod counting;
pub mod board;
pub mod laws;
pub mod game;
