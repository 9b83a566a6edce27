//! Rules and position engine for a nine-by-nine capture-and-reuse board game:
//! bitboard primitives, attack tables, magic-indexed slider attacks, the position
//! with its reserves, pseudo-legal move generation and attack detection, and the
//! text record of a position.

pub mod attacks;
pub mod bits;
pub mod board;
pub mod consts;
pub mod magics;
pub mod movegen;
pub mod moves;
pub mod notation;
pub mod perft;
pub mod ray;
pub mod symmetry;
