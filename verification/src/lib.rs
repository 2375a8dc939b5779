//! The core of a Shogi legal-move generator: a two-lane bitboard for the 9x9
//! board, precomputed attack tables — per-square step attacks, a file-indexed
//! lance table, and occupancy-indexed sliding tables for bishop and rook — a
//! between table for pin and evasion logic, and the generator that combines
//! them into the legal moves of a position.

pub mod attacks;
pub mod between;
pub mod bitboard;
pub mod bits;
pub mod laws;
pub mod movegen;
pub mod position;
pub mod tables;
pub mod types;
