//! Chess tournament management: players, rounds, games and byes, their
//! text codes, the tournament report (TRF) lines, the starting ranking,
//! and the turning of a pairing engine's output into games and byes.
pub mod text;
pub mod models;
pub mod utils;
pub mod pairing;
pub mod trf;
pub mod types;
