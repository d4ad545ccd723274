//! A generalized connect-style board game engine: an m x n grid with
//! gravity-driven column insertion, a win condition of k same-colour tokens in
//! a line, an incrementally maintained positional score, alpha-beta search,
//! and a plain-text serialization of positions.
//!
//! The running score is the library's centre: `game::Game` keeps, for every
//! ply, a snapshot that provably equals `board::spec_score` of the grid — the
//! sum of per-window values over every k-cell window of every line — so undo
//! restores it exactly by popping, a nonzero top bucket really is a completed
//! k-in-a-row, and any two move orders reaching the same grid carry the same
//! score.

pub mod color;
pub mod score;
pub mod scoring;
pub mod board;
pub mod game;
pub mod search;
pub mod serial;
