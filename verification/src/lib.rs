//! A bitboard chess engine core: attack tables, a reversible position model
//! with incrementally maintained hash keys, a pseudo-legal move generator and
//! an iterative-deepening alpha-beta search.

pub mod atktbl;
pub mod attack;
pub mod bitbrd;
pub mod defs;
pub mod eval;
pub mod fen;
pub mod geometry;
pub mod magics;
pub mod mirror;
pub mod mkmv;
pub mod model;
pub mod movgen;
pub mod perft;
pub mod piece;
pub mod pos;
pub mod pvtable;
pub mod quiet;
pub mod search;
pub mod text;
pub mod uci;
pub mod zobrist;
