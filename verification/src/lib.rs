//! A two-player chess rules engine.
//!
//! The engine owns the board state, enforces per-piece movement legality,
//! applies moves, tracks whose turn it is, and detects check, checkmate and
//! stalemate. It is meant to be driven by an external presentation layer
//! (CLI, GUI, network peer) through a small API: start a game, ask for the
//! legal destinations of a square, submit a move, query the game phase, and
//! choose a pawn-promotion piece.
//!
//! Castling and en passant are not implemented; a pawn promotes to the
//! piece chosen beforehand through [`Game::set_promotion`]. Board rendering
//! is left to the caller, who can read the board square by square.

pub mod board;
pub mod codec;
pub mod game;
pub mod legal;
pub mod moves;

pub use board::{Board, ChessError, Color, Piece, PieceType};
pub use codec::{format_coord, parse_coord};
pub use game::{Game, GameState};
