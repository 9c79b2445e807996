//! A falling-block puzzle engine together with an automatic player.
//!
//! The crate is split into the board engine (`field`, `game`), which owns
//! the grid and the piece lifecycle (spawn, fall, lock, line clear,
//! respawn), and the move search (`ai`), which enumerates candidate
//! placements on cloned grids and scores them with a weighted heuristic.
//! `pieces` holds the seven tetromino masks and the rotation index
//! transform both halves share, so the engine and the search agree on every
//! placement.
//!
//! Two design points worth knowing up front:
//!
//! - Heuristic scores are exact fixed-point integers (scale one million),
//!   so candidate comparisons, and with them the chosen move, are exact and
//!   reproducible; see [`ai::Weights`].
//! - The first and next piece are injected into [`game::GameState::new`],
//!   so tests can fix them; only the draw of each later piece reaches for
//!   randomness, and nothing beyond its range `0..7` is assumed of it.

pub mod ai;
pub mod field;
pub mod game;
pub mod pieces;
mod rng;
