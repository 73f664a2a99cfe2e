//! A Minesweeper solver that plays by pure logical deduction.
//!
//! `game` holds the board: the hidden solution and the player-visible grid,
//! with reveal (flood fill), flag and neighborhood queries. `group` holds the
//! constraint type "exactly `mines` of these `unknowns` cells are mines" and
//! the lemmas that justify each deduction rule. `player` holds the inference
//! engine: a fixed-point sweep that derives constraints from revealed numbered
//! cells and issues reveal/flag commands back to the board.

pub mod game;
pub mod group;
pub mod player;
pub mod square;
