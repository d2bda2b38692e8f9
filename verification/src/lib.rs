//! Core of a turn-based, grid-based territory-conquest game: a square board
//! of spaces with owners and army counts, agents that propose one move per
//! turn, and a resolver that validates and applies those moves, applies the
//! growth rule, and detects elimination and victory.
//!
//! Everything here is pure state transformation; the surrounding process
//! (agent transport, snapshot broadcast, pacing) lives outside the library
//! and drives it through `GameState`. The `laws` module states and proves
//! the rules the simulation is held to: rejection of illegal moves, order
//! independence, army conservation, fixed terrain, and elimination being
//! final.

pub mod board;
pub mod laws;
pub mod model;
pub mod resolver;
pub mod state;
