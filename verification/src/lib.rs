//! Search and replay for self-play on the 5x5 shogi board.
//!
//! The search is a Monte-Carlo tree search over an arena of nodes that is
//! allocated once: `tree` holds the arena and its invariant, `root` clears the
//! tree and moves its root, `select` descends to a leaf, `expand` evaluates the
//! leaf, `backup` carries its value back to the root, and `laws` states what
//! holds over whole playouts. `dump`, `report`, `noise` and `sample` read the
//! result of a search or prepare one.
//!
//! The replay side keeps the records of the last games in `reservoir` and draws
//! training positions from them; `training` and `planes` lay out the targets
//! and the inputs of the network.
//!
//! Values and probabilities are fixed-point numbers, see `fixed`. What is
//! real-valued by nature, the finite part of a selection score and the weight
//! of a visit count, is computed by functions that the caller passes in.

pub mod fixed;
pub mod types;
pub mod moves;
pub mod node;
pub mod tree;
pub mod root;
pub mod select;
pub mod expand;
pub mod backup;
pub mod laws;
pub mod dump;
pub mod report;
pub mod noise;
pub mod sample;
pub mod record;
pub mod reservoir;
pub mod training;
pub mod planes;
