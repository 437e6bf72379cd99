//! Verified serialization engine for the binary save files of a role-playing
//! game trilogy.
//!
//! The engine decodes a save buffer into a navigable object graph (a name
//! table, an object table, per-object property blocks, and a plot-state
//! table) and re-encodes the graph byte-faithfully: a graph that was decoded
//! and not edited serializes back to exactly the bytes it came from.

pub mod cursor;
pub mod data;
pub mod error;
pub mod plot;
pub mod record;
pub mod save;
