//! A graph of measurement units joined by pairwise conversion rules.
//!
//! Units are registered with their aliases, conversion edges are inserted in
//! both directions at once, and a breadth-first search finds the chain of
//! edges that leads from one unit to another. The numeric factors of the
//! edges are held by the caller under keys that the graph stores and hands
//! back along a path.

pub mod error;
pub mod unit;
pub mod graph;
