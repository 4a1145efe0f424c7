//! Conversion between units of measurement.
//!
//! A handful of pairwise conversion facts ("one metre is 3.28 feet") is turned
//! into a graph of units; a query then looks for a chain of facts that links
//! two units and threads a value through it.  The graph never interprets a
//! factor: the caller supplies the arithmetic, so the scalar type is free.

pub mod error;
pub mod transform;
pub mod unit_map;
pub mod model;
pub mod graph;
mod search;
pub mod laws;
