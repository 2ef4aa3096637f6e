//! A routing core for connectable rectangles: builds a lattice graph around a
//! set of axis-aligned rectangles, attaches connector nodes to each rectangle,
//! and finds a least-cost route between two rectangles while keeping a safety
//! margin away from every rectangle's footprint.

pub mod grid;
pub mod rect;
pub mod search;
