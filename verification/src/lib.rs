//! A verified maze core: a rectangular wall grid with one stored bit per
//! internal edge, a seeded recursive-backtracking generator whose output is
//! a pure function of `(width, height, seed, start)`, and the hex rendering
//! of the 16-byte seed used to record how a maze came to be.
//!
//! Generation is proved to produce a perfect maze: exactly
//! `width * height - 1` internal edges are opened and every cell is
//! reachable from the entry through the opened edges, while every boundary
//! edge stays walled.

pub mod square_maze;
pub mod gen;
pub mod meta;
pub mod render;
