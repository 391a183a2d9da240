//! A reactive dependency-graph engine: input cells, compute cells derived from
//! them, and observers that are told when a derived value changes.
//!
//! The engine is made of `cell` (identifiers and cell records), `index` (who
//! reads whom), `model` (the reactor as a mathematical value), `reactor` (the
//! store and the propagation of a change) and `laws` (what follows for the
//! calls of callbacks).
//!
//! Beside it the crate holds a few small utilities, each in a module of its
//! own: `capitalize`, `luhn`, `minesweeper`, `puzzle`, `circular_buffer`,
//! `ring_file`, `records`, `calendar`, `cycle`, `prova`, and the file tree of
//! `tree` and `fs`. `chars` and `clock` hold what they share.

pub mod calendar;
pub mod capitalize;
pub mod cell;
pub mod chars;
pub mod circular_buffer;
pub mod clock;
pub mod cycle;
pub mod fs;
pub mod index;
pub mod laws;
pub mod luhn;
pub mod minesweeper;
pub mod model;
pub mod prova;
pub mod puzzle;
pub mod reactor;
pub mod records;
pub mod ring_file;
pub mod tree;

pub use crate::cell::{
    CallbackId, CellId, ComputeCell, ComputeCellId, InputCell, InputCellId, RemoveCallbackError,
};
pub use crate::reactor::Reactor;
