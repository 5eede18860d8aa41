//! A two-state cellular automaton of the family of Conway's Game of Life, on a sparse
//! lattice of machine coordinates.
//!
//! * [`rules`] says how a cell's next state follows from its state and its live
//!   neighbours.
//! * [`lattice`] is the mathematics that the contracts speak of: points, rectangles,
//!   neighbourhoods, candidates and the generation step. [`classics`] proves what the
//!   step makes of a lone cell, a block and a blinker.
//! * [`board`] is the sparse board, a two-way index between coordinates and cell
//!   handles inside a bounding rectangle that only grows. Its two hash maps stand in
//!   [`index`].
//! * [`life`] is the colony: a board, the cells' states and the rules. [`engine`] steps
//!   it from one generation to the next, in two phases.
//! * [`playback`] decides when a generation is due, and [`game`] puts a colony under
//!   its control.
//! * [`pattern`] lays seed patterns on the lattice; [`cells`] and [`rle`] read them
//!   from the bytes of two text formats, with the help of [`text`].

pub mod board;
pub mod cells;
pub mod classics;
pub mod engine;
pub mod game;
pub mod index;
pub mod lattice;
pub mod life;
pub mod pattern;
pub mod playback;
pub mod rle;
pub mod rules;
pub mod text;
