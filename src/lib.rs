//! An unbounded Game of Life grid made of lazily created square chunks.
//!
//! `universe::Universe::execute_actions` drains a queue of work and swaps the
//! cell buffers; its contract (`drain::drained`) covers any queue whose
//! evaluations name existing chunks. `universe::Universe::step` queues every
//! chunk and runs it: its contract (`grid::stepped`) says that every cell follows
//! Conway's rule applied to the previous generation, and that chunks are created
//! exactly where a live cell has a neighbour in a missing one. `laws` proves properties of
//! that contract and of chunk creation.

pub mod action;
pub mod chunk;
pub mod drain;
pub mod grid;
pub mod laws;
pub mod resolver;
pub mod universe;
