//! A verified combinatorial generation engine for grid-style logic puzzles:
//! a grid model, geometric relationship predicates, a power-set generator,
//! a connectivity-filtering combine engine, structure operators, and a
//! mixed-radix assignment enumerator.

pub mod dataclass;
pub mod relationship;
pub mod board_validation;
pub mod board;
pub mod function;
pub mod graph;
pub mod predicates;
pub mod cutoff;
pub mod combine;
pub mod operate_structures;
pub mod initialize;
pub mod assignment;
pub mod structure_functions;
