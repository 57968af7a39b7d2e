//! A correctness-first SAT core for digital logic circuits.
//!
//! A circuit, given as primitive boolean gates over numbered wires, is
//! encoded as a CNF formula; a DPLL backtracking search then either finds
//! a consistent assignment of the wires or reports that none exists.

pub mod logic;
pub mod cnf;
pub mod gate;
pub mod design;
