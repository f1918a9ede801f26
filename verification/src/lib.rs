//! A small-step interpreter for a symbolic language of atoms.
//!
//! Programs are atoms: symbols, variables, expressions (ordered sequences of
//! atoms) and grounded host values.  Given a knowledge base of equality axioms
//! of the shape `(= lhs rhs)` and a query expression, the interpreter produces
//! the collection of rewrite results reachable by pattern-directed rewriting
//! against the knowledge base combined with evaluation of grounded operations.
//!
//! The evaluation engine is reified into explicit plan values that a driver
//! advances one step at a time, so interpretation can be paused and inspected
//! between steps.

pub mod atom;
pub mod bindings;
pub mod matcher;
pub mod space;
pub mod subexpr;
pub mod plan;
pub mod interpreter;
