//! Compiles boolean expressions over named variables into self-contained groups of postfix
//! operations, one per braced subexpression and one for the whole expression, and evaluates
//! and renders those groups under truth assignments.

pub mod compiler;
pub mod execution;
pub mod permutations;
pub mod scanner;
pub mod soundness;
pub mod table;
