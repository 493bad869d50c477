//! The syntax of mCRL2 specifications and the sort inference of their data expressions: the
//! condition-marking preprocessing pass over process specifications and the lexical scanning it
//! is built on, state formulas with their substitution traversal, the sort classification of
//! modal formulas, sort expressions and declarations, the interned sort lattice, the signature of
//! a data specification, the unification of sorts under inference, the ranked search for the
//! most specific typing of an equation, process expressions with the order on action names and
//! labels, and the generators of random specifications.
#![allow(unused_imports)]

pub mod action_sorts;
pub mod condition_marker;
pub mod data_expr;
pub mod inference;
pub mod interner;
pub mod lexical;
pub mod modal;
pub mod process;
pub mod random;
pub mod random_data_specification;
pub mod random_lps;
pub mod random_pbes;
pub mod random_pres;
pub mod random_value_expression;
pub mod signature;
pub mod sorts;
pub mod state_formula;
pub mod unification;
pub mod well_typed;
