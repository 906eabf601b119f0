//! Semantic analysis of parsing expression grammars.
//!
//! A grammar as written by its author (`front::ast`) is checked for duplicate
//! and undeclared rules, stripped of the rules that cannot be reached from its
//! start rule, and handed on with every attribute resolved
//! (`middle::clean_ast`).

pub mod front;
pub mod middle;
