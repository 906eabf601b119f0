//! Analyses that find what a grammar does not need.

pub mod unused_rule;
