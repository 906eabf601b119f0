//! The grammar as the front end delivers it.

pub mod ast;
