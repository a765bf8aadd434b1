//! `must`: the core of a compiler for a small statically typed language.

pub mod bytecode;
pub mod def_map;
pub mod diagnostic;
pub mod layout;
pub mod mod_tree;
pub mod parser;
pub mod resolve;
pub mod span;
pub mod state;
pub mod tp;
pub mod typecheck;
pub mod vm;
