//! The pure logic of the Nail language toolchain: the parser that turns a
//! token stream into a syntax tree, and the parts of the standard library
//! that compute on plain values.

pub mod text;
pub mod std_lib;
pub mod syntax;
pub mod ast;
pub mod grammar;
pub mod parser;
pub mod editor;
pub mod symbols;
pub mod spans;
pub mod outline;
