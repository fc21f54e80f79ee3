//! A one-line calculator: a lexer, a recursive-descent parser, a tree-walking
//! interpreter, and a lowering of the syntax tree to a straight-line
//! instruction block for native execution.
pub mod lexer;
pub mod parser;
pub mod interpreter;
pub mod compiler;
