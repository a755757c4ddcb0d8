//! A small Lua-flavoured scripting language: a grammar that turns source text
//! into a tree of rule nodes, a parser that builds the syntax tree, a compiler
//! that lowers it to bytecode, and a stack machine that runs the bytecode one
//! instruction at a time.
pub mod text;
pub mod tree;
pub mod ast;
pub mod parser;
pub mod bytecode;
pub mod lowering;
pub mod compiler;
pub mod value;
pub mod machine;
pub mod vm;
pub mod lexis;
pub mod syntax;
pub mod grammar;
pub mod interpreter;
pub mod repl;
pub mod unparse;
pub mod laws;
pub mod targets;
pub mod shape;

pub use ast::AstNode;
pub use compiler::{Compiler, Instruction, Value, Vm};
pub use interpreter::Interpreter;
pub use parser::{parse_to_ast, tokenize, ParseError, PickupParser};
