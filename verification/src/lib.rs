//! Front end of an assembler whose instruction set is loaded at run time.
//!
//! A microcode description names the instruction mnemonics; each becomes a
//! keyword of the token grammar.  Source text is cut into tokens, the tokens
//! are parsed into a syntax tree, and the tree is resolved into a flat list
//! of `(opcode, operand)` pairs.
//!
//! Every stage has a mathematical model (a `spec` function over sequences of
//! characters, tokens or statements) and the executable code is proved to
//! compute exactly that model.
pub mod text;
pub mod token;
pub mod tokenizer;
pub mod microcode;
pub mod language;
pub mod ast;
pub mod grammar;
pub mod parser;
pub mod resolution;
pub mod resolver;
pub mod plain;
