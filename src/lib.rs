//! A small register machine and the two-pass assembler for its textual language.
pub mod assembler;
pub mod instruction;
pub mod parser;
pub mod symbols;
pub mod token;
pub mod vm;
