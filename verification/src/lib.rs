//! A small compiler for a C-like language, from source text to abstract
//! assembly, with its register allocator: liveness analysis, interference
//! graphs, chordal colouring and the assignment of temporaries to
//! registers; and the encodings of the code it may emit.

pub mod allocator;
pub mod assembly;
pub mod bytecode;
pub mod chars;
pub mod chordal;
pub mod coloring;
pub mod config;
pub mod context;
pub mod emit;
pub mod endian;
pub mod facts;
pub mod flow;
pub mod interference;
pub mod lexer;
pub mod liveness;
pub mod names;
pub mod output;
pub mod parser;
pub mod syntax;
pub mod text;
pub mod validation;
pub mod x86_encoding;
