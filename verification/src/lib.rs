//! A single-pass compiler and bytecode interpreter for a small expression
//! language: a scanner that reads a source text token by token, a Pratt
//! parser that writes bytecode as it recognizes each production, and a
//! stack machine that runs the bytecode.
//!
//! Every function is verified against a contract. The contracts are stated
//! over the models in [`lexical`] (what scanning yields), [`parsing`] (what
//! compiling yields) and [`vm`] (what running yields). Three modules hold
//! what is proved of the whole: [`soundness`], that a program which compiles
//! runs to a number; [`translation`], that a text which spells an
//! expression of the grammar in [`syntax`] compiles to the code of that
//! expression; and [`evaluation`], that running this code yields what the
//! expression is worth.
//!
//! Numbers are IEEE-754 doubles, held as their bit patterns. Reading a
//! number from its text and arithmetic on two numbers are floating-point
//! work, which is not done here: the caller supplies both as functions on
//! bit patterns, and the contracts say what the library does with whatever
//! these functions give. Nothing is printed either: diagnostics, listings
//! and results are handed back.

pub mod chunk;
pub mod compiler;
pub mod evaluation;
pub mod grammar;
pub mod interpreter;
pub mod lexical;
pub mod numbers;
pub mod parsing;
pub mod scanner;
pub mod soundness;
pub mod syntax;
pub mod text;
pub mod token;
pub mod translation;
pub mod value;
pub mod vm;
