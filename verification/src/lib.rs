//! A small language for reshaping line-delimited JSON.
//!
//! A script names an input file, prints records, builds new records from
//! the old ones field by field, and names an output file. The library
//! scans a script into tokens ([`lexer`]), parses the tokens into commands
//! ([`parser`], against the grammar in [`grammar`]), evaluates expressions
//! for a record ([`evaluator`]) and runs the commands ([`interpreter`]).
//! It touches no file: the caller reads and writes, the library decides.

pub mod evaluator;
pub mod grammar;
pub mod interpreter;
pub mod json;
pub mod lexer;
pub mod parser;
pub mod text;
pub mod utils;
