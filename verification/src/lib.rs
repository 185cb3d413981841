//! A minimal compiler front end for a toy declaration language: statements of
//! the form `tipo Name(field: Type, ...);`.
//!
//! The pipeline has three stages: the lexer turns characters into tokens, the
//! parser turns tokens into type definitions with per-statement error
//! recovery, and the semantic analyzer orders the definitions so that each
//! type follows the types it depends on, collecting cyclic groups separately.

pub mod lexer;
pub mod parser;
pub mod semantic;
