//! Numen: the evaluation engine of a natural-language notepad calculator.
//!
//! Each line of a document is parsed by a small grammar into expressions, and
//! the expressions are evaluated with exact rational arithmetic, unit and
//! currency conversion, named variables and references to earlier lines.

pub mod num;
pub mod text;
pub mod units;
pub mod lexer;
pub mod parser;
pub mod currency;
pub mod value;
pub mod eval;
pub mod laws;
