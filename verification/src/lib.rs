//! A front end for a small dependent type theory: a lexer and a parser for its surface
//! syntax, core terms with de Bruijn indices, and the commands of its prompt.

pub mod definitions;
pub mod parser;
pub mod repl;
pub mod syntax;
