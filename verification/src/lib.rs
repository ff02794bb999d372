//! Tools for building small languages: a zero-copy-style lexer, an
//! M-expression parser and printer, error reports in context, a persistent
//! dictionary, an S-expression word splitter, a tiny text serializer, an
//! EOPL-style expression interpreter, and the syntax, values, unification
//! and proof search of the logic languages cicada, kanren and wissen.

pub mod text;
pub mod error_report;
pub mod dict;
pub mod lexing;
pub mod lex_join;
pub mod jojo_token;
pub mod jojo_repl;
pub mod serde_text;
pub mod mexp;
pub mod mexp_syntax;
pub mod mexp_reading;
pub mod eopl;
pub mod grammar;
pub mod ukanren;
pub mod kanren;
pub mod yoneda;
pub mod cicada;
pub mod cicada_value;
pub mod cicada_module;
pub mod wissen;
