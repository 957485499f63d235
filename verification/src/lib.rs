//! Parser combinators: small parsers, and functions that build larger
//! parsers from them.
//!
//! A parser is given a text and either succeeds, with a value and the
//! remainder of the text, or fails, with the text at the point where it
//! gave up. A failure is an ordinary result, and no parser consumes input
//! that it then fails on.
//!
//! - `text` cuts prefixes off string slices: a fixed text, one character,
//!   an identifier.
//! - `parser_fun` has the parsers over borrowed text: the primitives
//!   `match_letter`, `match_literal` and `match_ident`, and the combinators
//!   `pair`, `map`, `zero_or_more` and `one_or_more`. Any function from a
//!   string slice to a parse result is a parser too.
//! - `laws` states what holds of every parser built from those.
//! - `parser_struct` has the same parsers over owned text, as structs that
//!   hold the parsers they are built from as trait objects.
//! - `element` is the tree that a markup grammar would parse into.
pub mod element;
pub mod laws;
pub mod parser_fun;
pub mod parser_struct;
pub mod text;
