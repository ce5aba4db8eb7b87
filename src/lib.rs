//! A small parser-combinator engine whose combinators are verified against a
//! model of what each parser accepts and what remainder it leaves.
pub mod parsers;
pub mod laws;
