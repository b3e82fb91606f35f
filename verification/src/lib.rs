//! The parsing core of a formatter for R source text.
//!
//! [`parser::RParser`] turns a text into a syntax tree that keeps every byte
//! of it: each token with the comments, blank lines and white space in front
//! of it. The text can be rebuilt from the tree byte for byte, and the tree is
//! what a printer needs to lay the text out anew.
//!
//! Parsing goes in two steps. The scanner ([`parser::scanner`]) cuts the text
//! into tokens and trivia. The structural parser ([`parser::parse`]) reads
//! statements and expressions from the tokens as the grammar
//! ([`parser::grammar`]) defines them; how the operators of an expression
//! nest is decided by precedence ([`parser::pratt`]) from the operator table
//! ([`parser::operators`]). Neither step fails: what cannot be read becomes
//! an error node with a diagnostic, and parsing goes on behind it.
pub mod parser;
