//! A one-pass tokenizer for a small C-like scripting language.
//!
//! The lexer turns a buffer of Unicode scalar values into a finite,
//! ordered sequence of classified tokens: structural symbols, one- and
//! two-character operators, unsigned integer literals, identifiers and
//! the reserved words of the language. The sequence always ends in a
//! single `EOF` token; characters that fit no class come out as
//! `Illegal` tokens rather than stopping the scan.

pub mod laws;
pub mod lexer;
pub mod scan;
pub mod token;
