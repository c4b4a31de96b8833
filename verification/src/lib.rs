//! Syntax highlighting support for the betty scripting language.
//!
//! The heart of the crate is the lexer in [`highligher`]: it splits a source
//! text into an ordered list of classified tokens whose literals, concatenated
//! in order, reproduce the input exactly. The [`settings`] module holds the
//! color table that a presentation layer uses to render each token category.

pub mod highligher;
pub mod settings;
