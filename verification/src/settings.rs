//! The user-editable color table of the editor.
//!
//! The colors of the code elements live in the user's settings file; the
//! presentation layer reads that file and hands the lexer's consumer one
//! [`CodeColor`] value. Every token type maps to exactly one color slot.

use vstd::prelude::*;

use crate::highligher::TokenType;

verus! {

/// Representation of the color of code elements in the editor. Colors are
/// defined as arrays of three [`u8`], as per RGB standard; the color of a
/// user-defined call site carries a fourth, alpha component.
#[derive(Clone, Copy)]
pub struct CodeColor {
    pub ident: [u8; 3],
    pub number: [u8; 3],
    pub string: [u8; 3],
    pub symbol: [u8; 3],
    pub keyword: [u8; 3],
    pub builtin_fn: [u8; 3],
    pub fun: [u8; 4],
    pub comment: [u8; 3],
    pub error: [u8; 3],
    pub other: [u8; 3],
}

/// The color slot a token type maps to, as four bytes red, green, blue,
/// alpha. Every slot but the one of a user-defined call site is a plain RGB
/// color and comes out fully opaque; the call-site slot alone carries its
/// own alpha component.
pub open spec fn spec_color_of(cc: CodeColor, t: TokenType) -> Seq<u8> {
    match t {
        TokenType::Ident => seq![cc.ident[0], cc.ident[1], cc.ident[2], 255u8],
        TokenType::Num => seq![cc.number[0], cc.number[1], cc.number[2], 255u8],
        TokenType::Str => seq![cc.string[0], cc.string[1], cc.string[2], 255u8],
        TokenType::Sym => seq![cc.symbol[0], cc.symbol[1], cc.symbol[2], 255u8],
        TokenType::Kw => seq![cc.keyword[0], cc.keyword[1], cc.keyword[2], 255u8],
        TokenType::BuiltinFun => seq![cc.builtin_fn[0], cc.builtin_fn[1], cc.builtin_fn[2], 255u8],
        TokenType::Fun => seq![cc.fun[0], cc.fun[1], cc.fun[2], cc.fun[3]],
        TokenType::Comment => seq![cc.comment[0], cc.comment[1], cc.comment[2], 255u8],
        TokenType::Error => seq![cc.error[0], cc.error[1], cc.error[2], 255u8],
        TokenType::Other => seq![cc.other[0], cc.other[1], cc.other[2], 255u8],
    }
}

impl CodeColor {
    /// The red, green, blue and alpha bytes that a token of type `t` is
    /// drawn with under this color table.
    pub fn color_of(&self, t: TokenType) -> (c: [u8; 4])
        ensures
            c@ == spec_color_of(*self, t),
    {
        match t {
            TokenType::Ident => [self.ident[0], self.ident[1], self.ident[2], 255],
            TokenType::Num => [self.number[0], self.number[1], self.number[2], 255],
            TokenType::Str => [self.string[0], self.string[1], self.string[2], 255],
            TokenType::Sym => [self.symbol[0], self.symbol[1], self.symbol[2], 255],
            TokenType::Kw => [self.keyword[0], self.keyword[1], self.keyword[2], 255],
            TokenType::BuiltinFun => [
                self.builtin_fn[0],
                self.builtin_fn[1],
                self.builtin_fn[2],
                255,
            ],
            TokenType::Fun => [self.fun[0], self.fun[1], self.fun[2], self.fun[3]],
            TokenType::Comment => [self.comment[0], self.comment[1], self.comment[2], 255],
            TokenType::Error => [self.error[0], self.error[1], self.error[2], 255],
            TokenType::Other => [self.other[0], self.other[1], self.other[2], 255],
        }
    }
}

} // verus!
