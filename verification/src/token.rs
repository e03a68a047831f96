//! Tokens of the language and their positions in the source.
use vstd::prelude::*;

verus! {

/// A word of the language.
#[derive(Debug, Clone, Copy, PartialEq, Eq, Structural)]
pub enum Token {
    /// `bruh.`, the variable A.
    VarA,
    /// `bruh!`, the variable B.
    VarB,
    /// `bruh?`, the variable C.
    VarC,
    /// `momentum`
    Momentum,
    /// `moment`
    Moment,
    /// `sound`, opens a loop.
    Sound,
    /// `effect`, closes a loop.
    Effect,
}

/// A position in the source: line and column, both counted from 1; the
/// column counts bytes.
#[derive(Debug, Clone, Copy)]
pub struct Pos {
    pub line: usize,
    pub col: usize,
}

/// A token with the position of its first byte.
#[derive(Debug, Clone, Copy)]
pub struct Spanned {
    pub tok: Token,
    pub pos: Pos,
}

} // verus!
