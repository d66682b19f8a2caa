use vstd::prelude::*;

verus! {

/// Why tokenizing failed.
#[derive(Debug, Clone, Copy, PartialEq, Eq, Structural)]
pub enum LexerError {
    /// No classifier accepts the character at this offset (the character
    /// is given where one starts there).
    SymbolInvalid(usize, Option<char>),
}

} // verus!
