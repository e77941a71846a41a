use vstd::prelude::*;

verus! {

/// The conditions under which scanning a token fails.  Every sub-scanner that
/// can fail reports one of these to the caller instead of producing a token;
/// the caller decides whether to abort the pass or recover.
#[derive(Debug, Clone, Copy, PartialEq, Eq, Structural)]
pub enum LexError {
    /// A second decimal point appeared within one numeric literal.
    MalformedNumber,
    /// A string literal was not closed by an unescaped quote before a line
    /// break or the end of the input.
    UnterminatedString,
    /// A character that no dispatch rule recognizes (this includes the
    /// character-literal quote, which is intentionally unimplemented).
    UnsupportedCharacter,
    /// An identifier run matches a spelling reserved for a future language
    /// feature that is not implemented yet.
    ReservedUnimplementedKeyword,
}

} // verus!
