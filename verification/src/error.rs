use vstd::prelude::*;

use crate::lexer::{Token, TokenView};

verus! {

/// Why a formula was rejected.
#[derive(Debug, PartialEq, Eq)]
pub enum ErrorKind {
    /// A character that belongs to no token, with its index in the text.
    LexError(char, usize),
    /// A token (or the end of input, `None`) found where an atom or an
    /// opening bracket was required, with its index in the token sequence.
    UnexpectedToken(Option<Token>, usize),
    /// The closing bracket that was expected, what stood at its place
    /// (`None` at the end of input), and that place's index.
    MismatchedBracket(char, Option<Token>, usize),
    /// Tokens were left over after a complete molecule.
    TrailingTokens,
    /// A number does not fit in `usize`.
    Overflow,
}

/// Mathematical value of an [`ErrorKind`].
pub enum ErrorView {
    LexError(char, nat),
    UnexpectedToken(Option<TokenView>, nat),
    MismatchedBracket(char, Option<TokenView>, nat),
    TrailingTokens,
    Overflow,
}

/// View of an optional token.
pub open spec fn found_view(found: Option<Token>) -> Option<TokenView> {
    match found {
        Some(token) => Some(token@),
        None => None,
    }
}

impl View for ErrorKind {
    type V = ErrorView;

    open spec fn view(&self) -> ErrorView {
        match *self {
            ErrorKind::LexError(c, position) => ErrorView::LexError(c, position as nat),
            ErrorKind::UnexpectedToken(found, position) => ErrorView::UnexpectedToken(
                found_view(found),
                position as nat,
            ),
            ErrorKind::MismatchedBracket(expected, found, position) => ErrorView::MismatchedBracket(
                expected,
                found_view(found),
                position as nat,
            ),
            ErrorKind::TrailingTokens => ErrorView::TrailingTokens,
            ErrorKind::Overflow => ErrorView::Overflow,
        }
    }
}

impl Clone for ErrorKind {
    fn clone(&self) -> (copy: ErrorKind)
        ensures
            copy@ == self@,
    {
        match self {
            ErrorKind::LexError(c, position) => ErrorKind::LexError(*c, *position),
            ErrorKind::UnexpectedToken(found, position) => ErrorKind::UnexpectedToken(
                clone_found(found),
                *position,
            ),
            ErrorKind::MismatchedBracket(expected, found, position) => ErrorKind::MismatchedBracket(
                *expected,
                clone_found(found),
                *position,
            ),
            ErrorKind::TrailingTokens => ErrorKind::TrailingTokens,
            ErrorKind::Overflow => ErrorKind::Overflow,
        }
    }
}

/// A copy of an optional token.
pub fn clone_found(found: &Option<Token>) -> (copy: Option<Token>)
    ensures
        found_view(copy) == found_view(*found),
{
    match found {
        Some(token) => Some(token.clone()),
        None => None,
    }
}

} // verus!
