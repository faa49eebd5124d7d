//! The closed set of formula errors and their display strings.

use vstd::prelude::*;

verus! {

/// Everything that can go wrong while turning a formula into a display
/// value.  Each variant renders as a short, fixed display string that is
/// stored in a cell in place of a numeric result.  `ParsingError` and
/// `UnknownFunction` intentionally render identically.
#[derive(Debug, Clone, Copy, PartialEq, Eq, Structural)]
pub enum FormulaError {
    ParsingError,
    DivBy0,
    UnknownFunction,
    CircularReference,
}

/// The display text of each error, as a sequence of characters.
pub open spec fn error_text(e: FormulaError) -> Seq<char> {
    match e {
        FormulaError::ParsingError => "#NAME?"@,
        FormulaError::DivBy0 => "#DIV/0!"@,
        FormulaError::UnknownFunction => "#NAME?"@,
        FormulaError::CircularReference => "#CIRCULAR!"@,
    }
}

impl FormulaError {
    /// The string a cell shows when its formula produced this error.
    pub fn display_text(&self) -> (r: String)
        ensures
            r@ == error_text(*self),
    {
        match self {
            FormulaError::ParsingError => String::from_str("#NAME?"),
            FormulaError::DivBy0 => String::from_str("#DIV/0!"),
            FormulaError::UnknownFunction => String::from_str("#NAME?"),
            FormulaError::CircularReference => String::from_str("#CIRCULAR!"),
        }
    }
}

} // verus!
