//! Converting numbers to the text of a natural language.
use vstd::prelude::*;
use crate::digits::Digits;

verus! {

/// Why a number could not be converted.
#[derive(Debug, Clone, Copy, PartialEq, Eq, Structural)]
pub enum NumberConvertError {
    /// The number has no digits.
    InvalidNumber,
    /// The number needs a unit larger than the language has.
    NumberOutOfRange,
}

/// Writes numbers as text.
pub trait NumToLangParser {
    fn number_to_text(&self, n: Digits) -> Result<String, NumberConvertError>;
}

/// A natural language, by name.
pub trait LanguageParser {
    fn name() -> &'static str;
}

} // verus!
