//! Standalone error records, one per failure kind, each carrying the full
//! context of the failure: the offending base string and, where one exists,
//! the offending character or exponent.

use vstd::prelude::*;

verus! {

/// A digit-string character that is not a symbol of the stated base.
#[derive(Debug, Clone, PartialEq, Eq)]
pub struct CharNotFoundInBase {
    pub base: String,
    pub c: char,
}

/// A positional weight or running total that left the machine-word range:
/// `base` of length `baselen` raised to `power` overflowed.
#[derive(Debug, Clone, PartialEq, Eq)]
pub struct ConversionOverflow {
    pub base: String,
    pub baselen: usize,
    pub power: usize,
}

/// A base with fewer than two symbols.
#[derive(Debug, Clone, PartialEq, Eq)]
pub struct BaseLenTooShort(pub String);

/// A base in which some character occurs more than once.
#[derive(Debug, Clone, PartialEq, Eq)]
pub struct DuplicateCharInBase {
    pub base: String,
    pub c: char,
}

} // verus!
