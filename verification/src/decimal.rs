//! The data of decimal formatting: the symbols a locale writes numbers with.

use vstd::prelude::*;

verus! {

/// The kinds of decimal data.
#[derive(PartialEq, Eq, Copy, Clone, Debug)]
pub enum Key {
    SymbolsV1,
}

/// The symbols of decimal numbers: the zero digit and the two separators.
#[derive(Debug, PartialEq, Clone)]
pub struct SymbolsV1 {
    pub zero_digit: char,
    pub decimal_separator: String,
    pub grouping_separator: String,
}

} // verus!
