//! The errors of building a trie.

use vstd::prelude::*;

verus! {

/// Why a trie could not be built.
#[derive(Debug, Copy, Clone, PartialEq, Eq)]
pub enum Error {
    /// Non-ASCII data was added to an ASCII-only collection.
    NonAsciiError,
    /// The collection reached its maximum supported capacity.
    CapacityExceeded,
    /// The const builder is unable to process the specified data.
    ConstBuilder(&'static str),
    /// The keys provided to the builder were not in lexicographic order.
    KeysOutOfOrder,
    /// No perfect hash was found for the bytes of a branch.
    CouldNotSolvePerfectHash,
}

} // verus!
