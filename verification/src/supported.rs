//! How the locales that two data sources support are put together.

use vstd::prelude::*;

verus! {

/// Whether to take the locales that either source supports, or only those both do.
#[derive(PartialEq, Eq, Copy, Clone, Debug)]
pub enum SupportedLocalesJoiner {
    Union,
    Intersection,
}

} // verus!
