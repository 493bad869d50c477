//! The classification of a type-checked modal state formula.
use vstd::prelude::*;

verus! {

/// Whether a state formula's `val(...)` occurrences are `Real`- or `Bool`-sorted.
#[derive(Clone, Copy, Debug, Eq, PartialEq)]
pub enum ValSort {
    /// Every `val(...)` in the formula is `Real`-sorted, combined via a `*`-multiplier into a
    /// PRES-style quantitative formula.
    Real,
    /// Every `val(...)` in the formula is `Bool`-sorted, a plain mu-calculus atom.
    Bool,
    /// The formula has no state-level `val(...)` at all, so nothing pins the choice down.
    Unknown,
}

} // verus!
