//! Conversion traits between this crate's plain-value model and an
//! embedder's foreign value representations.
//!
//! The engine works on plain values; an embedder that moves data between
//! this model and EVM tooling stacks implements these on its own adapter
//! types, one implementation per target representation.

use vstd::prelude::*;

verus! {

/// Conversion into a revm-side representation of the same value.
pub trait IntoRevm<T> {
    /// Converts `self` into its revm-side representation.
    fn into_revm(self) -> T;
}

/// Conversion into an alloy-side representation of the same value.
pub trait IntoAlloy<T> {
    /// Converts `self` into its alloy-side representation.
    fn into_alloy(self) -> T;
}

} // verus!
