//! Composable value modifiers: each builder applies one change to a value
//! under construction, and builders compose by tupling, applied left to
//! right.

use vstd::prelude::*;

verus! {

/// A modifier that can be applied to a value under construction.
pub trait ClassBuilder<T> {
    /// Applies this modifier to the value.
    fn apply(&self, bundle: &mut T);
}

impl<T> ClassBuilder<T> for () {
    /// The empty modifier leaves the value alone.
    fn apply(&self, _bundle: &mut T) {
    }
}

impl<T, B1: ClassBuilder<T>, B2: ClassBuilder<T>> ClassBuilder<T> for (B1, B2) {
    /// A pair of modifiers applies its parts in order.
    fn apply(&self, bundle: &mut T) {
        self.0.apply(bundle);
        self.1.apply(bundle);
    }
}

impl<T, B1: ClassBuilder<T>, B2: ClassBuilder<T>, B3: ClassBuilder<T>> ClassBuilder<T> for (
    B1,
    B2,
    B3,
) {
    /// A triple of modifiers applies its parts in order.
    fn apply(&self, bundle: &mut T) {
        self.0.apply(bundle);
        self.1.apply(bundle);
        self.2.apply(bundle);
    }
}

} // verus!
