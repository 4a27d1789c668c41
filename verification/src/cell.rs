//! The reactive derivation cell: holds the latest value of a pure
//! derivation and replaces it whenever the derivation is rerun. The
//! derivation must be a pure projection of its inputs, so rerunning it
//! is always safe and redundant reruns are harmless.

use vstd::prelude::*;

verus! {

/// A single-writer, many-reader cell holding a derived value.
pub struct DerivationCell<T> {
    current: T,
}

impl<T> DerivationCell<T> {
    /// The value the cell holds.
    pub closed spec fn value(&self) -> T {
        self.current
    }

    /// Creates the cell, running the derivation once to fill it.
    pub fn new<F: FnOnce() -> T>(derive: F) -> (c: Self)
        requires
            call_requires(derive, ()),
        ensures
            call_ensures(derive, (), c.value()),
    {
        DerivationCell { current: derive() }
    }

    /// The latest derived value.
    pub fn read(&self) -> (r: &T)
        ensures
            *r == self.value(),
    {
        &self.current
    }

    /// Reruns the derivation and replaces the held value with its result;
    /// called whenever an upstream value changes.
    pub fn refresh<F: FnOnce() -> T>(&mut self, derive: F)
        requires
            call_requires(derive, ()),
        ensures
            call_ensures(derive, (), final(self).value()),
    {
        self.current = derive();
    }
}

} // verus!
