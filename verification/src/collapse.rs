//! Folding a result whose two sides hold the same type.

use vstd::prelude::*;

verus! {

/// Results that hold one type on both sides.
pub trait ExtResultCollapse<T> {
    /// The value held, whichever side holds it.
    spec fn collapsed(self) -> T;

    /// Takes the value out, whichever side holds it.
    fn collapse(self) -> (value: T)
        ensures
            value == self.collapsed(),
    ;
}

impl<T> ExtResultCollapse<T> for Result<T, T> {
    open spec fn collapsed(self) -> T {
        match self {
            Ok(v) => v,
            Err(e) => e,
        }
    }

    fn collapse(self) -> (value: T) {
        match self {
            Ok(v) => v,
            Err(e) => e,
        }
    }
}

} // verus!
