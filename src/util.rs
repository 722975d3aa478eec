//! Small helpers.

use vstd::prelude::*;

verus! {

/// Postfix application: `x.apply(f)` is `f(x)`, which lets a value flow
/// into a function at the end of a chain of calls.
pub trait Apply {
    fn apply<F, U>(self, f: F) -> (r: U) where F: FnOnce(Self) -> U, Self: Sized
        requires
            f.requires((self,)),
        ensures
            f.ensures((self,), r),
    ;
}

impl<T> Apply for T {
    fn apply<F, U>(self, f: F) -> (r: U) where F: FnOnce(Self) -> U, Self: Sized {
        f(self)
    }
}

} // verus!
