//! Functions that callers hand in, as mathematical functions.

use vstd::prelude::*;

verus! {

/// `f` can be called on every argument, and gives one result for each.
pub open spec fn is_function<A, B, F: Fn(A) -> B>(f: F) -> bool {
    &&& forall|a: A| #[trigger] call_requires(f, (a,))
    &&& forall|a: A, b: B, c: B|
        #[trigger] call_ensures(f, (a,), b) && #[trigger] call_ensures(f, (a,), c) ==> b == c
}

/// The result of `f` on `a`.
pub open spec fn value_of<A, B, F: Fn(A) -> B>(f: F, a: A) -> B {
    choose|b: B| call_ensures(f, (a,), b)
}

} // verus!
