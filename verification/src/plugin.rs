//! What the library asks of the two callables that a caller plugs in.
//!
//! A plug-in takes two samples by reference and returns a value. The engine
//! calls it many times and on the same pair more than once, so its contracts
//! are stated for plug-ins that accept every pair and whose result is a
//! function of the pair.

use vstd::prelude::*;

verus! {

/// The plug-in may be called on every pair of samples.
pub open spec fn accepts_all<T, R, F: Fn(&T, &T) -> R>(f: F) -> bool {
    forall|a: T, b: T| #[trigger] call_requires(f, (&a, &b))
}

/// The value that the plug-in returns for the pair `(a, b)`.
pub open spec fn value_of<T, R, F: Fn(&T, &T) -> R>(f: F, a: T, b: T) -> R {
    choose|r: R| call_ensures(f, (&a, &b), r)
}

/// Whatever the plug-in returns for a pair is `value_of` for that pair.
pub open spec fn single_valued<T, R, F: Fn(&T, &T) -> R>(f: F) -> bool {
    forall|a: T, b: T, r: R| #[trigger] call_ensures(f, (&a, &b), r) ==> r == value_of(f, a, b)
}

/// The plug-in is known to return for the pair `(a, b)`: its value there is
/// one that its own contract allows. A call that has returned shows this
/// for its pair.
pub open spec fn answers<T, R, F: Fn(&T, &T) -> R>(f: F, a: T, b: T) -> bool {
    call_ensures(f, (&a, &b), value_of(f, a, b))
}

/// A plug-in that can be called anywhere and acts as a function.
pub open spec fn is_pure<T, R, F: Fn(&T, &T) -> R>(f: F) -> bool {
    accepts_all::<T, R, F>(f) && single_valued::<T, R, F>(f)
}

/// Calls the plug-in and reports its value.
pub fn evaluate<T, R, F: Fn(&T, &T) -> R>(f: &F, a: &T, b: &T) -> (r: R)
    requires
        is_pure::<T, R, F>(*f),
    ensures
        r == value_of::<T, R, F>(*f, *a, *b),
        answers::<T, R, F>(*f, *a, *b),
{
    f(a, b)
}

} // verus!
