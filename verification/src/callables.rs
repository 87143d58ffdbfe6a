//! Functions handed round as values.

use vstd::prelude::*;

verus! {

/// One more than `x`.
pub fn add_one(x: i32) -> (y: i32)
    requires
        x < i32::MAX,
    ensures
        y == x + 1,
{
    x + 1
}

/// Calls `f` on `arg` twice and adds up what the two calls return.
pub fn do_twice<F: Fn(i32) -> i32>(f: F, arg: i32) -> (sum: i32)
    requires
        call_requires(f, (arg,)),
        forall|a: i32, b: i32|
            call_ensures(f, (arg,), a) && call_ensures(f, (arg,), b) ==> i32::MIN <= a + b
                <= i32::MAX,
    ensures
        exists|a: i32, b: i32|
            call_ensures(f, (arg,), a) && call_ensures(f, (arg,), b) && sum == a + b,
{
    let a = f(arg);
    let b = f(arg);
    a + b
}

/// A function that adds one, made on the spot.
pub fn returns_closure() -> (f: impl Fn(i32) -> i32)
    ensures
        forall|x: i32| x < i32::MAX ==> call_requires(f, (x,)),
        forall|x: i32, y: i32| call_ensures(f, (x,), y) ==> y == x + 1,
{
    |x: i32| -> (y: i32)
        requires
            x < i32::MAX,
        ensures
            y == x + 1,
        { x + 1 }
}

} // verus!
