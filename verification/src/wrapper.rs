//! A transparent wrapper: one value, reachable as if it were not wrapped.

use vstd::prelude::*;
use vstd::string::StringExecFns;
use core::ops::Deref;

verus! {

/// A wrapper around a single value. It adds no state and no behaviour: all
/// it offers is the wrapped value itself.
pub struct Wrapper<T>(T);

impl<T> View for Wrapper<T> {
    type V = T;

    closed spec fn view(&self) -> T {
        self.0
    }
}

impl<T> Wrapper<T> {
    /// Wraps `value`.
    pub fn wrap(value: T) -> (w: Wrapper<T>)
        ensures
            w@ == value,
    {
        Wrapper(value)
    }

    /// The wrapped value, by reference.
    pub fn get(&self) -> (v: &T)
        ensures
            *v == self@,
    {
        &self.0
    }

    /// Takes the wrapper off.
    pub fn into_inner(self) -> (v: T)
        ensures
            v == self@,
    {
        self.0
    }
}

impl<T> Deref for Wrapper<T> {
    type Target = T;

    /// The wrapped value, by reference: what `*w` and a method call through
    /// `w` reach.
    fn deref(&self) -> (v: &T)
        ensures
            *v == self@,
    {
        &self.0
    }
}

/// The greeting for `name`: `Hello, `, the name, and an exclamation mark.
pub open spec fn greeting_of(name: Seq<char>) -> Seq<char> {
    "Hello, "@ + name + "!"@
}

/// Builds the greeting for `name`.
pub fn greeting(name: &str) -> (s: String)
    ensures
        s@ == greeting_of(name@),
{
    let mut s = String::from_str("Hello, ");
    s.append(name);
    s.append("!");
    s
}

/// Builds the greeting for a wrapped name, reaching the name through the
/// wrapper.
pub fn greeting_for(name: &Wrapper<String>) -> (s: String)
    ensures
        s@ == greeting_of(name@@),
{
    let inner: &String = name;
    greeting(inner.as_str())
}

} // verus!
