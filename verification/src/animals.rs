//! Two functions of one name on one type: the type's own and a trait's.

use vstd::prelude::*;
use vstd::string::StringExecFns;

verus! {

/// An animal whose young have a name.
pub trait Animal {
    /// What the young of this animal are called.
    fn baby_name() -> String;
}

/// A dog.
pub struct Dog;

impl Dog {
    /// The name of this dog's own young one.
    pub fn baby_name() -> (name: String)
        ensures
            name@ == "Spot"@,
    {
        String::from_str("Spot")
    }
}

impl Animal for Dog {
    /// What the young of a dog are called.
    fn baby_name() -> (name: String)
        ensures
            name@ == "puppy"@,
    {
        String::from_str("puppy")
    }
}

} // verus!
