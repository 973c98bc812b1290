use vstd::prelude::*;

verus! {

/// The interner of the trait solver's types, goals and clauses.
#[derive(Debug, Copy, Clone, Hash, PartialOrd, Ord, PartialEq, Eq, Structural)]
pub struct Interner;

/// A value held in the interner's tables.
#[derive(PartialEq, Eq, Hash, Debug)]
pub struct InternedWrapper<T>(T);

impl<T> InternedWrapper<T> {
    /// The value that is held.
    pub closed spec fn value(&self) -> T {
        self.0
    }

    /// Wraps `value` for interning.
    pub fn new(value: T) -> (res: Self)
        ensures
            res.value() == value,
    {
        InternedWrapper(value)
    }
}

impl<T> core::ops::Deref for InternedWrapper<T> {
    type Target = T;

    fn deref(&self) -> (res: &T)
        ensures
            *res == self.value(),
    {
        &self.0
    }
}

} // verus!
