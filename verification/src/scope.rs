//! Small pieces of what an analyzed program uses to declare its scopes: the
//! parts that hold or hand on a value and nothing else.

use vstd::prelude::*;

verus! {

/// A scope that has been bound for use by reference.
pub struct BoundScopeProof<'a, T: ?Sized>(pub &'a mut T);

impl<'a, T: ?Sized> BoundScopeProof<'a, T> {
    /// The reference that was bound.
    pub fn unwrap(self) -> (r: &'a mut T)
        ensures
            &*r == &*old(self.0),
            &*final(r) == &*final(self.0),
    {
        self.0
    }
}

/// Tells scopes of one name apart by the line and column of their
/// declaration. It is a name only: no value of it is ever made.
pub struct ScopeDisambiguator<T, const LINE: u32, const COLUMN: u32>(T);

/// Returns its argument; a result that is dropped unused draws a warning.
#[must_use]
pub fn mark_as_must_use<T>(v: T) -> (r: T)
    ensures
        r == v,
{
    v
}

} // verus!
