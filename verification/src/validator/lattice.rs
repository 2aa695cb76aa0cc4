//! The two-point lattice of borrow strength.

use vstd::prelude::*;

verus! {

/// How strongly a component is borrowed. `Mutable` lies above `Immutable`.
#[derive(Debug, Copy, Clone, Hash, Eq, PartialEq, Structural)]
pub enum Mutability {
    Immutable,
    Mutable,
}

impl Default for Mutability {
    fn default() -> (r: Self)
        ensures
            r == Mutability::Immutable,
    {
        Mutability::Immutable
    }
}

impl Mutability {
    /// The least upper bound of two borrow strengths.
    pub open spec fn join(self, other: Mutability) -> Mutability {
        if self == Mutability::Immutable && other == Mutability::Immutable {
            Mutability::Immutable
        } else {
            Mutability::Mutable
        }
    }

    /// Whether a request at `other` can coexist with a hold at `self`.
    pub open spec fn compatible(self, other: Mutability) -> bool {
        self == Mutability::Immutable && other == Mutability::Immutable
    }

    /// The lattice order: `self` is at most `other`.
    pub open spec fn le(self, other: Mutability) -> bool {
        self == Mutability::Immutable || other == Mutability::Mutable
    }

    /// The adverb used for this strength in diagnostics.
    pub open spec fn adjective_text(self) -> Seq<char> {
        match self {
            Mutability::Mutable => "mutably"@,
            Mutability::Immutable => "immutably"@,
        }
    }

    pub fn adjective(self) -> (r: &'static str)
        ensures
            r@ == self.adjective_text(),
    {
        match self {
            Mutability::Mutable => "mutably",
            Mutability::Immutable => "immutably",
        }
    }

    pub fn is_compatible_with(self, other: Mutability) -> (r: bool)
        ensures
            r == self.compatible(other),
    {
        matches!((self, other), (Mutability::Immutable, Mutability::Immutable))
    }

    pub fn strictest(self, other: Mutability) -> (r: Self)
        ensures
            r == self.join(other),
    {
        if matches!((self, other), (Mutability::Immutable, Mutability::Immutable)) {
            Mutability::Immutable
        } else {
            Mutability::Mutable
        }
    }
}

/// `join` is the least upper bound of the order `le`: it is commutative,
/// associative and idempotent, `Immutable` is its unit, and it lies above both
/// of its arguments and below every other bound of them.
pub proof fn lemma_join_is_least_upper_bound(a: Mutability, b: Mutability, c: Mutability)
    ensures
        a.join(b) == b.join(a),
        a.join(b).join(c) == a.join(b.join(c)),
        a.join(a) == a,
        a.join(Mutability::Immutable) == a,
        a.le(a.join(b)),
        b.le(a.join(b)),
        a.le(c) && b.le(c) ==> a.join(b).le(c),
{
}

} // verus!
