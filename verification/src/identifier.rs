use vstd::prelude::*;

verus! {

/// A type tag. Components and managers of one concrete kind carry the same
/// identifier, and kinds that differ carry different ones. Identifiers are
/// totally ordered by their tag, which makes them usable as registry keys.
#[derive(Clone, Copy, Debug, PartialEq, Eq, Structural, Hash)]
pub struct Identifier {
    pub tag: u64,
}

impl Identifier {
    /// `self` comes strictly before `other` in the order of identifiers.
    pub open spec fn below(self, other: Identifier) -> bool {
        self.tag < other.tag
    }

    /// The identifier with the given tag.
    pub fn new(tag: u64) -> (id: Identifier)
        ensures
            id.tag == tag,
    {
        Identifier { tag }
    }

    /// The tag of this identifier.
    pub fn tag(&self) -> (tag: u64)
        ensures
            tag == self.tag,
    {
        self.tag
    }

    /// Whether the two identifiers are equal.
    pub fn same(&self, other: &Identifier) -> (b: bool)
        ensures
            b == (*self == *other),
    {
        self.tag == other.tag
    }

    /// Whether this identifier comes strictly before `other`.
    pub fn precedes(&self, other: &Identifier) -> (b: bool)
        ensures
            b == self.below(*other),
    {
        self.tag < other.tag
    }

    /// Of two identifiers exactly one of three holds: the first is below the
    /// second, they are equal, or the second is below the first.
    pub proof fn order_is_total(a: Identifier, b: Identifier)
        ensures
            a.below(b) || a == b || b.below(a),
            !(a.below(b) && a == b),
            !(a.below(b) && b.below(a)),
            !(a == b && b.below(a)),
    {
    }

    /// The order of identifiers is transitive.
    pub proof fn order_is_transitive(a: Identifier, b: Identifier, c: Identifier)
        requires
            a.below(b),
            b.below(c),
        ensures
            a.below(c),
    {
    }
}

} // verus!
