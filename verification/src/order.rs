//! Total orders on element types.

use vstd::prelude::*;

verus! {

/// Outcome of a three-way comparison.
#[derive(Clone, Copy, Debug, PartialEq, Eq, Structural)]
pub enum Comparison {
    Less,
    Equal,
    Greater,
}

/// A type whose values are totally ordered by `leq`.
///
/// Equality of the order is the equality of values: two values that are
/// `leq` each other are the same value.
pub trait TotalOrder: Sized {
    /// `a.leq(b)` holds when `a` is not greater than `b`.
    spec fn leq(self, other: Self) -> bool;

    /// Every value is `leq` itself.
    proof fn leq_reflexive(a: Self)
        ensures
            a.leq(a),
    ;

    /// Two values that are `leq` each other are equal.
    proof fn leq_antisymmetric(a: Self, b: Self)
        requires
            a.leq(b),
            b.leq(a),
        ensures
            a == b,
    ;

    /// `leq` chains.
    proof fn leq_transitive(a: Self, b: Self, c: Self)
        requires
            a.leq(b),
            b.leq(c),
        ensures
            a.leq(c),
    ;

    /// Any two values are comparable.
    proof fn leq_total(a: Self, b: Self)
        ensures
            a.leq(b) || b.leq(a),
    ;

    /// Compares `self` with `other`.
    fn compare(&self, other: &Self) -> (c: Comparison)
        ensures
            c == (if *self == *other {
                Comparison::Equal
            } else if self.leq(*other) {
                Comparison::Less
            } else {
                Comparison::Greater
            }),
    ;
}

/// `a` is strictly smaller than `b`.
pub open spec fn less<T: TotalOrder>(a: T, b: T) -> bool {
    a.leq(b) && a != b
}

/// `leq` as a relation, for the lemmas on relations and on sorted sequences.
pub open spec fn leq_relation<T: TotalOrder>() -> spec_fn(T, T) -> bool {
    |a: T, b: T| a.leq(b)
}

/// `less` as a relation.
pub open spec fn less_relation<T: TotalOrder>() -> spec_fn(T, T) -> bool {
    |a: T, b: T| less(a, b)
}

/// `leq` is a total ordering.
pub proof fn lemma_leq_is_total_ordering<T: TotalOrder>()
    ensures
        vstd::relations::total_ordering(leq_relation::<T>()),
{
    let r = leq_relation::<T>();
    assert forall|x: T| #[trigger] r(x, x) by {
        T::leq_reflexive(x);
    }
    assert forall|x: T, y: T| #[trigger] r(x, y) && #[trigger] r(y, x) implies x == y by {
        T::leq_antisymmetric(x, y);
    }
    assert forall|x: T, y: T, z: T| #[trigger] r(x, y) && #[trigger] r(y, z) implies r(x, z) by {
        T::leq_transitive(x, y, z);
    }
    assert forall|x: T, y: T| #[trigger] r(x, y) || #[trigger] r(y, x) by {
        T::leq_total(x, y);
    }
}

/// `less` is the negation of the reversed `leq`.
pub proof fn lemma_less_iff_not_leq<T: TotalOrder>(a: T, b: T)
    ensures
        less(a, b) <==> !b.leq(a),
{
    T::leq_total(a, b);
    T::leq_reflexive(a);
    if a.leq(b) && b.leq(a) {
        T::leq_antisymmetric(a, b);
    }
}

/// Whether `a` is strictly smaller than `b`.
pub fn is_less<T: TotalOrder>(a: &T, b: &T) -> (r: bool)
    ensures
        r == less(*a, *b),
{
    match a.compare(b) {
        Comparison::Less => true,
        _ => false,
    }
}

/// `i32` in its natural order.
impl TotalOrder for i32 {
    open spec fn leq(self, other: Self) -> bool {
        self <= other
    }

    proof fn leq_reflexive(a: Self) {
    }

    proof fn leq_antisymmetric(a: Self, b: Self) {
    }

    proof fn leq_transitive(a: Self, b: Self, c: Self) {
    }

    proof fn leq_total(a: Self, b: Self) {
    }

    fn compare(&self, other: &Self) -> (c: Comparison) {
        if *self < *other {
            Comparison::Less
        } else if *self == *other {
            Comparison::Equal
        } else {
            Comparison::Greater
        }
    }
}

/// `i64` in its natural order.
impl TotalOrder for i64 {
    open spec fn leq(self, other: Self) -> bool {
        self <= other
    }

    proof fn leq_reflexive(a: Self) {
    }

    proof fn leq_antisymmetric(a: Self, b: Self) {
    }

    proof fn leq_transitive(a: Self, b: Self, c: Self) {
    }

    proof fn leq_total(a: Self, b: Self) {
    }

    fn compare(&self, other: &Self) -> (c: Comparison) {
        if *self < *other {
            Comparison::Less
        } else if *self == *other {
            Comparison::Equal
        } else {
            Comparison::Greater
        }
    }
}

/// `u32` in its natural order.
impl TotalOrder for u32 {
    open spec fn leq(self, other: Self) -> bool {
        self <= other
    }

    proof fn leq_reflexive(a: Self) {
    }

    proof fn leq_antisymmetric(a: Self, b: Self) {
    }

    proof fn leq_transitive(a: Self, b: Self, c: Self) {
    }

    proof fn leq_total(a: Self, b: Self) {
    }

    fn compare(&self, other: &Self) -> (c: Comparison) {
        if *self < *other {
            Comparison::Less
        } else if *self == *other {
            Comparison::Equal
        } else {
            Comparison::Greater
        }
    }
}

/// `u64` in its natural order.
impl TotalOrder for u64 {
    open spec fn leq(self, other: Self) -> bool {
        self <= other
    }

    proof fn leq_reflexive(a: Self) {
    }

    proof fn leq_antisymmetric(a: Self, b: Self) {
    }

    proof fn leq_transitive(a: Self, b: Self, c: Self) {
    }

    proof fn leq_total(a: Self, b: Self) {
    }

    fn compare(&self, other: &Self) -> (c: Comparison) {
        if *self < *other {
            Comparison::Less
        } else if *self == *other {
            Comparison::Equal
        } else {
            Comparison::Greater
        }
    }
}

/// `usize` in its natural order.
impl TotalOrder for usize {
    open spec fn leq(self, other: Self) -> bool {
        self <= other
    }

    proof fn leq_reflexive(a: Self) {
    }

    proof fn leq_antisymmetric(a: Self, b: Self) {
    }

    proof fn leq_transitive(a: Self, b: Self, c: Self) {
    }

    proof fn leq_total(a: Self, b: Self) {
    }

    fn compare(&self, other: &Self) -> (c: Comparison) {
        if *self < *other {
            Comparison::Less
        } else if *self == *other {
            Comparison::Equal
        } else {
            Comparison::Greater
        }
    }
}

/// Pairs in lexicographic order: by the first component, and by the second
/// where the first components are equal.
impl<A: TotalOrder, B: TotalOrder> TotalOrder for (A, B) {
    open spec fn leq(self, other: Self) -> bool {
        if self.0 == other.0 {
            self.1.leq(other.1)
        } else {
            self.0.leq(other.0)
        }
    }

    proof fn leq_reflexive(a: Self) {
        B::leq_reflexive(a.1);
    }

    proof fn leq_antisymmetric(a: Self, b: Self) {
        if a.0 == b.0 {
            B::leq_antisymmetric(a.1, b.1);
        } else {
            A::leq_antisymmetric(a.0, b.0);
        }
    }

    proof fn leq_transitive(a: Self, b: Self, c: Self) {
        if a.0 == b.0 && b.0 == c.0 {
            B::leq_transitive(a.1, b.1, c.1);
        } else if a.0 == b.0 || b.0 == c.0 {
        } else {
            A::leq_transitive(a.0, b.0, c.0);
            if a.0 == c.0 {
                A::leq_antisymmetric(a.0, b.0);
            }
        }
    }

    proof fn leq_total(a: Self, b: Self) {
        A::leq_total(a.0, b.0);
        B::leq_total(a.1, b.1);
    }

    fn compare(&self, other: &Self) -> (c: Comparison) {
        match self.0.compare(&other.0) {
            Comparison::Equal => self.1.compare(&other.1),
            first => first,
        }
    }
}

} // verus!
