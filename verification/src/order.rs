//! The order of a type, as `<` and `>` decide it.

use core::cmp::Ordering;
use vstd::laws_cmp::{obeys_cmp, obeys_cmp_ord, obeys_cmp_partial_ord, obeys_partial_cmp_spec_properties};
use vstd::laws_eq::obeys_eq_spec_properties;
use vstd::prelude::*;
use vstd::std_specs::cmp::{OrdSpec, PartialEqSpec, PartialOrdSpec};

verus! {

/// The comparisons of `A` are specified and make a total order.
pub open spec fn lawful_order<A: Ord>() -> bool {
    obeys_cmp::<A>()
}

/// The executable comparisons of `A` return what `precedes` and `follows`
/// say.
pub open spec fn comparisons_decided<A: Ord>() -> bool {
    A::obeys_partial_cmp_spec()
}

/// `a < b`.
pub open spec fn precedes<A: Ord>(a: A, b: A) -> bool {
    a.partial_cmp_spec(&b) == Some(Ordering::Less)
}

/// `a > b`.
pub open spec fn follows<A: Ord>(a: A, b: A) -> bool {
    a.partial_cmp_spec(&b) == Some(Ordering::Greater)
}

/// `a <= b`: `a` is not greater than `b`.
pub open spec fn at_most<A: Ord>(a: A, b: A) -> bool {
    !follows(a, b)
}

/// Under a lawful order the executable comparisons decide `precedes` and
/// `follows`, which mirror each other, and nothing precedes itself.
pub proof fn lemma_order_decided<A: Ord>()
    requires
        lawful_order::<A>(),
    ensures
        comparisons_decided::<A>(),
        forall|a: A, b: A| #[trigger] precedes(a, b) <==> follows(b, a),
        forall|a: A| !#[trigger] precedes(a, a),
{
    reveal(obeys_cmp_partial_ord);
    reveal(obeys_partial_cmp_spec_properties);
    assert forall|a: A, b: A| #[trigger] precedes(a, b) <==> follows(b, a) by {}
    assert forall|a: A| !#[trigger] precedes(a, a) by {
        assert(precedes(a, a) <==> follows(a, a));
    }
}

/// `at_most` is transitive.
pub proof fn lemma_at_most_transitive<A: Ord>(a: A, b: A, c: A)
    requires
        lawful_order::<A>(),
        at_most(a, b),
        at_most(b, c),
    ensures
        at_most(a, c),
{
    reveal(obeys_cmp_partial_ord);
    reveal(obeys_cmp_ord);
    reveal(obeys_partial_cmp_spec_properties);
    reveal(obeys_eq_spec_properties);
    if follows(a, c) {
        assert(precedes(c, a));
        assert(a.partial_cmp_spec(&b) == Some(a.cmp_spec(&b)));
        assert(b.partial_cmp_spec(&c) == Some(b.cmp_spec(&c)));
        if precedes(a, b) {
            assert(precedes(c, b));
            assert(follows(b, c));
        } else {
            assert(a.eq_spec(&b));
            assert(b.eq_spec(&a));
            if precedes(b, c) {
                assert(precedes(b, a));
                assert(b.partial_cmp_spec(&a) == Some(Ordering::Equal));
            } else {
                assert(b.eq_spec(&c));
                assert(a.eq_spec(&c));
                assert(a.partial_cmp_spec(&c) == Some(Ordering::Equal));
            }
        }
    }
}

} // verus!
