//! What the collections of this crate ask of the `==` of their keys.

use vstd::prelude::*;
use vstd::laws_eq::obeys_concrete_eq;
use vstd::std_specs::cmp::PartialEqSpec;

verus! {

/// `==` on `K` decides an equivalence, the one that `eq_spec` names.
pub open spec fn lawful_eq<K: PartialEq>() -> bool {
    &&& K::obeys_eq_spec()
    &&& forall|x: K| #[trigger] x.eq_spec(&x)
    &&& forall|x: K, y: K| #[trigger] x.eq_spec(&y) ==> y.eq_spec(&x)
    &&& forall|x: K, y: K, z: K| #[trigger]
        x.eq_spec(&y) && #[trigger] y.eq_spec(&z) ==> x.eq_spec(&z)
}

/// An `==` that tells whether two values are the same value is lawful.
pub proof fn lemma_concrete_eq_is_lawful<K: PartialEq>()
    requires
        obeys_concrete_eq::<K>(),
    ensures
        lawful_eq::<K>(),
        forall|x: K, y: K| #[trigger] x.eq_spec(&y) <==> x == y,
{
    reveal(obeys_concrete_eq);
}

} // verus!
