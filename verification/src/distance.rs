use vstd::prelude::*;

verus! {

/// `f` can be called on any two vectors and is a function of them: two calls
/// on the same pair give the same distance.
pub open spec fn is_distance<V, F: Fn(&V, &V) -> u32>(f: F) -> bool {
    &&& forall|a: &V, b: &V| #[trigger] f.requires((a, b))
    &&& forall|a: &V, b: &V, d1: u32, d2: u32|
        #![trigger f.ensures((a, b), d1), f.ensures((a, b), d2)]
        f.ensures((a, b), d1) && f.ensures((a, b), d2) ==> d1 == d2
}

/// The distance that `f` gives for the pair `(a, b)`.
pub open spec fn dist_of<V, F: Fn(&V, &V) -> u32>(f: F, a: V, b: V) -> u32 {
    choose|d: u32| f.ensures((&a, &b), d)
}

/// `f` gives the same distance for `(a, b)` as for `(b, a)`.
pub open spec fn is_symmetric<V, F: Fn(&V, &V) -> u32>(f: F) -> bool {
    forall|a: V, b: V| #[trigger] dist_of(f, a, b) == dist_of(f, b, a)
}

/// What a call of `f` returned is `dist_of(f, ..)`.
pub proof fn lemma_call_is_dist_of<V, F: Fn(&V, &V) -> u32>(f: F, a: &V, b: &V, d: u32)
    requires
        is_distance(f),
        f.ensures((a, b), d),
    ensures
        d == dist_of(f, *a, *b),
{
    let c = dist_of(f, *a, *b);
    assert(f.ensures((a, b), c));
}

/// Calls `f` on `(a, b)`.
pub fn distance<V, F: Fn(&V, &V) -> u32>(f: &F, a: &V, b: &V) -> (d: u32)
    requires
        is_distance(*f),
    ensures
        d == dist_of(*f, *a, *b),
{
    let d = f(a, b);
    proof {
        lemma_call_is_dist_of(*f, a, b, d);
    }
    d
}

} // verus!
