//! Facts about sequences that the proofs about the hull share: what holds of
//! every element of two sequences holds of every element of the two joined.

use vstd::prelude::*;

verus! {

/// What holds of every element of two sequences holds of every element of
/// the two joined, and the other way round.
pub proof fn lemma_all_of_joined<A>(first: Seq<A>, second: Seq<A>, prop: spec_fn(A) -> bool)
    ensures
        (first + second).all(prop) <==> first.all(prop) && second.all(prop),
{
    let joined = first + second;
    if first.all(prop) && second.all(prop) {
        assert forall|i: int| 0 <= i < joined.len() implies #[trigger] prop(joined[i]) by {
            if i < first.len() {
                assert(prop(first[i]));
            } else {
                assert(prop(second[i - first.len()]));
            }
        }
    }
    if joined.all(prop) {
        assert forall|i: int| 0 <= i < first.len() implies #[trigger] prop(first[i]) by {
            assert(prop(joined[i]));
        }
        assert forall|i: int| 0 <= i < second.len() implies #[trigger] prop(second[i]) by {
            assert(prop(joined[first.len() + i]));
        }
    }
}

/// What holds of an element holds of every element of the sequence that has
/// nothing else.
pub proof fn lemma_all_of_one<A>(x: A, prop: spec_fn(A) -> bool)
    requires
        prop(x),
    ensures
        seq![x].all(prop),
{
    assert forall|i: int| 0 <= i < seq![x].len() implies #[trigger] prop(seq![x][i]) by {
        assert(seq![x][i] == x);
    }
}

/// What follows from something that holds of every element holds of every
/// element.
pub proof fn lemma_all_follows<A>(s: Seq<A>, given: spec_fn(A) -> bool, goal: spec_fn(A) -> bool)
    requires
        s.all(given),
        forall|x: A| #[trigger] given(x) ==> goal(x),
    ensures
        s.all(goal),
{
    assert forall|i: int| 0 <= i < s.len() implies #[trigger] goal(s[i]) by {
        assert(given(s[i]));
    }
}

} // verus!
