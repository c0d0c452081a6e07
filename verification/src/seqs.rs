//! Facts about sequences that several proofs need.

use vstd::prelude::*;

verus! {

/// Of a sequence from place `i` on, a filter keeps the first element or not, and then what it
/// keeps of the rest.
pub proof fn lemma_filter_from<A>(s: Seq<A>, i: int, pred: spec_fn(A) -> bool)
    requires
        0 <= i <= s.len(),
    ensures
        i < s.len() && pred(s[i]) ==> s.skip(i).filter(pred) == seq![s[i]] + s.skip(i + 1).filter(
            pred,
        ),
        i < s.len() && !pred(s[i]) ==> s.skip(i).filter(pred) == s.skip(i + 1).filter(pred),
        i == s.len() ==> s.skip(i).filter(pred) == Seq::<A>::empty(),
{
    reveal_with_fuel(Seq::filter, 2);
    if i < s.len() {
        let head = seq![s[i]];
        assert(s.skip(i) =~= head + s.skip(i + 1));
        Seq::filter_distributes_over_add(head, s.skip(i + 1), pred);
        assert(head.drop_last() =~= Seq::empty());
        if pred(s[i]) {
            assert(head.filter(pred) =~= head);
        } else {
            assert(head.filter(pred) =~= Seq::empty());
            assert(Seq::empty() + s.skip(i + 1).filter(pred) =~= s.skip(i + 1).filter(pred));
        }
    } else {
        assert(s.skip(i) =~= Seq::empty());
    }
}

} // verus!
