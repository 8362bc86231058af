//! Facts about filtering a sequence by a test.

use vstd::prelude::*;

verus! {

/// Filtering a sequence that ends in `x` filters what is before `x` and
/// keeps `x` behind it if `x` passes.
pub proof fn lemma_filter_push<A>(s: Seq<A>, x: A, pred: spec_fn(A) -> bool)
    ensures
        s.push(x).filter(pred) == if pred(x) {
            s.filter(pred).push(x)
        } else {
            s.filter(pred)
        },
{
    reveal_with_fuel(Seq::<_>::filter, 1);
    assert(s.push(x).drop_last() =~= s);
}

/// Filtering by `p` and then by `q` is filtering once by both.
pub proof fn lemma_filter_twice<A>(
    s: Seq<A>,
    p: spec_fn(A) -> bool,
    q: spec_fn(A) -> bool,
    both: spec_fn(A) -> bool,
)
    requires
        forall|x: A| #[trigger] both(x) == (p(x) && q(x)),
    ensures
        s.filter(p).filter(q) == s.filter(both),
    decreases s.len(),
{
    reveal_with_fuel(Seq::<_>::filter, 1);
    if s.len() > 0 {
        let rest = s.drop_last();
        let x = s.last();
        lemma_filter_twice(rest, p, q, both);
        assert(s =~= rest.push(x));
        lemma_filter_push(rest, x, p);
        lemma_filter_push(rest, x, both);
        if p(x) {
            lemma_filter_push(rest.filter(p), x, q);
        }
    }
}

/// Two tests that agree on every value keep the same elements.
pub proof fn lemma_filter_agree<A>(s: Seq<A>, p: spec_fn(A) -> bool, q: spec_fn(A) -> bool)
    requires
        forall|x: A| #[trigger] p(x) == q(x),
    ensures
        s.filter(p) == s.filter(q),
    decreases s.len(),
{
    reveal_with_fuel(Seq::<_>::filter, 1);
    if s.len() > 0 {
        lemma_filter_agree(s.drop_last(), p, q);
    }
}

/// A test that nothing fails removes nothing.
pub proof fn lemma_filter_none_fails<A>(s: Seq<A>, pred: spec_fn(A) -> bool)
    requires
        forall|x: A| #[trigger] pred(x),
    ensures
        s.filter(pred) == s,
    decreases s.len(),
{
    reveal_with_fuel(Seq::<_>::filter, 1);
    if s.len() > 0 {
        lemma_filter_none_fails(s.drop_last(), pred);
        assert(s.drop_last().push(s.last()) =~= s);
    }
}

/// A test that nothing passes keeps nothing.
pub proof fn lemma_filter_none_pass<A>(s: Seq<A>, pred: spec_fn(A) -> bool)
    requires
        forall|i: int| 0 <= i < s.len() ==> !pred(#[trigger] s[i]),
    ensures
        s.filter(pred) == Seq::<A>::empty(),
    decreases s.len(),
{
    reveal_with_fuel(Seq::<_>::filter, 1);
    if s.len() > 0 {
        lemma_filter_none_pass(s.drop_last(), pred);
    }
}

} // verus!
