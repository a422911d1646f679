//! Small general facts about sequences that the store and the query
//! engine lean on: how `filter` interacts with appending one element,
//! and how a sequence is covered by consecutive slices.

use vstd::prelude::*;

verus! {

/// Filtering after appending one element: the element passes or not.
pub proof fn lemma_filter_push<A>(s: Seq<A>, x: A, pred: spec_fn(A) -> bool)
    ensures
        s.push(x).filter(pred) == if pred(x) {
            s.filter(pred).push(x)
        } else {
            s.filter(pred)
        },
{
    reveal(Seq::filter);
    assert(s.push(x).drop_last() =~= s);
    assert(s.push(x).last() == x);
    if pred(x) {
        assert(s.push(x).filter(pred) =~= s.filter(pred).push(x));
    }
}

/// The filter of the empty sequence is empty.
pub proof fn lemma_filter_empty<A>(pred: spec_fn(A) -> bool)
    ensures
        Seq::<A>::empty().filter(pred) == Seq::<A>::empty(),
{
    reveal(Seq::filter);
}

/// A filter that accepts every element changes nothing.
pub proof fn lemma_filter_all<A>(s: Seq<A>, pred: spec_fn(A) -> bool)
    requires
        forall|i: int| 0 <= i < s.len() ==> pred(#[trigger] s[i]),
    ensures
        s.filter(pred) == s,
    decreases s.len(),
{
    reveal(Seq::filter);
    if s.len() > 0 {
        assert(forall|i: int|
            0 <= i < s.drop_last().len() ==> #[trigger] s.drop_last()[i] == s[i]);
        lemma_filter_all(s.drop_last(), pred);
        assert(pred(s[s.len() - 1]));
        assert(s.drop_last().push(s.last()) =~= s);
    }
}

/// A filter that rejects every element leaves nothing.
pub proof fn lemma_filter_none<A>(s: Seq<A>, pred: spec_fn(A) -> bool)
    requires
        forall|i: int| 0 <= i < s.len() ==> !pred(#[trigger] s[i]),
    ensures
        s.filter(pred) == Seq::<A>::empty(),
    decreases s.len(),
{
    reveal(Seq::filter);
    if s.len() > 0 {
        assert(forall|i: int|
            0 <= i < s.drop_last().len() ==> #[trigger] s.drop_last()[i] == s[i]);
        lemma_filter_none(s.drop_last(), pred);
        assert(!pred(s[s.len() - 1]));
    }
}

/// Predicates that agree pointwise filter alike.
pub proof fn lemma_filter_agree<A>(s: Seq<A>, p: spec_fn(A) -> bool, q: spec_fn(A) -> bool)
    requires
        forall|x: A| #[trigger] p(x) == q(x),
    ensures
        s.filter(p) == s.filter(q),
    decreases s.len(),
{
    reveal(Seq::filter);
    if s.len() > 0 {
        lemma_filter_agree(s.drop_last(), p, q);
    }
}

/// Filtering commutes with mapping when the predicate only looks at
/// the mapped image.
pub proof fn lemma_filter_map_commute<A, B>(
    s: Seq<A>,
    f: spec_fn(A) -> B,
    pred_a: spec_fn(A) -> bool,
    pred_b: spec_fn(B) -> bool,
)
    requires
        forall|a: A| #[trigger] pred_a(a) == pred_b(f(a)),
    ensures
        s.filter(pred_a).map_values(f) == s.map_values(f).filter(pred_b),
    decreases s.len(),
{
    reveal(Seq::filter);
    if s.len() == 0 {
        assert(s.filter(pred_a).map_values(f) =~= s.map_values(f).filter(pred_b));
    } else {
        let rest = s.drop_last();
        lemma_filter_map_commute(rest, f, pred_a, pred_b);
        assert(s.map_values(f).drop_last() =~= rest.map_values(f));
        assert(s.map_values(f).last() == f(s.last()));
        if pred_a(s.last()) {
            assert(s.filter(pred_a).map_values(f) =~= rest.filter(pred_a).map_values(f).push(
                f(s.last()),
            ));
        }
    }
}

/// Filtering preserves any pairwise distinctness of the elements.
pub proof fn lemma_filter_distinct<A>(
    s: Seq<A>,
    pred: spec_fn(A) -> bool,
    differs: spec_fn(A, A) -> bool,
)
    requires
        forall|i: int, j: int| 0 <= i < j < s.len() ==> #[trigger] differs(s[i], s[j]),
        forall|a: A, b: A| #[trigger] differs(a, b) ==> differs(b, a),
    ensures
        forall|i: int, j: int|
            0 <= i < j < s.filter(pred).len() ==> #[trigger] differs(
                s.filter(pred)[i],
                s.filter(pred)[j],
            ),
    decreases s.len(),
{
    reveal(Seq::filter);
    if s.len() > 0 {
        let rest = s.drop_last();
        assert(forall|i: int, j: int|
            0 <= i < j < rest.len() ==> #[trigger] differs(rest[i], rest[j])) by {
            assert(forall|k: int| 0 <= k < rest.len() ==> rest[k] == s[k]);
        }
        lemma_filter_distinct(rest, pred, differs);
        let f = s.filter(pred);
        let fr = rest.filter(pred);
        if pred(s.last()) {
            assert(f == fr.push(s.last()));
            assert forall|i: int, j: int| 0 <= i < j < f.len() implies #[trigger] differs(
                f[i],
                f[j],
            ) by {
                if j < f.len() - 1 {
                    assert(differs(fr[i], fr[j]));
                } else {
                    assert(f[i] == fr[i]);
                    assert(fr.contains(fr[i]));
                    rest.lemma_filter_contains_rev(pred, fr[i]);
                    let k = choose|k: int| 0 <= k < rest.len() && rest[k] == fr[i];
                    assert(s[k] == fr[i]);
                    assert(differs(s[k], s[s.len() - 1]));
                }
            }
        }
    }
}

} // verus!
