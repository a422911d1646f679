//! Stable insertion sort, specified once and shared by the folder-tree
//! builder (case-insensitive name order) and the query engine (the four
//! sort keys).
//!
//! `sort_le` is a deterministic specification: an executable sort that is
//! proved equal to it yields the same sequence on every call, which the
//! pagination contract depends on.

use vstd::prelude::*;
use vstd::multiset::Multiset;
use vstd::relations::sorted_by;

verus! {

/// A reflexive-total, transitive relation: what a sort key provides.
pub open spec fn total_preorder<A>(leq: spec_fn(A, A) -> bool) -> bool {
    (forall|a: A, b: A| #[trigger] leq(a, b) || #[trigger] leq(b, a)) && (forall|a: A, b: A, c: A|
        #[trigger] leq(a, b) && #[trigger] leq(b, c) ==> leq(a, c))
}

/// Inserts `x` behind every element `leq`-below-or-equal to it: the
/// stable insertion position.
pub open spec fn insert_le<A>(leq: spec_fn(A, A) -> bool, s: Seq<A>, x: A) -> Seq<A>
    decreases s.len(),
{
    if s.len() == 0 {
        seq![x]
    } else if leq(s.last(), x) {
        s.push(x)
    } else {
        insert_le(leq, s.drop_last(), x).push(s.last())
    }
}

/// Stable insertion sort of `s` under `leq`.
pub open spec fn sort_le<A>(leq: spec_fn(A, A) -> bool, s: Seq<A>) -> Seq<A>
    decreases s.len(),
{
    if s.len() == 0 {
        Seq::empty()
    } else {
        insert_le(leq, sort_le(leq, s.drop_last()), s.last())
    }
}

/// Inserting keeps sortedness.
pub proof fn lemma_insert_le_sorted<A>(leq: spec_fn(A, A) -> bool, s: Seq<A>, x: A)
    requires
        total_preorder(leq),
        sorted_by(s, leq),
    ensures
        sorted_by(insert_le(leq, s, x), leq),
        insert_le(leq, s, x).len() == s.len() + 1,
    decreases s.len(),
{
    if s.len() == 0 {
    } else if leq(s.last(), x) {
        let r = s.push(x);
        assert forall|i: int, j: int| 0 <= i < j < r.len() implies leq(r[i], r[j]) by {
            if j < r.len() - 1 {
                assert(leq(s[i], s[j]));
            } else {
                if i < s.len() - 1 {
                    assert(leq(s[i], s[s.len() - 1]));
                }
            }
        }
    } else {
        assert(sorted_by(s.drop_last(), leq)) by {
            assert(forall|i: int, j: int|
                0 <= i < j < s.len() - 1 ==> leq(s.drop_last()[i], s.drop_last()[j]));
        }
        lemma_insert_le_sorted(leq, s.drop_last(), x);
        let t = insert_le(leq, s.drop_last(), x);
        let r = t.push(s.last());
        assert(leq(x, s.last()));
        assert forall|i: int| 0 <= i < t.len() implies leq(t[i], s.last()) by {
            lemma_insert_le_elements(leq, s.drop_last(), x, i);
            if t[i] == x {
            } else {
                assert(s.drop_last().contains(t[i]));
                let k = choose|k: int|
                    0 <= k < s.drop_last().len() && s.drop_last()[k] == t[i];
                assert(leq(s[k], s[s.len() - 1]));
            }
        }
        assert forall|i: int, j: int| 0 <= i < j < r.len() implies leq(r[i], r[j]) by {
            if j < r.len() - 1 {
                assert(leq(t[i], t[j]));
            }
        }
    }
}

/// Every element of an insertion result is the inserted one or one of the
/// original sequence.
pub proof fn lemma_insert_le_elements<A>(leq: spec_fn(A, A) -> bool, s: Seq<A>, x: A, i: int)
    requires
        0 <= i < insert_le(leq, s, x).len(),
    ensures
        insert_le(leq, s, x)[i] == x || s.contains(insert_le(leq, s, x)[i]),
    decreases s.len(),
{
    if s.len() == 0 {
    } else if leq(s.last(), x) {
        if i < s.len() {
            assert(s.contains(s[i]));
        }
    } else {
        let t = insert_le(leq, s.drop_last(), x);
        if i < t.len() {
            lemma_insert_le_elements(leq, s.drop_last(), x, i);
            if t[i] != x {
                let k = choose|k: int|
                    0 <= k < s.drop_last().len() && s.drop_last()[k] == t[i];
                assert(s[k] == t[i]);
                assert(s.contains(s[k]));
            }
        } else {
            assert(s.contains(s[s.len() - 1]));
        }
    }
}

/// Insertion adds exactly the inserted element, as multisets.
pub proof fn lemma_insert_le_multiset<A>(leq: spec_fn(A, A) -> bool, s: Seq<A>, x: A)
    ensures
        insert_le(leq, s, x).to_multiset() == s.to_multiset().insert(x),
    decreases s.len(),
{
    broadcast use vstd::seq_lib::group_to_multiset_ensures;

    if s.len() == 0 {
        assert(seq![x] =~= Seq::empty().push(x));
        assert(Seq::<A>::empty().to_multiset() =~= Multiset::empty());
        assert(Seq::empty().push(x).to_multiset() =~= Multiset::empty().insert(x));
    } else if leq(s.last(), x) {
    } else {
        lemma_insert_le_multiset(leq, s.drop_last(), x);
        assert(s.drop_last().push(s.last()) =~= s);
        assert(insert_le(leq, s.drop_last(), x).push(s.last()).to_multiset() == insert_le(
            leq,
            s.drop_last(),
            x,
        ).to_multiset().insert(s.last()));
        assert(s.drop_last().to_multiset().insert(x).insert(s.last()) =~= s.drop_last()
            .to_multiset().insert(s.last()).insert(x));
        assert(s.drop_last().push(s.last()).to_multiset() == s.drop_last().to_multiset().insert(
            s.last(),
        ));
    }
}

/// Sorting permutes: the sorted sequence holds exactly the original
/// elements, with multiplicity.
pub proof fn lemma_sort_le_multiset<A>(leq: spec_fn(A, A) -> bool, s: Seq<A>)
    ensures
        sort_le(leq, s).to_multiset() == s.to_multiset(),
        sort_le(leq, s).len() == s.len(),
    decreases s.len(),
{
    broadcast use vstd::seq_lib::group_to_multiset_ensures;

    if s.len() == 0 {
    } else {
        lemma_sort_le_multiset(leq, s.drop_last());
        lemma_insert_le_multiset(leq, sort_le(leq, s.drop_last()), s.last());
        assert(s.drop_last().push(s.last()) =~= s);
        assert(s.drop_last().push(s.last()).to_multiset() == s.drop_last().to_multiset().insert(
            s.last(),
        ));
        lemma_insert_le_len(leq, sort_le(leq, s.drop_last()), s.last());
    }
}

/// Insertion grows the length by one.
pub proof fn lemma_insert_le_len<A>(leq: spec_fn(A, A) -> bool, s: Seq<A>, x: A)
    ensures
        insert_le(leq, s, x).len() == s.len() + 1,
    decreases s.len(),
{
    if s.len() == 0 {
    } else if leq(s.last(), x) {
    } else {
        lemma_insert_le_len(leq, s.drop_last(), x);
    }
}

/// The sorted sequence is sorted.
pub proof fn lemma_sort_le_sorted<A>(leq: spec_fn(A, A) -> bool, s: Seq<A>)
    requires
        total_preorder(leq),
    ensures
        sorted_by(sort_le(leq, s), leq),
    decreases s.len(),
{
    if s.len() > 0 {
        lemma_sort_le_sorted(leq, s.drop_last());
        lemma_insert_le_sorted(leq, sort_le(leq, s.drop_last()), s.last());
    }
}

/// A slice of a sorted sequence is sorted.
pub proof fn lemma_sorted_subrange<A>(s: Seq<A>, leq: spec_fn(A, A) -> bool, a: int, b: int)
    requires
        sorted_by(s, leq),
        0 <= a <= b <= s.len(),
    ensures
        sorted_by(s.subrange(a, b), leq),
{
    let t = s.subrange(a, b);
    assert forall|i: int, j: int| 0 <= i < j < t.len() implies leq(t[i], t[j]) by {
        assert(t[i] == s[a + i] && t[j] == s[a + j]);
        assert(leq(s[a + i], s[a + j]));
    }
}

/// Where the scan of an executable insertion lands, the specification
/// splices: `insert_le` equals cutting `s` at `j` and placing `x` there.
pub proof fn lemma_insert_le_splice<A>(leq: spec_fn(A, A) -> bool, s: Seq<A>, x: A, j: int)
    requires
        0 <= j <= s.len(),
        j > 0 ==> leq(s[j - 1], x),
        forall|k: int| j <= k < s.len() ==> !leq(#[trigger] s[k], x),
    ensures
        insert_le(leq, s, x) == s.subrange(0, j) + seq![x] + s.subrange(j, s.len() as int),
    decreases s.len(),
{
    if s.len() == 0 {
        assert(insert_le(leq, s, x) =~= s.subrange(0, j) + seq![x] + s.subrange(
            j,
            s.len() as int,
        ));
    } else if j == s.len() {
        assert(leq(s.last(), x));
        assert(s.push(x) =~= s.subrange(0, j) + seq![x] + s.subrange(j, s.len() as int));
    } else {
        assert(!leq(s[s.len() - 1], x));
        assert(forall|k: int| j <= k < s.drop_last().len() ==> !leq(#[trigger] s.drop_last()[k], x));
        assert(j > 0 ==> s.drop_last()[j - 1] == s[j - 1]);
        lemma_insert_le_splice(leq, s.drop_last(), x, j);
        assert(insert_le(leq, s.drop_last(), x).push(s.last()) =~= s.subrange(0, j) + seq![x]
            + s.subrange(j, s.len() as int)) by {
            assert(s.drop_last().subrange(0, j) =~= s.subrange(0, j));
            assert(s.drop_last().subrange(j, s.drop_last().len() as int) =~= s.subrange(
                j,
                s.len() - 1,
            ));
        }
    }
}

/// Insertion commutes with mapping when the comparator only looks at
/// the mapped image.
pub proof fn lemma_insert_le_map<A, B>(
    leqa: spec_fn(A, A) -> bool,
    leqb: spec_fn(B, B) -> bool,
    f: spec_fn(A) -> B,
    s: Seq<A>,
    x: A,
)
    requires
        forall|a1: A, a2: A| #[trigger] leqb(f(a1), f(a2)) == leqa(a1, a2),
    ensures
        insert_le(leqa, s, x).map_values(f) == insert_le(leqb, s.map_values(f), f(x)),
    decreases s.len(),
{
    let ms = s.map_values(f);
    if s.len() == 0 {
        assert(seq![x].map_values(f) =~= seq![f(x)]);
    } else {
        assert(ms.last() == f(s.last()));
        if leqa(s.last(), x) {
            assert(s.push(x).map_values(f) =~= ms.push(f(x)));
        } else {
            lemma_insert_le_map(leqa, leqb, f, s.drop_last(), x);
            assert(s.drop_last().map_values(f) =~= ms.drop_last());
            assert(insert_le(leqa, s.drop_last(), x).push(s.last()).map_values(f) =~= insert_le(
                leqa,
                s.drop_last(),
                x,
            ).map_values(f).push(f(s.last())));
        }
    }
}

/// Sorting commutes with mapping when the comparator only looks at the
/// mapped image.
pub proof fn lemma_sort_le_map<A, B>(
    leqa: spec_fn(A, A) -> bool,
    leqb: spec_fn(B, B) -> bool,
    f: spec_fn(A) -> B,
    s: Seq<A>,
)
    requires
        forall|a1: A, a2: A| #[trigger] leqb(f(a1), f(a2)) == leqa(a1, a2),
    ensures
        sort_le(leqa, s).map_values(f) == sort_le(leqb, s.map_values(f)),
    decreases s.len(),
{
    let ms = s.map_values(f);
    if s.len() == 0 {
        assert(Seq::<A>::empty().map_values(f) =~= Seq::<B>::empty());
    } else {
        lemma_sort_le_map(leqa, leqb, f, s.drop_last());
        assert(s.drop_last().map_values(f) =~= ms.drop_last());
        assert(ms.last() == f(s.last()));
        lemma_insert_le_map(leqa, leqb, f, sort_le(leqa, s.drop_last()), s.last());
    }
}

} // verus!
