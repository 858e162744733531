//! General facts about filtered sequences.

use vstd::prelude::*;

verus! {

/// Filtering by two predicates that agree on every element gives the same
/// sequence.
pub proof fn lemma_filter_congruent<A>(s: Seq<A>, p: spec_fn(A) -> bool, q: spec_fn(A) -> bool)
    requires
        forall|i: int| 0 <= i < s.len() ==> p(#[trigger] s[i]) == q(s[i]),
    ensures
        s.filter(p) == s.filter(q),
    decreases s.len(),
{
    if s.len() > 0 {
        let init = s.drop_last();
        assert forall|i: int| 0 <= i < init.len() implies p(#[trigger] init[i]) == q(init[i]) by {
            assert(init[i] == s[i]);
        }
        lemma_filter_congruent(init, p, q);
        assert(s =~= init.push(s.last()));
        init.lemma_filter_push(s.last(), p);
        init.lemma_filter_push(s.last(), q);
    } else {
        reveal(Seq::filter);
    }
}

/// A filtered sequence is empty exactly when no element meets the predicate.
pub proof fn lemma_filter_empty_iff<A>(s: Seq<A>, p: spec_fn(A) -> bool)
    ensures
        s.filter(p).len() == 0 <==> forall|i: int| 0 <= i < s.len() ==> !p(#[trigger] s[i]),
{
    if forall|i: int| 0 <= i < s.len() ==> !p(#[trigger] s[i]) {
        assert(s.all(|x: A| !p(x)));
        s.lemma_all_neg_filter_empty(p);
    } else {
        let i = choose|i: int| 0 <= i < s.len() && p(#[trigger] s[i]);
        s.lemma_filter_contains(p, i);
    }
}

/// Every element of a filtered sequence meets the predicate and is in the
/// unfiltered sequence; every element of that sequence that meets it is kept.
pub proof fn lemma_filter_contains_iff<A>(s: Seq<A>, p: spec_fn(A) -> bool, x: A)
    ensures
        s.filter(p).contains(x) <==> (s.contains(x) && p(x)),
{
    if s.filter(p).contains(x) {
        s.lemma_filter_contains_rev(p, x);
        let j = choose|j: int| 0 <= j < s.filter(p).len() && s.filter(p)[j] == x;
        s.lemma_filter_pred(p, j);
    }
    if s.contains(x) && p(x) {
        let i = choose|i: int| 0 <= i < s.len() && s[i] == x;
        s.lemma_filter_contains(p, i);
    }
}

/// Filtering keeps every element when all of them meet the predicate.
pub proof fn lemma_filter_all<A>(s: Seq<A>, p: spec_fn(A) -> bool)
    requires
        forall|i: int| 0 <= i < s.len() ==> p(#[trigger] s[i]),
    ensures
        s.filter(p) == s,
    decreases s.len(),
{
    reveal(Seq::filter);
    if s.len() > 0 {
        let init = s.drop_last();
        assert forall|i: int| 0 <= i < init.len() implies p(#[trigger] init[i]) by {
            assert(init[i] == s[i]);
        }
        lemma_filter_all(init, p);
        assert(p(s.last()));
        assert(s =~= init.push(s.last()));
    }
}

/// Filtering keeps nothing when no element meets the predicate.
pub proof fn lemma_filter_none<A>(s: Seq<A>, p: spec_fn(A) -> bool)
    requires
        forall|i: int| 0 <= i < s.len() ==> !p(#[trigger] s[i]),
    ensures
        s.filter(p) == Seq::<A>::empty(),
{
    lemma_filter_empty_iff(s, p);
    assert(s.filter(p) =~= Seq::<A>::empty());
}

/// How often a value occurs in a filtered sequence: as often as in the
/// unfiltered one when it meets the predicate, never otherwise.
pub proof fn lemma_filter_count<A>(s: Seq<A>, p: spec_fn(A) -> bool, x: A)
    ensures
        s.filter(p).to_multiset().count(x) == if p(x) {
            s.to_multiset().count(x)
        } else {
            0
        },
    decreases s.len(),
{
    broadcast use vstd::multiset::group_multiset_axioms;

    if s.len() == 0 {
        reveal(Seq::filter);
        assert(s.filter(p) =~= Seq::<A>::empty());
        vstd::seq_lib::to_multiset_contains(s, x);
        vstd::seq_lib::to_multiset_contains(s.filter(p), x);
    } else {
        let init = s.drop_last();
        let l = s.last();
        lemma_filter_count(init, p, x);
        assert(s =~= init.push(l));
        init.lemma_filter_push(l, p);
        vstd::seq_lib::to_multiset_build(init, l);
        vstd::seq_lib::to_multiset_build(init.filter(p), l);
    }
}

/// Filtering two sequences with the same elements, counted with
/// multiplicity, gives two sequences with the same elements.
pub proof fn lemma_filter_multiset<A>(s: Seq<A>, t: Seq<A>, p: spec_fn(A) -> bool)
    requires
        s.to_multiset() == t.to_multiset(),
    ensures
        s.filter(p).to_multiset() == t.filter(p).to_multiset(),
{
    assert forall|x: A| #[trigger] s.filter(p).to_multiset().count(x) == t.filter(
        p,
    ).to_multiset().count(x) by {
        lemma_filter_count(s, p, x);
        lemma_filter_count(t, p, x);
    }
    assert(s.filter(p).to_multiset() =~= t.filter(p).to_multiset());
}

/// Two sequences with the same elements, counted with multiplicity, contain
/// the same values.
pub proof fn lemma_multiset_contains<A>(s: Seq<A>, t: Seq<A>, x: A)
    requires
        s.to_multiset() == t.to_multiset(),
    ensures
        s.contains(x) == t.contains(x),
{
    vstd::seq_lib::to_multiset_contains(s, x);
    vstd::seq_lib::to_multiset_contains(t, x);
}

} // verus!
