//! Facts about filtering sequences that the graph's wire list relies on.

use vstd::prelude::*;

verus! {

/// Filtering one element further along: the new element is kept exactly when
/// it satisfies the predicate.
pub proof fn lemma_filter_step<A>(s: Seq<A>, i: int, p: spec_fn(A) -> bool)
    requires
        0 <= i < s.len(),
    ensures
        s.take(i + 1).filter(p) == (if p(s[i]) {
            s.take(i).filter(p).push(s[i])
        } else {
            s.take(i).filter(p)
        }),
{
    assert(s.take(i + 1).drop_last() =~= s.take(i));
    assert(s.take(i + 1).last() == s[i]);
    reveal_with_fuel(Seq::filter, 1);
}

/// Filtering the whole sequence is filtering its full prefix.
pub proof fn lemma_take_full<A>(s: Seq<A>)
    ensures
        s.take(s.len() as int) == s,
{
    assert(s.take(s.len() as int) =~= s);
}

/// A filter keeps only elements of the sequence, each of which satisfies the
/// predicate, and keeps every element that does.
pub proof fn lemma_filter_members<A>(s: Seq<A>, p: spec_fn(A) -> bool)
    ensures
        forall|x: A| #[trigger] s.filter(p).contains(x) <==> (s.contains(x) && p(x)),
{
    broadcast use vstd::seq_lib::group_filter_ensures;
    assert forall|x: A| #[trigger] s.filter(p).contains(x) implies (s.contains(x) && p(x)) by {
        s.lemma_filter_contains_rev(p, x);
        let k = choose|k: int| 0 <= k < s.filter(p).len() && s.filter(p)[k] == x;
        assert(p(s.filter(p)[k]));
    }
    assert forall|x: A| s.contains(x) && p(x) implies #[trigger] s.filter(p).contains(x) by {
        let k = choose|k: int| 0 <= k < s.len() && s[k] == x;
        assert(s.filter(p).contains(s[k]));
    }
}

/// Filtering a sequence without duplicates leaves none.
pub proof fn lemma_filter_no_duplicates<A>(s: Seq<A>, p: spec_fn(A) -> bool)
    requires
        s.no_duplicates(),
    ensures
        s.filter(p).no_duplicates(),
    decreases s.len(),
{
    reveal_with_fuel(Seq::filter, 1);
    if s.len() > 0 {
        let init = s.drop_last();
        assert(init.no_duplicates());
        lemma_filter_no_duplicates(init, p);
        if p(s.last()) {
            lemma_filter_members(init, p);
            assert(!init.contains(s.last()));
            assert(!init.filter(p).contains(s.last()));
            let f = init.filter(p).push(s.last());
            assert forall|i: int, j: int| 0 <= i < f.len() && 0 <= j < f.len() && i != j implies f[i]
                != f[j] by {
                if i == f.len() - 1 {
                    assert(init.filter(p)[j] == f[j]);
                } else if j == f.len() - 1 {
                    assert(init.filter(p)[i] == f[i]);
                }
            }
        }
    }
}

/// Filtering with a predicate every element satisfies changes nothing.
pub proof fn lemma_filter_keeps_all<A>(s: Seq<A>, p: spec_fn(A) -> bool)
    requires
        forall|i: int| 0 <= i < s.len() ==> p(#[trigger] s[i]),
    ensures
        s.filter(p) == s,
    decreases s.len(),
{
    reveal_with_fuel(Seq::filter, 1);
    if s.len() > 0 {
        let init = s.drop_last();
        assert forall|i: int| 0 <= i < init.len() implies p(#[trigger] init[i]) by {
            assert(init[i] == s[i]);
        }
        lemma_filter_keeps_all(init, p);
        assert(s.filter(p) =~= s);
    }
}

/// Filtering with a predicate no element satisfies leaves nothing.
pub proof fn lemma_filter_keeps_none<A>(s: Seq<A>, p: spec_fn(A) -> bool)
    requires
        forall|i: int| 0 <= i < s.len() ==> !p(#[trigger] s[i]),
    ensures
        s.filter(p) == Seq::<A>::empty(),
    decreases s.len(),
{
    reveal_with_fuel(Seq::filter, 1);
    if s.len() > 0 {
        let init = s.drop_last();
        assert forall|i: int| 0 <= i < init.len() implies !p(#[trigger] init[i]) by {
            assert(init[i] == s[i]);
        }
        lemma_filter_keeps_none(init, p);
    }
}

/// Filtering a pushed element on.
pub proof fn lemma_filter_push<A>(s: Seq<A>, x: A, p: spec_fn(A) -> bool)
    ensures
        s.push(x).filter(p) == (if p(x) {
            s.filter(p).push(x)
        } else {
            s.filter(p)
        }),
{
    reveal_with_fuel(Seq::filter, 1);
    assert(s.push(x).drop_last() =~= s);
}

/// Filtering by one predicate and then another is filtering by both.
pub proof fn lemma_filter_filter<A>(s: Seq<A>, p: spec_fn(A) -> bool, q: spec_fn(A) -> bool)
    ensures
        s.filter(p).filter(q) == s.filter(|x: A| p(x) && q(x)),
    decreases s.len(),
{
    reveal_with_fuel(Seq::filter, 1);
    if s.len() > 0 {
        let init = s.drop_last();
        lemma_filter_filter(init, p, q);
        lemma_filter_push(init.filter(p), s.last(), q);
    }
}

/// Filtering the one occurrence of `a` out of a sequence without duplicates
/// shortens it by one when `a` is there, and not at all otherwise.
pub proof fn lemma_filter_out_len<A>(s: Seq<A>, a: A, p: spec_fn(A) -> bool)
    requires
        s.no_duplicates(),
        forall|x: A| #[trigger] p(x) <==> x != a,
    ensures
        s.filter(p).len() == if s.contains(a) {
            s.len() - 1
        } else {
            s.len() as int
        },
{
    if s.contains(a) {
        let k = choose|k: int| 0 <= k < s.len() && s[k] == a;
        lemma_remove_is_filter(s, k, p);
    } else {
        assert forall|i: int| 0 <= i < s.len() implies p(#[trigger] s[i]) by {
            assert(s[i] != a);
        }
        lemma_filter_keeps_all(s, p);
    }
}

/// In a sequence without duplicates, removing the one place an element sits
/// is filtering that element out.
pub proof fn lemma_remove_is_filter<A>(s: Seq<A>, i: int, p: spec_fn(A) -> bool)
    requires
        s.no_duplicates(),
        0 <= i < s.len(),
        forall|x: A| #[trigger] p(x) <==> x != s[i],
    ensures
        s.remove(i) == s.filter(p),
{
    let front = s.take(i);
    let back = s.skip(i + 1);
    assert(s =~= front + seq![s[i]] + back);
    assert(s.remove(i) =~= front + back);
    assert forall|k: int| 0 <= k < front.len() implies p(#[trigger] front[k]) by {
        assert(front[k] == s[k]);
    }
    assert forall|k: int| 0 <= k < back.len() implies p(#[trigger] back[k]) by {
        assert(back[k] == s[i + 1 + k]);
    }
    lemma_filter_keeps_all(front, p);
    lemma_filter_keeps_all(back, p);
    lemma_filter_keeps_none(seq![s[i]], p);
    Seq::filter_distributes_over_add(front + seq![s[i]], back, p);
    Seq::filter_distributes_over_add(front, seq![s[i]], p);
}

} // verus!

verus! {

/// The elements of a sequence with one pushed are the elements before and
/// the one pushed.
pub proof fn lemma_push_to_set<A>(s: Seq<A>, x: A)
    ensures
        s.push(x).to_set() == s.to_set().insert(x),
{
    assert forall|y: A| #[trigger] s.push(x).to_set().contains(y) <==> s.to_set().insert(x).contains(y) by {
        if s.push(x).contains(y) && y != x {
            let k = choose|k: int| 0 <= k < s.push(x).len() && s.push(x)[k] == y;
            assert(s[k] == y);
        }
        if s.contains(y) {
            let k = choose|k: int| 0 <= k < s.len() && s[k] == y;
            assert(s.push(x)[k] == y);
        }
        if y == x {
            assert(s.push(x)[s.len() as int] == y);
        }
    }
    assert(s.push(x).to_set() =~= s.to_set().insert(x));
}

} // verus!

verus! {

/// The first `i + 1` elements hold what the first `i` hold, and the `i`th.
pub proof fn lemma_take_one_more<A>(s: Seq<A>, i: int)
    requires
        0 <= i < s.len(),
    ensures
        forall|x: A| #[trigger] s.take(i + 1).contains(x) <==> s.take(i).contains(x) || x == s[i],
{
    assert(s.take(i + 1) =~= s.take(i).push(s[i]));
    lemma_push_to_set(s.take(i), s[i]);
    assert forall|x: A| #[trigger] s.take(i + 1).contains(x) <==> s.take(i).contains(x) || x == s[i] by {
        assert(s.take(i + 1).to_set().contains(x) == s.take(i + 1).contains(x));
        assert(s.take(i).to_set().contains(x) == s.take(i).contains(x));
    }
}

} // verus!
