//! A stable sort.

use vstd::prelude::*;

use crate::seqs::views;

verus! {

/// How many of the leading elements of `s` come before `x`.
pub open spec fn rank<V>(s: Seq<V>, x: V, before: spec_fn(V, V) -> bool) -> nat
    decreases s.len(),
{
    if s.len() > 0 && before(s[0], x) {
        1 + rank(s.drop_first(), x, before)
    } else {
        0
    }
}

/// `s` in the order of `before`. Elements that are not ordered among themselves stay in the order
/// in which they stand in `s`.
pub open spec fn stable_sorted<V>(s: Seq<V>, before: spec_fn(V, V) -> bool) -> Seq<V>
    decreases s.len(),
{
    if s.len() == 0 {
        s
    } else {
        let rest = stable_sorted(s.drop_first(), before);
        rest.insert(rank(rest, s[0], before) as int, s[0])
    }
}

/// Neither comes before the other.
pub open spec fn same_rank<V>(a: V, b: V, before: spec_fn(V, V) -> bool) -> bool {
    !before(a, b) && !before(b, a)
}

/// `before` orders elements by some key: of two elements at most one comes before the other, and
/// where one does, a third follows the first or comes before the second.
pub open spec fn is_ranking<V>(before: spec_fn(V, V) -> bool) -> bool {
    &&& forall|a: V, b: V| #[trigger] before(a, b) ==> !before(b, a)
    &&& forall|a: V, b: V, c: V|
        #![trigger before(a, b), before(c, b)]
        #![trigger before(a, b), before(a, c)]
        before(a, b) ==> before(a, c) || before(c, b)
}

/// Nothing stands behind an element that it comes before.
pub open spec fn is_sorted<V>(s: Seq<V>, before: spec_fn(V, V) -> bool) -> bool {
    forall|i: int, j: int| 0 <= i < j < s.len() ==> !before(#[trigger] s[j], #[trigger] s[i])
}

pub proof fn lemma_rank<V>(s: Seq<V>, x: V, before: spec_fn(V, V) -> bool)
    ensures
        rank(s, x, before) <= s.len(),
        forall|i: int| 0 <= i < rank(s, x, before) ==> before(#[trigger] s[i], x),
        rank(s, x, before) < s.len() ==> !before(s[rank(s, x, before) as int], x),
    decreases s.len(),
{
    if s.len() > 0 && before(s[0], x) {
        let rest = s.drop_first();
        lemma_rank(rest, x, before);
        assert forall|i: int| 0 <= i < rank(s, x, before) implies before(#[trigger] s[i], x) by {
            if i > 0 {
                assert(s[i] == rest[i - 1]);
            }
        }
    }
}

/// `k` leading elements come before `x`, and the next one, if any, does not.
proof fn lemma_rank_is<V>(s: Seq<V>, x: V, before: spec_fn(V, V) -> bool, k: nat)
    requires
        k <= s.len(),
        forall|i: int| 0 <= i < k ==> before(#[trigger] s[i], x),
        k < s.len() ==> !before(s[k as int], x),
    ensures
        rank(s, x, before) == k,
    decreases s.len(),
{
    if s.len() > 0 && k > 0 {
        let rest = s.drop_first();
        assert forall|i: int| 0 <= i < k - 1 implies before(#[trigger] rest[i], x) by {
            assert(rest[i] == s[i + 1]);
        }
        lemma_rank_is(rest, x, before, (k - 1) as nat);
    }
}

/// Sorting puts every element in its place.
pub proof fn law_sorting_sorts<V>(s: Seq<V>, before: spec_fn(V, V) -> bool)
    requires
        is_ranking(before),
    ensures
        is_sorted(stable_sorted(s, before), before),
    decreases s.len(),
{
    if s.len() > 0 {
        let x = s[0];
        let rest = stable_sorted(s.drop_first(), before);
        let k = rank(rest, x, before);
        let all = stable_sorted(s, before);
        law_sorting_sorts(s.drop_first(), before);
        lemma_rank(rest, x, before);
        assert forall|i: int, j: int| 0 <= i < j < all.len() implies !before(
            #[trigger] all[j],
            #[trigger] all[i],
        ) by {
            let ri = if i < k {
                i
            } else {
                i - 1
            };
            let rj = if j < k {
                j
            } else {
                j - 1
            };
            if i != k {
                assert(all[i] == rest[ri]);
            }
            if j != k {
                assert(all[j] == rest[rj]);
            }
            if i == k {
                if before(all[j], x) {
                    if rj > k {
                        assert(!before(rest[rj], rest[k as int]));
                    }
                    assert(!before(rest[k as int], x));
                    assert(before(rest[rj], rest[k as int]) || before(rest[k as int], x));
                    assert(false);
                }
            } else if j == k {
                assert(before(rest[i], x));
            }
        }
    }
}

/// Sorting keeps every element, as often as it occurs.
pub proof fn law_sorting_permutes<V>(s: Seq<V>, before: spec_fn(V, V) -> bool)
    ensures
        stable_sorted(s, before).to_multiset() == s.to_multiset(),
    decreases s.len(),
{
    broadcast use {vstd::multiset::group_multiset_axioms, vstd::seq_lib::group_to_multiset_ensures};

    if s.len() > 0 {
        let x = s[0];
        let rest = stable_sorted(s.drop_first(), before);
        let k = rank(rest, x, before) as int;
        law_sorting_permutes(s.drop_first(), before);
        lemma_rank(rest, x, before);
        let low = rest.subrange(0, k);
        let high = rest.subrange(k, rest.len() as int);
        assert(low + high =~= rest);
        vstd::seq_lib::lemma_multiset_commutative(low, high);
        vstd::seq_lib::lemma_multiset_commutative(low.push(x), high);
        vstd::seq_lib::lemma_multiset_commutative(seq![x], s.drop_first());
        assert(seq![x] + s.drop_first() =~= s);
        assert(Seq::<V>::empty().push(x) =~= seq![x]);
        assert(stable_sorted(s, before).to_multiset() =~= s.to_multiset());
    }
}

/// Sorting is stable: the elements that share `x`'s rank stay in their order.
pub proof fn law_sorting_is_stable<V>(s: Seq<V>, before: spec_fn(V, V) -> bool, x: V)
    requires
        is_ranking(before),
    ensures
        stable_sorted(s, before).filter(|e: V| same_rank(e, x, before)) == s.filter(
            |e: V| same_rank(e, x, before),
        ),
    decreases s.len(),
{
    let pred = |e: V| same_rank(e, x, before);
    if s.len() > 0 {
        let first = s[0];
        let rest = stable_sorted(s.drop_first(), before);
        let k = rank(rest, first, before) as int;
        law_sorting_is_stable(s.drop_first(), before, x);
        lemma_rank(rest, first, before);
        let low = rest.subrange(0, k);
        let high = rest.subrange(k, rest.len() as int);
        let all = stable_sorted(s, before);
        assert(all =~= low + seq![first] + high);
        assert(rest =~= low + high);
        assert(s =~= seq![first] + s.drop_first());
        Seq::filter_distributes_over_add(low + seq![first], high, pred);
        Seq::filter_distributes_over_add(low, seq![first], pred);
        Seq::filter_distributes_over_add(low, high, pred);
        Seq::filter_distributes_over_add(seq![first], s.drop_first(), pred);
        if pred(first) {
            assert forall|i: int| 0 <= i < low.len() implies !pred(#[trigger] low[i]) by {
                assert(before(rest[i], first));
                assert(before(rest[i], x) || before(x, first));
            }
            lemma_filter_none(low, pred);
        } else {
            lemma_filter_none(seq![first], pred);
        }
        assert(all.filter(pred) =~= s.filter(pred));
    }
}

proof fn lemma_filter_none<V>(s: Seq<V>, pred: spec_fn(V) -> bool)
    requires
        forall|i: int| 0 <= i < s.len() ==> !pred(#[trigger] s[i]),
    ensures
        s.filter(pred) == Seq::<V>::empty(),
    decreases s.len(),
{
    reveal(Seq::filter);
    if s.len() > 0 {
        lemma_filter_none(s.drop_last(), pred);
    }
}

/// Where all elements that differ are ordered, the order in which they are given does not matter.
pub proof fn law_sorting_ignores_given_order<V>(
    a: Seq<V>,
    b: Seq<V>,
    before: spec_fn(V, V) -> bool,
)
    requires
        is_ranking(before),
        a.to_multiset() == b.to_multiset(),
        forall|i: int, j: int|
            0 <= i < a.len() && 0 <= j < a.len() && #[trigger] a[i] != #[trigger] a[j] ==> before(
                a[i],
                a[j],
            ) || before(a[j], a[i]),
    ensures
        stable_sorted(a, before) == stable_sorted(b, before),
{
    let sa = stable_sorted(a, before);
    let sb = stable_sorted(b, before);
    law_sorting_sorts(a, before);
    law_sorting_sorts(b, before);
    law_sorting_permutes(a, before);
    law_sorting_permutes(b, before);
    assert forall|x: V, y: V|
        sa.to_multiset().count(x) > 0 && sa.to_multiset().count(y) > 0 && x != y implies #[trigger] before(
        x,
        y,
    ) || before(y, x) by {
        broadcast use vstd::seq_lib::group_to_multiset_ensures;

        assert(a.contains(x) && a.contains(y));
        let i = choose|i: int| 0 <= i < a.len() && a[i] == x;
        let j = choose|j: int| 0 <= j < a.len() && a[j] == y;
        assert(a[i] != a[j]);
    }
    lemma_sorted_unique(sa, sb, before);
}

proof fn lemma_sorted_unique<V>(a: Seq<V>, b: Seq<V>, before: spec_fn(V, V) -> bool)
    requires
        is_sorted(a, before),
        is_sorted(b, before),
        a.to_multiset() == b.to_multiset(),
        forall|x: V, y: V|
            a.to_multiset().count(x) > 0 && a.to_multiset().count(y) > 0 && x != y
                ==> #[trigger] before(x, y) || before(y, x),
    ensures
        a == b,
    decreases a.len(),
{
    broadcast use {vstd::multiset::group_multiset_axioms, vstd::seq_lib::group_to_multiset_ensures};

    assert(a.len() == a.to_multiset().len());
    assert(b.len() == b.to_multiset().len());
    if a.len() == 0 {
        assert(a =~= b);
    } else {
        let x = a[0];
        let y = b[0];
        assert(a.contains(x) && b.contains(y));
        assert(b.to_multiset().count(x) > 0 && a.to_multiset().count(y) > 0);
        assert(b.contains(x) && a.contains(y));
        if x != y {
            let i = choose|i: int| 0 <= i < b.len() && b[i] == x;
            let j = choose|j: int| 0 <= j < a.len() && a[j] == y;
            assert(!before(b[i], b[0]));
            assert(!before(a[j], a[0]));
            assert(before(x, y) || before(y, x));
            assert(false);
        }
        let ra = a.remove(0);
        let rb = b.remove(0);
        assert(ra.to_multiset() =~= a.to_multiset().remove(x));
        assert(rb.to_multiset() =~= b.to_multiset().remove(x));
        assert forall|i: int, j: int| 0 <= i < j < ra.len() implies !before(
            #[trigger] ra[j],
            #[trigger] ra[i],
        ) by {
            assert(ra[i] == a[i + 1] && ra[j] == a[j + 1]);
        }
        assert forall|i: int, j: int| 0 <= i < j < rb.len() implies !before(
            #[trigger] rb[j],
            #[trigger] rb[i],
        ) by {
            assert(rb[i] == b[i + 1] && rb[j] == b[j + 1]);
        }
        lemma_sorted_unique(ra, rb, before);
        assert(a =~= seq![x] + ra);
        assert(b =~= seq![x] + rb);
    }
}

/// Sorts `items`. `less` decides `before` on their views.
pub(crate) fn stable_sort<T: View, F: Fn(&T, &T) -> bool>(
    items: Vec<T>,
    less: F,
    Ghost(before): Ghost<spec_fn(T::V, T::V) -> bool>,
) -> (r: Vec<T>)
    requires
        forall|a: &T, b: &T| call_requires(less, (a, b)),
        forall|a: &T, b: &T, r: bool| call_ensures(less, (a, b), r) ==> r == before(a@, b@),
    ensures
        views(r@) == stable_sorted(views(items@), before),
{
    let ghost all = views(items@);
    let mut left = items;
    let mut sorted: Vec<T> = Vec::new();
    proof {
        assert(all.skip(left@.len() as int) =~= Seq::<T::V>::empty());
        assert(views(sorted@) =~= stable_sorted(all.skip(left@.len() as int), before));
    }
    while left.len() > 0
        invariant
            forall|a: &T, b: &T| call_requires(less, (a, b)),
            forall|a: &T, b: &T, r: bool| call_ensures(less, (a, b), r) ==> r == before(a@, b@),
            left@.len() <= all.len(),
            views(left@) == all.take(left@.len() as int),
            views(sorted@) == stable_sorted(all.skip(left@.len() as int), before),
        decreases left.len(),
    {
        let ghost n = left@.len() as int;
        let ghost had = left@;
        let x = left.pop().unwrap();
        proof {
            assert(views(had)[n - 1] == x@);
            assert(all.skip(n - 1)[0] == x@);
            assert(all.skip(n - 1).drop_first() =~= all.skip(n));
            assert(views(left@) =~= all.take(n - 1));
        }
        let mut k: usize = 0;
        while k < sorted.len() && less(&sorted[k], &x)
            invariant
                forall|a: &T, b: &T| call_requires(less, (a, b)),
                forall|a: &T, b: &T, r: bool| call_ensures(less, (a, b), r) ==> r == before(a@, b@),
                k <= sorted@.len(),
                forall|i: int| 0 <= i < k ==> before(#[trigger] views(sorted@)[i], x@),
            ensures
                k <= sorted@.len(),
                forall|i: int| 0 <= i < k ==> before(#[trigger] views(sorted@)[i], x@),
                k < sorted@.len() ==> !before(views(sorted@)[k as int], x@),
            decreases sorted@.len() - k,
        {
            k = k + 1;
        }
        let ghost prior = sorted@;
        proof {
            lemma_rank_is(views(prior), x@, before, k as nat);
        }
        sorted.insert(k, x);
        proof {
            assert(views(sorted@) =~= views(prior).insert(k as int, x@));
        }
    }
    proof {
        assert(all.skip(0) =~= all);
    }
    sorted
}

} // verus!
