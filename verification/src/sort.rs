//! Sorting that keeps the order of what ranks the same.
use vstd::prelude::*;

verus! {

/// Values that are shown in an order.
pub trait Ranked: DeepView + Sized {
    /// `a` must come before `b`.
    spec fn ahead(a: Self::V, b: Self::V) -> bool;

    /// What comes before something comes before everything that does not come before it.
    proof fn ahead_splits(a: Self::V, b: Self::V, c: Self::V)
        requires
            Self::ahead(a, b),
        ensures
            Self::ahead(a, c) || Self::ahead(c, b),
    ;

    proof fn ahead_is_one_way(a: Self::V, b: Self::V)
        requires
            Self::ahead(a, b),
        ensures
            !Self::ahead(b, a),
    ;

    fn is_ahead(&self, other: &Self) -> (r: bool)
        ensures
            r == Self::ahead(self.deep_view(), other.deep_view()),
    ;
}

/// Neither must come before the other.
pub open spec fn level<T: Ranked>(a: T::V, b: T::V) -> bool {
    !T::ahead(a, b) && !T::ahead(b, a)
}

/// Nothing stands behind what it must come before.
pub open spec fn in_order<T: Ranked>(list: Seq<T::V>) -> bool {
    forall|i: int, j: int|
        0 <= i < j < list.len() ==> !T::ahead(#[trigger] list[j], #[trigger] list[i])
}

/// The values that rank the same as `x`.
pub open spec fn level_with<T: Ranked>(list: Seq<T::V>, x: T::V) -> Seq<T::V> {
    list.filter(|v: T::V| level::<T>(v, x))
}

/// `sorted` holds what `list` holds, in order; what ranks the same keeps its order.
pub open spec fn is_sorted_from<T: Ranked>(list: Seq<T::V>, sorted: Seq<T::V>) -> bool {
    &&& in_order::<T>(sorted)
    &&& sorted.len() == list.len()
    &&& forall|x: T::V| #[trigger] level_with::<T>(sorted, x) == level_with::<T>(list, x)
}

proof fn lemma_filter_none<A>(list: Seq<A>, keep: spec_fn(A) -> bool)
    requires
        forall|i: int| 0 <= i < list.len() ==> !keep(#[trigger] list[i]),
    ensures
        list.filter(keep) == Seq::<A>::empty(),
    decreases list.len(),
{
    reveal(Seq::filter);
    if list.len() > 0 {
        let fewer = list.drop_last();
        assert forall|i: int| 0 <= i < fewer.len() implies !keep(#[trigger] fewer[i]) by {
            assert(fewer[i] == list[i]);
        }
        lemma_filter_none(fewer, keep);
        assert(!keep(list[list.len() - 1]));
    }
}

proof fn lemma_filter_push<A>(list: Seq<A>, a: A, keep: spec_fn(A) -> bool)
    ensures
        list.push(a).filter(keep) == if keep(a) {
            list.filter(keep).push(a)
        } else {
            list.filter(keep)
        },
{
    reveal(Seq::filter);
    assert(list.push(a).drop_last() =~= list);
}

proof fn lemma_level<T: Ranked>(a: T::V, b: T::V, x: T::V)
    requires
        T::ahead(a, b),
        level::<T>(a, x),
    ensures
        !level::<T>(b, x),
{
    T::ahead_splits(a, b, x);
}

/// Where an element goes into a sorted list: behind everything that it must not come before.
proof fn lemma_insert<T: Ranked>(list: Seq<T::V>, sorted: Seq<T::V>, n: int, v: T::V)
    requires
        is_sorted_from::<T>(list, sorted),
        0 <= n <= sorted.len(),
        n > 0 ==> !T::ahead(v, sorted[n - 1]),
        forall|j: int| n <= j < sorted.len() ==> T::ahead(v, #[trigger] sorted[j]),
    ensures
        is_sorted_from::<T>(list.push(v), sorted.insert(n, v)),
{
    let longer = sorted.insert(n, v);
    assert forall|i: int, j: int| 0 <= i < j < longer.len() implies !T::ahead(
        #[trigger] longer[j],
        #[trigger] longer[i],
    ) by {
        let a = if i < n { i } else { i - 1 };
        let b = if j < n { j } else { j - 1 };
        if i == n {
            assert(longer[j] == sorted[b]);
            T::ahead_is_one_way(v, sorted[b]);
        } else if j == n {
            assert(longer[i] == sorted[a]);
            if T::ahead(v, sorted[a]) {
                if a < n - 1 {
                    T::ahead_splits(v, sorted[a], sorted[n - 1]);
                }
            }
        } else {
            assert(longer[i] == sorted[a] && longer[j] == sorted[b]);
        }
    }
    assert forall|x: T::V| #[trigger] level_with::<T>(longer, x) == level_with::<T>(
        list.push(v),
        x,
    ) by {
        let keep = |w: T::V| level::<T>(w, x);
        let front = sorted.take(n);
        let back = sorted.skip(n);
        assert(sorted =~= front + back);
        assert(longer =~= front.push(v) + back);
        Seq::filter_distributes_over_add(front, back, keep);
        Seq::filter_distributes_over_add(front.push(v), back, keep);
        lemma_filter_push(front, v, keep);
        lemma_filter_push(list, v, keep);
        assert(level_with::<T>(sorted, x) == level_with::<T>(list, x));
        if keep(v) {
            assert forall|i: int| 0 <= i < back.len() implies !keep(#[trigger] back[i]) by {
                assert(back[i] == sorted[n + i]);
                lemma_level::<T>(v, back[i], x);
            }
            lemma_filter_none(back, keep);
            assert(front.filter(keep) + Seq::<T::V>::empty() =~= front.filter(keep));
            assert(front.push(v).filter(keep) + Seq::<T::V>::empty() =~= front.push(v).filter(keep));
        }
    }
}

/// Puts the values in order.
pub fn sorted<T: Ranked>(list: Vec<T>) -> (out: Vec<T>)
    ensures
        is_sorted_from::<T>(list.deep_view(), out.deep_view()),
{
    let ghost all = list.deep_view();
    let mut rest = list;
    let mut out: Vec<T> = Vec::new();
    assert(out.deep_view() =~= Seq::empty());
    assert(all.take(0) =~= Seq::empty());
    assert(all.skip(0) =~= all);
    while rest.len() > 0
        invariant
            rest@.len() <= all.len(),
            rest.deep_view() == all.skip(all.len() - rest@.len()),
            is_sorted_from::<T>(all.take(all.len() - rest@.len()), out.deep_view()),
        decreases rest@.len(),
    {
        let ghost done = all.len() - rest@.len();
        let ghost before = rest.deep_view();
        let v = rest.remove(0);
        let ghost w = v.deep_view();
        proof {
            assert(w == before[0]);
            assert(rest.deep_view() =~= before.drop_first());
            assert(all.skip(done).drop_first() =~= all.skip(done + 1));
        }
        let mut n: usize = out.len();
        while n > 0 && v.is_ahead(&out[n - 1])
            invariant
                n <= out@.len(),
                forall|j: int|
                    n <= j < out@.len() ==> T::ahead(
                        v.deep_view(),
                        (#[trigger] out@[j]).deep_view(),
                    ),
            decreases n,
        {
            n -= 1;
        }
        let ghost earlier = out.deep_view();
        proof {
            assert(n > 0 ==> earlier[n - 1] == out@[n - 1].deep_view());
            assert forall|j: int| n <= j < earlier.len() implies T::ahead(
                w,
                #[trigger] earlier[j],
            ) by {
                assert(earlier[j] == out@[j].deep_view());
            }
            lemma_insert::<T>(all.take(done), earlier, n as int, w);
            assert(all.take(done).push(w) =~= all.take(done + 1));
        }
        out.insert(n, v);
        assert(out.deep_view() =~= earlier.insert(n as int, w));
    }
    assert(all.take(all.len() as int) =~= all);
    out
}

/// The first of the values that rank the same as the first one is the first one.
proof fn lemma_level_first<T: Ranked>(list: Seq<T::V>, x: T::V)
    requires
        list.len() > 0,
    ensures
        level_with::<T>(list, x) == if level::<T>(list[0], x) {
            seq![list[0]] + level_with::<T>(list.drop_first(), x)
        } else {
            level_with::<T>(list.drop_first(), x)
        },
{
    let keep = |v: T::V| level::<T>(v, x);
    let front = Seq::<T::V>::empty().push(list[0]);
    assert(list =~= front + list.drop_first());
    Seq::filter_distributes_over_add(front, list.drop_first(), keep);
    lemma_filter_push(Seq::<T::V>::empty(), list[0], keep);
    lemma_filter_none(Seq::<T::V>::empty(), keep);
    if keep(list[0]) {
        assert(Seq::<T::V>::empty().push(list[0]) =~= seq![list[0]]);
    } else {
        assert(Seq::<T::V>::empty() + list.drop_first().filter(keep)
            =~= list.drop_first().filter(keep));
    }
}

/// A value of one list is, in another with the same values rank by rank, one too.
proof fn lemma_found<T: Ranked>(a: Seq<T::V>, b: Seq<T::V>, i: int) -> (j: int)
    requires
        0 <= i < a.len(),
        level_with::<T>(a, a[i]) == level_with::<T>(b, a[i]),
    ensures
        0 <= j < b.len(),
        b[j] == a[i],
{
    let x = a[i];
    let keep = |v: T::V| level::<T>(v, x);
    if T::ahead(x, x) {
        T::ahead_is_one_way(x, x);
    }
    a.lemma_filter_contains(keep, i);
    let k = choose|k: int| 0 <= k < b.filter(keep).len() && b.filter(keep)[k] == x;
    b.lemma_filter_contains_rev(keep, x);
    choose|j: int| 0 <= j < b.len() && b[j] == x
}

/// There is only one way to put values in order.
pub proof fn lemma_sorted_one_way<T: Ranked>(a: Seq<T::V>, b: Seq<T::V>)
    requires
        in_order::<T>(a),
        in_order::<T>(b),
        a.len() == b.len(),
        forall|x: T::V| #[trigger] level_with::<T>(a, x) == level_with::<T>(b, x),
    ensures
        a == b,
    decreases a.len(),
{
    if a.len() > 0 {
        let x = a[0];
        let y = b[0];
        if T::ahead(x, x) {
            T::ahead_is_one_way(x, x);
        }
        if T::ahead(x, y) {
            assert(level_with::<T>(b, x) == level_with::<T>(a, x));
            let j = lemma_found::<T>(a, b, 0);
            if j != 0 {
                assert(!T::ahead(b[j], b[0]));
            }
        }
        if T::ahead(y, x) {
            assert(level_with::<T>(a, y) == level_with::<T>(b, y));
            let j = lemma_found::<T>(b, a, 0);
            if j != 0 {
                assert(!T::ahead(a[j], a[0]));
            } else {
                T::ahead_is_one_way(y, x);
            }
        }
        lemma_level_first::<T>(a, x);
        lemma_level_first::<T>(b, x);
        assert(level_with::<T>(a, x)[0] == x);
        assert(level_with::<T>(b, x)[0] == y);
        let rest_a = a.drop_first();
        let rest_b = b.drop_first();
        assert forall|z: T::V| #[trigger] level_with::<T>(rest_a, z) == level_with::<T>(
            rest_b,
            z,
        ) by {
            lemma_level_first::<T>(a, z);
            lemma_level_first::<T>(b, z);
            assert(level_with::<T>(a, z) == level_with::<T>(b, z));
            if level::<T>(x, z) {
                let la = level_with::<T>(a, z);
                assert(la.drop_first() =~= level_with::<T>(rest_a, z));
                assert(la.drop_first() =~= level_with::<T>(rest_b, z));
            }
        }
        lemma_sorted_one_way::<T>(rest_a, rest_b);
        assert(a =~= seq![x] + rest_a);
        assert(b =~= seq![y] + rest_b);
    }
}

proof fn lemma_filter_contains<A>(list: Seq<A>, keep: spec_fn(A) -> bool, x: A)
    ensures
        list.filter(keep).contains(x) == (list.contains(x) && keep(x)),
    decreases list.len(),
{
    reveal(Seq::filter);
    if list.len() > 0 {
        let fewer = list.drop_last();
        let last = list.last();
        let kept = fewer.filter(keep);
        lemma_filter_contains(fewer, keep, x);
        if fewer.contains(x) {
            let i = choose|i: int| 0 <= i < fewer.len() && fewer[i] == x;
            assert(list[i] == x);
        }
        assert(list[list.len() - 1] == last);
        if list.contains(x) && x != last {
            let i = choose|i: int| 0 <= i < list.len() && list[i] == x;
            assert(fewer[i] == x);
        }
        if keep(last) {
            let all = kept.push(last);
            assert(all[kept.len() as int] == last);
            if kept.contains(x) {
                let i = choose|i: int| 0 <= i < kept.len() && kept[i] == x;
                assert(all[i] == x);
            }
            if all.contains(x) && x != last {
                let i = choose|i: int| 0 <= i < all.len() && all[i] == x;
                assert(kept[i] == x);
            }
        }
    }
}

/// What is put in order stays: nothing is lost and nothing is added, and nothing stands behind
/// what it must come before.
pub proof fn lemma_sorted_holds_the_same<T: Ranked>(list: Seq<T::V>, out: Seq<T::V>, x: T::V)
    requires
        is_sorted_from::<T>(list, out),
    ensures
        out.len() == list.len(),
        out.contains(x) == list.contains(x),
        forall|i: int, j: int|
            0 <= i < j < out.len() ==> !T::ahead(#[trigger] out[j], #[trigger] out[i]),
{
    let keep = |v: T::V| level::<T>(v, x);
    lemma_filter_contains(list, keep, x);
    lemma_filter_contains(out, keep, x);
    assert(level_with::<T>(out, x) == level_with::<T>(list, x));
    if T::ahead(x, x) {
        T::ahead_is_one_way(x, x);
    }
    assert(keep(x));
}

} // verus!
