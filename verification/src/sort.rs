//! Stable sorting.

use vstd::prelude::*;

verus! {

/// `order` compares any two values, compares a value with itself, and chains.
pub open spec fn total_preorder<T>(order: spec_fn(T, T) -> bool) -> bool {
    &&& forall|a: T, b: T| #[trigger] order(a, b) || order(b, a)
    &&& forall|a: T, b: T, c: T|
        #[trigger] order(a, b) && #[trigger] order(b, c) ==> order(a, c)
}

/// Every value stands before those that it must not stand behind.
pub open spec fn sorted_by<T>(s: Seq<T>, order: spec_fn(T, T) -> bool) -> bool {
    forall|i: int, j: int| 0 <= i < j < s.len() ==> #[trigger] order(s[i], s[j])
}

/// `x` put into `s` behind every value that may stand before it.
pub open spec fn inserted<T>(s: Seq<T>, x: T, order: spec_fn(T, T) -> bool) -> Seq<T>
    decreases s.len(),
{
    if s.len() == 0 || order(s.last(), x) {
        s.push(x)
    } else {
        inserted(s.drop_last(), x, order).push(s.last())
    }
}

/// `s` in order. Values that may stand on either side of each other keep their places
/// relative to each other.
pub open spec fn stable_sorted<T>(s: Seq<T>, order: spec_fn(T, T) -> bool) -> Seq<T>
    decreases s.len(),
{
    if s.len() == 0 {
        Seq::empty()
    } else {
        inserted(stable_sorted(s.drop_last(), order), s.last(), order)
    }
}

proof fn lemma_inserted<T>(s: Seq<T>, x: T, order: spec_fn(T, T) -> bool)
    requires
        total_preorder(order),
        sorted_by(s, order),
    ensures
        sorted_by(inserted(s, x, order), order),
        inserted(s, x, order).len() == s.len() + 1,
        inserted(s, x, order).to_multiset() == s.to_multiset().insert(x),
        forall|y: T|
            #[trigger] inserted(s, x, order).contains(y) ==> y == x || s.contains(y),
    decreases s.len(),
{
    broadcast use vstd::seq_lib::group_to_multiset_ensures;

    if s.len() == 0 || order(s.last(), x) {
        assert forall|i: int, j: int| 0 <= i < j < s.push(x).len() implies #[trigger] order(
            s.push(x)[i],
            s.push(x)[j],
        ) by {
            if j == s.len() {
                if i < s.len() - 1 {
                    assert(order(s[i], s.last()));
                }
                assert(order(s[i], x));
            } else {
                assert(order(s[i], s[j]));
            }
        }
        assert forall|y: T| #[trigger] s.push(x).contains(y) implies y == x || s.contains(y) by {
            let k = choose|k: int| 0 <= k < s.push(x).len() && s.push(x)[k] == y;
            if k < s.len() {
                assert(s[k] == y);
            }
        }
    } else {
        let shorter = s.drop_last();
        assert(sorted_by(shorter, order)) by {
            assert forall|i: int, j: int| 0 <= i < j < shorter.len() implies #[trigger] order(
                shorter[i],
                shorter[j],
            ) by {
                assert(order(s[i], s[j]));
            }
        }
        lemma_inserted(shorter, x, order);
        let t = inserted(shorter, x, order);
        let last = s.last();
        assert(order(x, last));
        assert forall|i: int, j: int| 0 <= i < j < t.push(last).len() implies #[trigger] order(
            t.push(last)[i],
            t.push(last)[j],
        ) by {
            if j == t.len() {
                assert(t.contains(t[i]));
                if t[i] != x {
                    let k = choose|k: int| 0 <= k < shorter.len() && shorter[k] == t[i];
                    assert(order(s[k], s[s.len() - 1]));
                }
            } else {
                assert(order(t[i], t[j]));
            }
        }
        assert(s =~= shorter.push(last));
        assert(t.push(last).to_multiset() =~= s.to_multiset().insert(x));
        assert forall|y: T| #[trigger] t.push(last).contains(y) implies y == x || s.contains(y) by {
            let k = choose|k: int| 0 <= k < t.push(last).len() && t.push(last)[k] == y;
            if k < t.len() {
                assert(t.contains(t[k]));
                if y != x {
                    let m = choose|m: int| 0 <= m < shorter.len() && shorter[m] == y;
                    assert(s[m] == y);
                }
            } else {
                assert(s[s.len() - 1] == y);
            }
        }
    }
}

/// What [`stable_sorted`] gives is in order and holds the same values as before.
pub proof fn sorting_orders_and_keeps<T>(s: Seq<T>, order: spec_fn(T, T) -> bool)
    requires
        total_preorder(order),
    ensures
        sorted_by(stable_sorted(s, order), order),
        stable_sorted(s, order).len() == s.len(),
        stable_sorted(s, order).to_multiset() == s.to_multiset(),
    decreases s.len(),
{
    broadcast use vstd::seq_lib::group_to_multiset_ensures;

    if s.len() > 0 {
        sorting_orders_and_keeps(s.drop_last(), order);
        lemma_inserted(stable_sorted(s.drop_last(), order), s.last(), order);
        assert(s =~= s.drop_last().push(s.last()));
    } else {
        assert(stable_sorted(s, order) =~= s);
    }
}

/// `a` and `b` may stand on either side of each other.
pub open spec fn tied<T>(a: T, b: T, order: spec_fn(T, T) -> bool) -> bool {
    order(a, b) && order(b, a)
}

/// The values of `s` that are tied with `a`, in their order in `s`.
pub open spec fn ties<T>(s: Seq<T>, a: T, order: spec_fn(T, T) -> bool) -> Seq<T>
    decreases s.len(),
{
    if s.len() == 0 {
        Seq::empty()
    } else if tied(a, s.last(), order) {
        ties(s.drop_last(), a, order).push(s.last())
    } else {
        ties(s.drop_last(), a, order)
    }
}

proof fn lemma_inserted_ties<T>(s: Seq<T>, x: T, a: T, order: spec_fn(T, T) -> bool)
    requires
        total_preorder(order),
    ensures
        ties(inserted(s, x, order), a, order) == (if tied(a, x, order) {
            ties(s, a, order).push(x)
        } else {
            ties(s, a, order)
        }),
    decreases s.len(),
{
    if s.len() == 0 || order(s.last(), x) {
        assert(s.push(x).drop_last() =~= s);
    } else {
        lemma_inserted_ties(s.drop_last(), x, a, order);
        let t = inserted(s.drop_last(), x, order);
        assert(t.push(s.last()).drop_last() =~= t);
        if tied(a, x, order) && tied(a, s.last(), order) {
            assert(order(s.last(), a) && order(a, x));
        }
    }
}

/// Tied values keep their places relative to each other.
pub proof fn sorting_is_stable<T>(s: Seq<T>, a: T, order: spec_fn(T, T) -> bool)
    requires
        total_preorder(order),
    ensures
        ties(stable_sorted(s, order), a, order) == ties(s, a, order),
    decreases s.len(),
{
    if s.len() > 0 {
        sorting_is_stable(s.drop_last(), a, order);
        lemma_inserted_ties(stable_sorted(s.drop_last(), order), s.last(), a, order);
    }
}

/// What is in order already stays as it is.
pub proof fn sorting_keeps_order<T>(s: Seq<T>, order: spec_fn(T, T) -> bool)
    requires
        sorted_by(s, order),
    ensures
        stable_sorted(s, order) == s,
    decreases s.len(),
{
    if s.len() > 0 {
        let shorter = s.drop_last();
        assert forall|i: int, j: int| 0 <= i < j < shorter.len() implies #[trigger] order(
            shorter[i],
            shorter[j],
        ) by {
            assert(order(s[i], s[j]));
        }
        sorting_keeps_order(shorter, order);
        if shorter.len() > 0 {
            assert(order(s[s.len() - 2], s[s.len() - 1]));
        }
        assert(shorter.push(s.last()) =~= s);
    } else {
        assert(stable_sorted(s, order) =~= s);
    }
}

proof fn lemma_inserted_mapped<T, U>(
    s: Seq<T>,
    x: T,
    f: spec_fn(T) -> U,
    exact: spec_fn(T, T) -> bool,
    order: spec_fn(U, U) -> bool,
)
    requires
        forall|a: T, b: T| #[trigger] exact(a, b) == order(f(a), f(b)),
    ensures
        inserted(s, x, exact).map_values(f) == inserted(s.map_values(f), f(x), order),
    decreases s.len(),
{
    if s.len() == 0 || exact(s.last(), x) {
        assert(s.push(x).map_values(f) =~= s.map_values(f).push(f(x)));
    } else {
        lemma_inserted_mapped(s.drop_last(), x, f, exact, order);
        assert(s.map_values(f).drop_last() =~= s.drop_last().map_values(f));
        let t = inserted(s.drop_last(), x, exact);
        assert(t.push(s.last()).map_values(f) =~= t.map_values(f).push(f(s.last())));
    }
}

/// Sorting by what `f` makes of the values is sorting what `f` makes of them.
pub proof fn sorting_follows_map<T, U>(
    s: Seq<T>,
    f: spec_fn(T) -> U,
    exact: spec_fn(T, T) -> bool,
    order: spec_fn(U, U) -> bool,
)
    requires
        forall|a: T, b: T| #[trigger] exact(a, b) == order(f(a), f(b)),
    ensures
        stable_sorted(s, exact).map_values(f) == stable_sorted(s.map_values(f), order),
    decreases s.len(),
{
    if s.len() > 0 {
        sorting_follows_map(s.drop_last(), f, exact, order);
        lemma_inserted_mapped(stable_sorted(s.drop_last(), exact), s.last(), f, exact, order);
        assert(s.map_values(f).drop_last() =~= s.drop_last().map_values(f));
    } else {
        assert(stable_sorted(s, exact).map_values(f) =~= stable_sorted(s.map_values(f), order));
    }
}

/// What [`inserted`] gives, said by the place at which `x` goes in.
proof fn lemma_inserted_at<T>(s: Seq<T>, x: T, k: int, order: spec_fn(T, T) -> bool)
    requires
        0 <= k <= s.len(),
        forall|j: int| k <= j < s.len() ==> !order(#[trigger] s[j], x),
        k > 0 ==> order(s[k - 1], x),
    ensures
        inserted(s, x, order) == s.insert(k, x),
    decreases s.len(),
{
    if k == s.len() {
        assert(s.insert(k, x) =~= s.push(x));
    } else {
        assert forall|j: int| k <= j < s.drop_last().len() implies !order(
            #[trigger] s.drop_last()[j],
            x,
        ) by {
            assert(!order(s[j], x));
        }
        assert(!order(s[s.len() - 1], x));
        lemma_inserted_at(s.drop_last(), x, k, order);
        assert(s.insert(k, x) =~= s.drop_last().insert(k, x).push(s.last()));
    }
}

/// The items in order, tied ones as they stood. `before` decides whether its first argument
/// may stand before its second; `order` is what it decides.
pub(crate) fn stable_sort<T, F: Fn(&T, &T) -> bool>(
    items: Vec<T>,
    before: F,
    Ghost(order): Ghost<spec_fn(T, T) -> bool>,
) -> (out: Vec<T>)
    requires
        forall|a: T, b: T| #[trigger] before.requires((&a, &b)),
        forall|a: T, b: T, yes: bool| #[trigger]
            before.ensures((&a, &b), yes) ==> yes == order(a, b),
    ensures
        out@ == stable_sorted(items@, order),
{
    let ghost source = items@;
    let mut out: Vec<T> = Vec::new();
    for item in it: items
        invariant
            it.seq() == source,
            out@ == stable_sorted(source.take(it.index() as int), order),
            forall|a: T, b: T| #[trigger] before.requires((&a, &b)),
            forall|a: T, b: T, yes: bool| #[trigger]
                before.ensures((&a, &b), yes) ==> yes == order(a, b),
    {
        let ghost done = out@;
        let mut k: usize = out.len();
        while k > 0 && !before(&out[k - 1], &item)
            invariant
                k <= out@.len(),
                out@ == done,
                forall|j: int| k <= j < done.len() ==> !order(#[trigger] done[j], item),
                forall|a: T, b: T| #[trigger] before.requires((&a, &b)),
                forall|a: T, b: T, yes: bool| #[trigger]
                    before.ensures((&a, &b), yes) ==> yes == order(a, b),
            ensures
                k > 0 ==> order(done[k - 1], item),
            decreases k,
        {
            k -= 1;
        }
        proof {
            lemma_inserted_at(done, item, k as int, order);
            let next = source.take(it.index() + 1);
            assert(next.drop_last() =~= source.take(it.index() as int));
            assert(next.last() == item);
        }
        out.insert(k, item);
    }
    assert(source.take(source.len() as int) =~= source);
    out
}

} // verus!
