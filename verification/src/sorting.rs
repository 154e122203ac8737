//! Putting things in order.

use vstd::prelude::*;

verus! {

/// `sorted` with `x` put in behind everything it is not before.
pub open spec fn placed<T>(sorted: Seq<T>, x: T, before: spec_fn(T, T) -> bool) -> Seq<T>
    decreases sorted.len(),
{
    if sorted.len() == 0 {
        seq![x]
    } else if before(x, sorted.last()) {
        placed(sorted.drop_last(), x, before).push(sorted.last())
    } else {
        sorted.push(x)
    }
}

/// `s` in order, with what neither is before of left in the order it came.
pub open spec fn stable_sorted<T>(s: Seq<T>, before: spec_fn(T, T) -> bool) -> Seq<T>
    decreases s.len(),
{
    if s.len() == 0 {
        s
    } else {
        placed(stable_sorted(s.drop_last(), before), s.last(), before)
    }
}

/// Whether `before` is an order that some may be level in.
pub open spec fn orders<T>(before: spec_fn(T, T) -> bool) -> bool {
    &&& forall|a: T, b: T| #[trigger] before(a, b) ==> !before(b, a)
    &&& forall|a: T, b: T, c: T|
        !(#[trigger] before(b, a)) && !(#[trigger] before(c, b)) ==> !before(c, a)
}

proof fn lemma_placed<T>(sorted: Seq<T>, x: T, before: spec_fn(T, T) -> bool)
    ensures
        placed(sorted, x, before).to_multiset() == sorted.to_multiset().insert(x),
        placed(sorted, x, before).len() == sorted.len() + 1,
    decreases sorted.len(),
{
    broadcast use vstd::seq_lib::group_to_multiset_ensures;

    if sorted.len() == 0 {
        assert(seq![x] =~= sorted.push(x));
    } else if before(x, sorted.last()) {
        lemma_placed(sorted.drop_last(), x, before);
        assert(sorted =~= sorted.drop_last().push(sorted.last()));
        assert(sorted.to_multiset().insert(x) =~= sorted.drop_last().to_multiset().insert(
            x,
        ).insert(sorted.last()));
    }
}

/// Sorting keeps every item and adds none.
pub proof fn lemma_sorted_keeps<T>(s: Seq<T>, before: spec_fn(T, T) -> bool)
    ensures
        stable_sorted(s, before).to_multiset() == s.to_multiset(),
        stable_sorted(s, before).len() == s.len(),
    decreases s.len(),
{
    broadcast use vstd::seq_lib::group_to_multiset_ensures;

    if s.len() > 0 {
        lemma_sorted_keeps(s.drop_last(), before);
        lemma_placed(stable_sorted(s.drop_last(), before), s.last(), before);
        assert(s =~= s.drop_last().push(s.last()));
    }
}

proof fn lemma_placed_in_order<T>(sorted: Seq<T>, x: T, before: spec_fn(T, T) -> bool)
    requires
        orders(before),
        forall|i: int, j: int| 0 <= i < j < sorted.len() ==> !before(sorted[j], sorted[i]),
    ensures
        forall|i: int, j: int|
            0 <= i < j < placed(sorted, x, before).len() ==> !before(
                placed(sorted, x, before)[j],
                placed(sorted, x, before)[i],
            ),
        forall|i: int|
            0 <= i < placed(sorted, x, before).len() ==> (placed(sorted, x, before)[i] == x
                || exists|k: int|
                0 <= k < sorted.len() && sorted[k] == #[trigger] placed(sorted, x, before)[i]),
    decreases sorted.len(),
{
    let r = placed(sorted, x, before);
    if sorted.len() == 0 {
    } else if before(x, sorted.last()) {
        lemma_placed_in_order(sorted.drop_last(), x, before);
        let head = placed(sorted.drop_last(), x, before);
        assert forall|i: int| 0 <= i < r.len() implies (r[i] == x || exists|k: int|
            0 <= k < sorted.len() && sorted[k] == #[trigger] r[i]) by {
            if i < head.len() {
                assert(r[i] == head[i]);
                if head[i] != x {
                    let k = choose|k: int|
                        0 <= k < sorted.drop_last().len() && sorted.drop_last()[k] == head[i];
                    assert(sorted[k] == r[i]);
                }
            } else {
                assert(sorted[sorted.len() - 1] == r[i]);
            }
        }
        assert forall|i: int, j: int| 0 <= i < j < r.len() implies !before(r[j], r[i]) by {
            if j < head.len() {
                assert(!before(head[j], head[i]));
            } else {
                assert(r[j] == sorted.last());
                assert(r[i] == head[i]);
                if head[i] != x {
                    let k = choose|k: int|
                        0 <= k < sorted.drop_last().len() && sorted.drop_last()[k] == head[i];
                    assert(!before(sorted[sorted.len() - 1], sorted[k]));
                }
            }
        }
    } else {
        assert forall|i: int, j: int| 0 <= i < j < r.len() implies !before(r[j], r[i]) by {
            if j == sorted.len() {
                if i < sorted.len() - 1 {
                    assert(!before(sorted[sorted.len() - 1], sorted[i]));
                }
                assert(!before(x, sorted.last()));
            }
        }
        assert forall|i: int| 0 <= i < r.len() implies (r[i] == x || exists|k: int|
            0 <= k < sorted.len() && sorted[k] == #[trigger] r[i]) by {
            if i < sorted.len() {
                assert(sorted[i] == r[i]);
            }
        }
    }
}

/// What is sorted is in order: nothing stands behind what it is before.
pub proof fn lemma_sorted_in_order<T>(s: Seq<T>, before: spec_fn(T, T) -> bool)
    requires
        orders(before),
    ensures
        forall|i: int, j: int|
            0 <= i < j < stable_sorted(s, before).len() ==> !before(
                #[trigger] stable_sorted(s, before)[j],
                #[trigger] stable_sorted(s, before)[i],
            ),
    decreases s.len(),
{
    if s.len() > 0 {
        lemma_sorted_in_order(s.drop_last(), before);
        lemma_placed_in_order(stable_sorted(s.drop_last(), before), s.last(), before);
    }
}

proof fn lemma_placed_map<T, U>(
    sorted: Seq<T>,
    x: T,
    before: spec_fn(T, T) -> bool,
    f: spec_fn(T) -> U,
    image: spec_fn(U, U) -> bool,
)
    requires
        forall|a: T, b: T| #[trigger] before(a, b) == image(f(a), f(b)),
    ensures
        placed(sorted, x, before).map_values(f) == placed(sorted.map_values(f), f(x), image),
    decreases sorted.len(),
{
    let mapped = sorted.map_values(f);
    if sorted.len() == 0 {
        assert(placed(sorted, x, before).map_values(f) =~= seq![f(x)]);
    } else {
        assert(mapped.last() == f(sorted.last()));
        assert(mapped.drop_last() =~= sorted.drop_last().map_values(f));
        assert(before(x, sorted.last()) == image(f(x), mapped.last()));
        if before(x, sorted.last()) {
            lemma_placed_map(sorted.drop_last(), x, before, f, image);
            let head = placed(sorted.drop_last(), x, before);
            assert(head.push(sorted.last()).map_values(f) =~= head.map_values(f).push(
                mapped.last(),
            ));
        } else {
            assert(sorted.push(x).map_values(f) =~= mapped.push(f(x)));
        }
    }
}

/// Sorting and then reading each item is reading each item and then sorting.
pub proof fn lemma_sorted_map<T, U>(
    s: Seq<T>,
    before: spec_fn(T, T) -> bool,
    f: spec_fn(T) -> U,
    image: spec_fn(U, U) -> bool,
)
    requires
        forall|a: T, b: T| #[trigger] before(a, b) == image(f(a), f(b)),
    ensures
        stable_sorted(s, before).map_values(f) == stable_sorted(s.map_values(f), image),
    decreases s.len(),
{
    if s.len() == 0 {
        assert(s.map_values(f) =~= Seq::<U>::empty());
        assert(stable_sorted(s, before).map_values(f) =~= Seq::<U>::empty());
    } else {
        lemma_sorted_map(s.drop_last(), before, f, image);
        lemma_placed_map(stable_sorted(s.drop_last(), before), s.last(), before, f, image);
        assert(s.map_values(f).drop_last() =~= s.drop_last().map_values(f));
        assert(s.map_values(f).last() == f(s.last()));
    }
}

/// Puts `x` into `sorted`, behind everything it is not before.
fn place<T, F: Fn(&T, &T) -> bool>(
    sorted: &mut Vec<T>,
    x: T,
    is_before: &F,
    Ghost(before): Ghost<spec_fn(T, T) -> bool>,
)
    requires
        forall|a: &T, b: &T| #[trigger] is_before.requires((a, b)),
        forall|a: &T, b: &T, r: bool| is_before.ensures((a, b), r) ==> r == before(*a, *b),
    ensures
        final(sorted)@ == placed(old(sorted)@, x, before),
{
    let mut at: usize = sorted.len();
    let ghost whole = sorted@;
    proof {
        assert(whole.take(at as int) =~= whole);
        assert(placed(whole, x, before) + whole.skip(at as int) =~= placed(whole, x, before));
    }
    while at > 0 && is_before(&x, &sorted[at - 1])
        invariant
            at <= sorted@.len(),
            sorted@ == whole,
            forall|a: &T, b: &T| #[trigger] is_before.requires((a, b)),
            forall|a: &T, b: &T, r: bool| is_before.ensures((a, b), r) ==> r == before(*a, *b),
            placed(whole, x, before) == placed(whole.take(at as int), x, before) + whole.skip(
                at as int,
            ),
        decreases at,
    {
        proof {
            let head = whole.take(at as int);
            assert(head.last() == whole[at - 1]);
            assert(head.drop_last() =~= whole.take(at - 1));
            assert(placed(head, x, before) == placed(head.drop_last(), x, before).push(
                head.last(),
            ));
            assert(placed(head, x, before) + whole.skip(at as int) =~= placed(
                whole.take(at - 1),
                x,
                before,
            ) + whole.skip(at - 1));
        }
        at -= 1;
    }
    proof {
        let head = whole.take(at as int);
        if at > 0 {
            assert(head.last() == whole[at - 1]);
        }
        assert(placed(head, x, before) =~= head.push(x));
        assert(head.push(x) + whole.skip(at as int) =~= whole.insert(at as int, x));
    }
    sorted.insert(at, x);
}

/// The items in order, with what neither is before of left in the order it
/// came.
pub(crate) fn sort_stable<T, F: Fn(&T, &T) -> bool>(
    items: Vec<T>,
    is_before: F,
    Ghost(before): Ghost<spec_fn(T, T) -> bool>,
) -> (r: Vec<T>)
    requires
        forall|a: &T, b: &T| #[trigger] is_before.requires((a, b)),
        forall|a: &T, b: &T, r: bool| is_before.ensures((a, b), r) ==> r == before(*a, *b),
    ensures
        r@ == stable_sorted(items@, before),
{
    let mut out: Vec<T> = Vec::new();
    let ghost all = items@;
    for x in it: items
        invariant
            it.seq() == all,
            out@ == stable_sorted(all.take(it.index() as int), before),
            forall|a: &T, b: &T| #[trigger] is_before.requires((a, b)),
            forall|a: &T, b: &T, r: bool| is_before.ensures((a, b), r) ==> r == before(*a, *b),
    {
        proof {
            let n = it.index() as int;
            assert(all.take(n + 1).drop_last() =~= all.take(n));
            assert(all.take(n + 1).last() == x);
        }
        place(&mut out, x, &is_before, Ghost(before));
    }
    proof {
        assert(all.take(all.len() as int) =~= all);
    }
    out
}

/// What is kept of a run of things stays in the order it had.
pub(crate) proof fn lemma_filter_in_order<T>(
    s: Seq<T>,
    keep: spec_fn(T) -> bool,
    before: spec_fn(T, T) -> bool,
)
    requires
        forall|i: int, j: int| 0 <= i < j < s.len() ==> before(#[trigger] s[i], #[trigger] s[j]),
    ensures
        forall|i: int, j: int|
            0 <= i < j < s.filter(keep).len() ==> before(
                #[trigger] s.filter(keep)[i],
                #[trigger] s.filter(keep)[j],
            ),
    decreases s.len(),
{
    reveal(Seq::filter);
    if s.len() > 0 {
        let rest = s.drop_last();
        let kept = rest.filter(keep);
        lemma_filter_in_order(rest, keep, before);
        assert forall|i: int, j: int| 0 <= i < j < s.filter(keep).len() implies before(
            #[trigger] s.filter(keep)[i],
            #[trigger] s.filter(keep)[j],
        ) by {
            if j < kept.len() {
                assert(before(kept[i], kept[j]));
            } else {
                rest.lemma_filter_contains_rev(keep, kept[i]);
                let k = choose|k: int| 0 <= k < rest.len() && rest[k] == kept[i];
                assert(before(s[k], s[s.len() - 1]));
            }
        }
    }
}

} // verus!
