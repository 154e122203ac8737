//! Taking things in turn.

use vstd::prelude::*;

use crate::sorting::{
    lemma_sorted_in_order, lemma_sorted_keeps, lemma_sorted_map, orders, sort_stable, stable_sorted,
};

verus! {

/// How many of the first `n` items are in one group with `x`.
pub open spec fn members<T>(items: Seq<T>, n: int, x: T, together: spec_fn(T, T) -> bool) -> nat
    decreases n,
{
    if n <= 0 {
        0
    } else {
        members(items, n - 1, x, together) + (if together(items[n - 1], x) {
            1nat
        } else {
            0nat
        })
    }
}

/// Where the first of the items from `i` on stands that is in one group with
/// `x`.
pub open spec fn first_of<T>(items: Seq<T>, i: int, x: T, together: spec_fn(T, T) -> bool) -> int
    decreases items.len() - i,
{
    if i < 0 || i >= items.len() || together(items[i], x) {
        i
    } else {
        first_of(items, i + 1, x, together)
    }
}

/// An item, how many of its group come before it, and where its group starts.
pub struct Turn<T> {
    pub nth: usize,
    pub group: usize,
    pub item: T,
}

/// Each item with how many of its group come before it and where its group
/// starts.
pub open spec fn turns<T>(items: Seq<T>, together: spec_fn(T, T) -> bool) -> Seq<Turn<T>> {
    Seq::new(
        items.len(),
        |i: int|
            Turn {
                nth: members(items, i, items[i], together) as usize,
                group: first_of(items, 0, items[i], together) as usize,
                item: items[i],
            },
    )
}

/// Whether one turn comes before another: earlier in its own group, or in a
/// group that starts earlier.
pub open spec fn sooner<T>() -> spec_fn(Turn<T>, Turn<T>) -> bool {
    |a: Turn<T>, b: Turn<T>| a.nth < b.nth || (a.nth == b.nth && a.group < b.group)
}

/// `items` reordered so one of every group comes before any group's second,
/// keeping the order within each group and the order the groups first appear.
pub open spec fn in_turns<T>(items: Seq<T>, together: spec_fn(T, T) -> bool) -> Seq<T> {
    stable_sorted(turns(items, together), sooner()).map_values(|turn: Turn<T>| turn.item)
}

/// Taking turns and then reading each item is reading each item and then taking
/// turns.
pub proof fn lemma_in_turns_map<T, U>(
    items: Seq<T>,
    together: spec_fn(T, T) -> bool,
    f: spec_fn(T) -> U,
    image: spec_fn(U, U) -> bool,
)
    requires
        forall|a: T, b: T| #[trigger] together(a, b) == image(f(a), f(b)),
    ensures
        in_turns(items, together).map_values(f) == in_turns(items.map_values(f), image),
{
    let mapped = items.map_values(f);
    let g = |turn: Turn<T>| Turn { nth: turn.nth, group: turn.group, item: f(turn.item) };
    assert forall|i: int| 0 <= i < items.len() implies turns(items, together).map_values(g)[i]
        == turns(mapped, image)[i] by {
        lemma_members_map(items, i, items[i], together, f, image);
        lemma_first_map(items, 0, items[i], together, f, image);
    }
    assert(turns(items, together).map_values(g) =~= turns(mapped, image));
    lemma_sorted_map(turns(items, together), sooner(), g, sooner());
    let sorted = stable_sorted(turns(items, together), sooner());
    assert(in_turns(items, together).map_values(f) =~= sorted.map_values(g).map_values(
        |turn: Turn<U>| turn.item,
    ));
}

proof fn lemma_members_map<T, U>(
    items: Seq<T>,
    n: int,
    x: T,
    together: spec_fn(T, T) -> bool,
    f: spec_fn(T) -> U,
    image: spec_fn(U, U) -> bool,
)
    requires
        n <= items.len(),
        forall|a: T, b: T| #[trigger] together(a, b) == image(f(a), f(b)),
    ensures
        members(items, n, x, together) == members(items.map_values(f), n, f(x), image),
    decreases n,
{
    if n > 0 {
        lemma_members_map(items, n - 1, x, together, f, image);
        assert(together(items[n - 1], x) == image(f(items[n - 1]), f(x)));
    }
}

proof fn lemma_first_map<T, U>(
    items: Seq<T>,
    i: int,
    x: T,
    together: spec_fn(T, T) -> bool,
    f: spec_fn(T) -> U,
    image: spec_fn(U, U) -> bool,
)
    requires
        forall|a: T, b: T| #[trigger] together(a, b) == image(f(a), f(b)),
    ensures
        first_of(items, i, x, together) == first_of(items.map_values(f), i, f(x), image),
    decreases items.len() - i,
{
    if 0 <= i < items.len() {
        assert(together(items[i], x) == image(f(items[i]), f(x)));
        if !together(items[i], x) {
            lemma_first_map(items, i + 1, x, together, f, image);
        }
    }
}

proof fn lemma_sooner_orders<T>()
    ensures
        orders(sooner::<T>()),
{
}

/// Taking turns loses nothing and adds nothing.
pub proof fn lemma_in_turns_keeps<T>(items: Seq<T>, together: spec_fn(T, T) -> bool)
    ensures
        in_turns(items, together).len() == items.len(),
        forall|x: T| in_turns(items, together).contains(x) <==> items.contains(x),
{
    broadcast use vstd::seq_lib::group_to_multiset_ensures;

    let all = turns(items, together);
    let sorted = stable_sorted(all, sooner());
    lemma_sorted_keeps(all, sooner());
    assert forall|x: T| in_turns(items, together).contains(x) <==> items.contains(x) by {
        if in_turns(items, together).contains(x) {
            let k = choose|k: int|
                0 <= k < in_turns(items, together).len() && in_turns(items, together)[k] == x;
            assert(sorted.contains(sorted[k]));
            assert(all.to_multiset().contains(sorted[k]));
            assert(all.contains(sorted[k]));
            let i = choose|i: int| 0 <= i < all.len() && all[i] == sorted[k];
            assert(items[i] == x);
        }
        if items.contains(x) {
            let i = choose|i: int| 0 <= i < items.len() && items[i] == x;
            assert(all.contains(all[i]));
            assert(sorted.to_multiset().contains(all[i]));
            assert(sorted.contains(all[i]));
            let k = choose|k: int| 0 <= k < sorted.len() && sorted[k] == all[i];
            assert(in_turns(items, together)[k] == x);
        }
    }
}

/// One of every group comes before any group's second: what stands before
/// another in turn has no more of its own group before it.
pub proof fn lemma_one_of_every_group_first<T>(items: Seq<T>, together: spec_fn(T, T) -> bool)
    ensures
        ({
            let sorted = stable_sorted(turns(items, together), sooner());
            forall|i: int, j: int|
                0 <= i < j < sorted.len() ==> (#[trigger] sorted[i]).nth <= (#[trigger] sorted[j]).nth
        }),
{
    lemma_sooner_orders::<T>();
    lemma_sorted_in_order(turns(items, together), sooner());
    let sorted = stable_sorted(turns(items, together), sooner());
    assert forall|i: int, j: int| 0 <= i < j < sorted.len() implies (#[trigger] sorted[i]).nth <= (
    #[trigger] sorted[j]).nth by {
        assert(!sooner::<T>()(sorted[j], sorted[i]));
    }
}

/// Whether one turn comes before another.
fn comes_sooner<T>(a: &Turn<T>, b: &Turn<T>) -> (r: bool)
    ensures
        r == sooner::<T>()(*a, *b),
{
    if a.nth < b.nth {
        true
    } else {
        a.nth == b.nth && a.group < b.group
    }
}

/// `items` reordered so one of every group comes before any group's second,
/// keeping the order within each group and the order the groups first appear.
pub(crate) fn in_turn<T, F: Fn(&T, &T) -> bool>(
    items: Vec<T>,
    is_together: F,
    Ghost(together): Ghost<spec_fn(T, T) -> bool>,
) -> (r: Vec<T>)
    requires
        forall|a: &T, b: &T| #[trigger] is_together.requires((a, b)),
        forall|a: &T, b: &T, r: bool| is_together.ensures((a, b), r) ==> r == together(*a, *b),
    ensures
        r@ == in_turns(items@, together),
{
    let n = items.len();
    let ghost all = items@;
    let mut nths: Vec<usize> = Vec::new();
    let mut groups: Vec<usize> = Vec::new();
    for i in 0..n
        invariant
            n == all.len(),
            items@ == all,
            nths@.len() == i,
            groups@.len() == i,
            forall|a: &T, b: &T| #[trigger] is_together.requires((a, b)),
            forall|a: &T, b: &T, r: bool| is_together.ensures((a, b), r) ==> r == together(*a, *b),
            forall|k: int|
                0 <= k < i ==> #[trigger] nths@[k] == members(all, k, all[k], together) as usize,
            forall|k: int|
                0 <= k < i ==> #[trigger] groups@[k] == first_of(all, 0, all[k], together) as usize,
    {
        let mut nth: usize = 0;
        for j in 0..i
            invariant
                i < n,
                n == all.len(),
                items@ == all,
                nth <= j,
                nth == members(all, j as int, all[i as int], together),
                forall|a: &T, b: &T| #[trigger] is_together.requires((a, b)),
                forall|a: &T, b: &T, r: bool| is_together.ensures((a, b), r) ==> r == together(*a, *b),
        {
            if is_together(&items[j], &items[i]) {
                nth += 1;
            }
        }
        let mut group: usize = 0;
        while group < n && !is_together(&items[group], &items[i])
            invariant
                i < n,
                n == all.len(),
                group <= n,
                items@ == all,
                first_of(all, 0, all[i as int], together) == first_of(
                    all,
                    group as int,
                    all[i as int],
                    together,
                ),
                forall|a: &T, b: &T| #[trigger] is_together.requires((a, b)),
                forall|a: &T, b: &T, r: bool| is_together.ensures((a, b), r) ==> r == together(*a, *b),
            decreases n - group,
        {
            group += 1;
        }
        nths.push(nth);
        groups.push(group);
    }
    let mut taken: Vec<Turn<T>> = Vec::new();
    for item in it: items
        invariant
            it.seq() == all,
            nths@.len() == all.len(),
            groups@.len() == all.len(),
            forall|k: int|
                0 <= k < all.len() ==> #[trigger] nths@[k] == members(all, k, all[k], together) as usize,
            forall|k: int|
                0 <= k < all.len() ==> #[trigger] groups@[k] == first_of(all, 0, all[k], together) as usize,
            taken@ == turns(all, together).take(it.index() as int),
    {
        let ghost i = it.index() as int;
        let at: usize = taken.len();
        let turn = Turn { nth: nths[at], group: groups[at], item };
        taken.push(turn);
        assert(turns(all, together)[i] == turn);
        assert(taken@ =~= turns(all, together).take(i + 1));
    }
    assert(taken@ =~= turns(all, together));
    let sorted = sort_stable(taken, comes_sooner, Ghost(sooner()));
    let ghost order = sorted@;
    let mut out: Vec<T> = Vec::new();
    for turn in it: sorted
        invariant
            it.seq() == order,
            out@ == order.map_values(|turn: Turn<T>| turn.item).take(it.index() as int),
    {
        let ghost i = it.index() as int;
        out.push(turn.item);
        assert(out@ =~= order.map_values(|turn: Turn<T>| turn.item).take(i + 1));
    }
    assert(out@ =~= order.map_values(|turn: Turn<T>| turn.item));
    out
}

/// The `round`th of each list that has one, in the order of the lists.
pub open spec fn round_of<T>(lists: Seq<Seq<T>>, round: int) -> Seq<T>
    decreases lists.len(),
{
    if lists.len() == 0 {
        Seq::empty()
    } else {
        let rest = round_of(lists.drop_last(), round);
        if 0 <= round < lists.last().len() {
            rest.push(lists.last()[round])
        } else {
            rest
        }
    }
}

/// The first of each list, then the second of each, up to the `rounds`th.
pub open spec fn interleaved<T>(lists: Seq<Seq<T>>, rounds: nat) -> Seq<T>
    decreases rounds,
{
    if rounds == 0 {
        Seq::empty()
    } else {
        interleaved(lists, (rounds - 1) as nat) + round_of(lists, rounds - 1)
    }
}

/// How long the longest of the lists is.
pub open spec fn longest<T>(lists: Seq<Seq<T>>) -> nat
    decreases lists.len(),
{
    if lists.len() == 0 {
        0
    } else {
        let rest = longest(lists.drop_last());
        if lists.last().len() > rest {
            lists.last().len()
        } else {
            rest
        }
    }
}

/// How many before an item are in one group with it.
pub open spec fn earlier_alike<T>(items: Seq<T>, i: int, together: spec_fn(T, T) -> bool) -> nat {
    items.take(i).filter(|x: T| together(x, items[i])).len()
}

/// Whether the group of one item starts before that of another.
pub open spec fn starts_no_later<T>(
    items: Seq<T>,
    i: int,
    j: int,
    together: spec_fn(T, T) -> bool,
) -> bool {
    forall|b: int|
        0 <= b < items.len() && together(#[trigger] items[b], items[j]) ==> exists|a: int|
            0 <= a <= b && together(#[trigger] items[a], items[i])
}

proof fn lemma_members<T>(items: Seq<T>, n: int, x: T, together: spec_fn(T, T) -> bool)
    requires
        0 <= n <= items.len(),
    ensures
        members(items, n, x, together) == items.take(n).filter(|y: T| together(y, x)).len(),
        members(items, n, x, together) <= n,
    decreases n,
{
    reveal(Seq::filter);
    if n > 0 {
        lemma_members(items, n - 1, x, together);
        assert(items.take(n).drop_last() =~= items.take(n - 1));
        assert(items.take(n).last() == items[n - 1]);
    } else {
        assert(items.take(0) =~= Seq::empty());
    }
}

proof fn lemma_group_start<T>(items: Seq<T>, i: int, x: T, together: spec_fn(T, T) -> bool)
    requires
        0 <= i <= items.len(),
    ensures
        i <= first_of(items, i, x, together) <= items.len(),
        first_of(items, i, x, together) < items.len() ==> together(
            items[first_of(items, i, x, together)],
            x,
        ),
        forall|k: int|
            i <= k < first_of(items, i, x, together) ==> !together(#[trigger] items[k], x),
    decreases items.len() - i,
{
    if i < items.len() && !together(items[i], x) {
        lemma_group_start(items, i + 1, x, together);
    }
}

/// Whether one item may stand before another: it has fewer of its own group before
/// it, or as many and its group starts no later.
pub open spec fn may_go_first<T>(
    items: Seq<T>,
    i: int,
    j: int,
    together: spec_fn(T, T) -> bool,
) -> bool {
    ||| earlier_alike(items, i, together) < earlier_alike(items, j, together)
    ||| earlier_alike(items, i, together) == earlier_alike(items, j, together) && starts_no_later(
        items,
        i,
        j,
        together,
    )
}

/// Whether those two of the items are the ones, and the first may stand before the
/// other.
pub open spec fn goes_before<T>(
    items: Seq<T>,
    i: int,
    j: int,
    a: T,
    b: T,
    together: spec_fn(T, T) -> bool,
) -> bool {
    &&& 0 <= i < items.len()
    &&& 0 <= j < items.len()
    &&& items[i] == a
    &&& items[j] == b
    &&& may_go_first(items, i, j, together)
}

/// Whether two are of the items, and the first may stand before the other.
pub open spec fn one_goes_before<T>(
    items: Seq<T>,
    a: T,
    b: T,
    together: spec_fn(T, T) -> bool,
) -> bool {
    exists|i: int, j: int| #[trigger] goes_before(items, i, j, a, b, together)
}

proof fn lemma_turn_pair<T>(items: Seq<T>, together: spec_fn(T, T) -> bool, p: int, q: int)
    requires
        items.len() <= usize::MAX,
        0 <= p < q < items.len(),
    ensures
        in_turns(items, together).len() == items.len(),
        one_goes_before(
            items,
            in_turns(items, together)[p],
            in_turns(items, together)[q],
            together,
        ),
{
    broadcast use vstd::seq_lib::group_to_multiset_ensures;

    let all = turns(items, together);
    let sorted = stable_sorted(all, sooner());
    lemma_sorted_keeps(all, sooner());
    assert(orders(sooner::<T>()));
    lemma_sorted_in_order(all, sooner());
    assert(sorted.len() == items.len());
    assert(sorted.contains(sorted[p]) && sorted.contains(sorted[q]));
    assert(all.to_multiset().contains(sorted[p]) && all.to_multiset().contains(sorted[q]));
    assert(all.contains(sorted[p]) && all.contains(sorted[q]));
    let i = choose|i: int| 0 <= i < all.len() && all[i] == sorted[p];
    let j = choose|j: int| 0 <= j < all.len() && all[j] == sorted[q];
    lemma_members(items, i, items[i], together);
    lemma_members(items, j, items[j], together);
    lemma_group_start(items, 0, items[i], together);
    lemma_group_start(items, 0, items[j], together);
    assert(!sooner()(sorted[q], sorted[p]));
    let from = first_of(items, 0, items[i], together);
    let to = first_of(items, 0, items[j], together);
    assert(sorted[p].nth == members(items, i, items[i], together));
    assert(sorted[q].nth == members(items, j, items[j], together));
    assert(sorted[p].group == from);
    assert(sorted[q].group == to);
    if members(items, i, items[i], together) == members(items, j, items[j], together) {
        assert(from <= to);
        assert forall|b: int|
            0 <= b < items.len() && together(#[trigger] items[b], items[j]) implies exists|a: int|
            0 <= a <= b && together(#[trigger] items[a], items[i]) by {
            assert(to <= b);
            assert(together(items[from], items[i]));
        }
        assert(starts_no_later(items, i, j, together));
    }
    assert(earlier_alike(items, i, together) == members(items, i, items[i], together));
    assert(earlier_alike(items, j, together) == members(items, j, items[j], together));
    assert(may_go_first(items, i, j, together));
    assert(in_turns(items, together)[p] == items[i]);
    assert(in_turns(items, together)[q] == items[j]);
    assert(goes_before(items, i, j, items[i], items[j], together));
}

/// Items that take turns stand in rounds: an item before another has fewer of its
/// own group before it, or as many and a group that starts no later.
pub proof fn lemma_turns_in_rounds<T>(items: Seq<T>, together: spec_fn(T, T) -> bool)
    requires
        items.len() <= usize::MAX,
    ensures
        forall|p: int, q: int|
            0 <= p < q < items.len() ==> one_goes_before(
                items,
                #[trigger] in_turns(items, together)[p],
                #[trigger] in_turns(items, together)[q],
                together,
            ),
{
    assert forall|p: int, q: int| 0 <= p < q < items.len() implies one_goes_before(
        items,
        #[trigger] in_turns(items, together)[p],
        #[trigger] in_turns(items, together)[q],
        together,
    ) by {
        lemma_turn_pair(items, together, p, q);
    }
}

} // verus!
