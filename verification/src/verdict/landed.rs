//! Which steps a fleet may have taken responsibility for.

use vstd::prelude::*;

use super::{Ack, Outcome};
use crate::sorting::{lemma_sorted_in_order, lemma_sorted_keeps, lemma_sorted_map, orders, sort_stable, stable_sorted};

verus! {

/// How many steps may be left in doubt before a run is no longer judged.
///
/// Each one doubles the states the fleet could be in.
pub const IN_DOUBT_LIMIT: usize = 8;

/// How many of the outcomes are `ack`.
pub open spec fn count_of(outcomes: Seq<Outcome>, ack: Ack) -> nat
    decreases outcomes.len(),
{
    if outcomes.len() == 0 {
        0
    } else {
        count_of(outcomes.drop_last(), ack) + (if outcomes.last().ack == ack {
            1nat
        } else {
            0nat
        })
    }
}

/// Every set with `step` put at its end.
pub open spec fn extended(sets: Seq<Seq<usize>>, step: usize) -> Seq<Seq<usize>> {
    sets.map_values(|set: Seq<usize>| set.push(step))
}

/// Every set of steps, numbered from one, the outcomes leave possible: each
/// acknowledged step, none refused, and any of those in doubt.
pub open spec fn possible(outcomes: Seq<Outcome>) -> Seq<Seq<usize>>
    decreases outcomes.len(),
{
    if outcomes.len() == 0 {
        seq![Seq::empty()]
    } else {
        let rest = possible(outcomes.drop_last());
        let step = outcomes.len() as usize;
        match outcomes.last().ack {
            Ack::Acked => extended(rest, step),
            Ack::Rejected => rest,
            Ack::Unknown => rest + extended(rest, step),
        }
    }
}

/// Whether `a` comes before `b` step by step.
pub open spec fn steps_before(a: Seq<usize>, b: Seq<usize>) -> bool
    decreases a.len(),
{
    if b.len() == 0 {
        false
    } else if a.len() == 0 {
        true
    } else if a[0] != b[0] {
        a[0] < b[0]
    } else {
        steps_before(a.skip(1), b.skip(1))
    }
}

/// Whether `a` comes before `b`: with fewer steps, or by the first it parts at.
pub open spec fn fewer_first() -> spec_fn(Seq<usize>, Seq<usize>) -> bool {
    |a: Seq<usize>, b: Seq<usize>| a.len() < b.len() || (a.len() == b.len() && steps_before(a, b))
}

/// Which steps the fleet may have taken responsibility for, fewest first, or
/// nothing where too many were left in doubt.
pub open spec fn landed_sets(outcomes: Seq<Outcome>) -> Option<Seq<Seq<usize>>> {
    if count_of(outcomes, Ack::Unknown) > IN_DOUBT_LIMIT {
        None
    } else {
        Some(stable_sorted(possible(outcomes), fewer_first()))
    }
}

/// Whether a set of steps is one the outcomes leave possible: in order, each of
/// them driven, every acknowledged step among them and no refused one.
pub open spec fn admitted(outcomes: Seq<Outcome>, set: Seq<usize>) -> bool {
    &&& forall|i: int, j: int| 0 <= i < j < set.len() ==> set[i] < set[j]
    &&& forall|i: int| 0 <= i < set.len() ==> 1 <= #[trigger] set[i] <= outcomes.len()
    &&& forall|n: int|
        1 <= n <= outcomes.len() && (#[trigger] outcomes[n - 1]).ack == Ack::Acked ==> set.contains(
            n as usize,
        )
    &&& forall|n: int|
        1 <= n <= outcomes.len() && (#[trigger] outcomes[n - 1]).ack == Ack::Rejected
            ==> !set.contains(n as usize)
}

proof fn lemma_grow(outcomes: Seq<Outcome>, set: Seq<usize>)
    requires
        0 < outcomes.len() <= usize::MAX,
        admitted(outcomes.drop_last(), set),
    ensures
        outcomes.last().ack != Ack::Rejected ==> admitted(
            outcomes,
            set.push(outcomes.len() as usize),
        ),
        outcomes.last().ack != Ack::Acked ==> admitted(outcomes, set),
{
    let before = outcomes.drop_last();
    let n = outcomes.len() as usize;
    let grown = set.push(n);
    assert(!set.contains(n)) by {
        if set.contains(n) {
            let i = choose|i: int| 0 <= i < set.len() && set[i] == n;
            assert(set[i] <= before.len());
        }
    }
    assert forall|k: int| 1 <= k <= outcomes.len() && (#[trigger] outcomes[k - 1]).ack
        == Ack::Acked implies grown.contains(k as usize) by {
        if k == outcomes.len() {
            assert(grown[set.len() as int] == n);
        } else {
            assert(before[k - 1].ack == Ack::Acked);
            let i = choose|i: int| 0 <= i < set.len() && set[i] == k as usize;
            assert(grown[i] == k as usize);
        }
    }
    if outcomes.last().ack != Ack::Rejected {
        assert forall|k: int| 1 <= k <= outcomes.len() && (#[trigger] outcomes[k - 1]).ack
            == Ack::Rejected implies !grown.contains(k as usize) by {
            assert(before[k - 1].ack == Ack::Rejected);
            if grown.contains(k as usize) {
                let i = choose|i: int| 0 <= i < grown.len() && grown[i] == k as usize;
                assert(set[i] == k as usize);
            }
        }
    }
    if outcomes.last().ack != Ack::Acked {
        assert forall|k: int| 1 <= k <= outcomes.len() && (#[trigger] outcomes[k - 1]).ack
            == Ack::Acked implies set.contains(k as usize) by {
            assert(before[k - 1].ack == Ack::Acked);
        }
        assert forall|k: int| 1 <= k <= outcomes.len() && (#[trigger] outcomes[k - 1]).ack
            == Ack::Rejected implies !set.contains(k as usize) by {
            if k < outcomes.len() {
                assert(before[k - 1].ack == Ack::Rejected);
            }
        }
    }
}

proof fn lemma_shrink(outcomes: Seq<Outcome>, set: Seq<usize>)
    requires
        0 < outcomes.len() <= usize::MAX,
        admitted(outcomes, set),
    ensures
        set.contains(outcomes.len() as usize) ==> {
            &&& outcomes.last().ack != Ack::Rejected
            &&& set.len() > 0
            &&& set.last() == outcomes.len() as usize
            &&& admitted(outcomes.drop_last(), set.drop_last())
        },
        !set.contains(outcomes.len() as usize) ==> {
            &&& outcomes.last().ack != Ack::Acked
            &&& admitted(outcomes.drop_last(), set)
        },
{
    let before = outcomes.drop_last();
    let n = outcomes.len() as usize;
    assert(outcomes[n - 1] == outcomes.last());
    if set.contains(n) {
        let at = choose|i: int| 0 <= i < set.len() && set[i] == n;
        if at < set.len() - 1 {
            assert(set[at] < set[set.len() - 1]);
        }
        let less = set.drop_last();
        assert forall|i: int| 0 <= i < less.len() implies 1 <= #[trigger] less[i]
            <= before.len() by {
            assert(set[i] < set[set.len() - 1]);
        }
        assert forall|k: int| 1 <= k <= before.len() && (#[trigger] before[k - 1]).ack
            == Ack::Acked implies less.contains(k as usize) by {
            assert(outcomes[k - 1].ack == Ack::Acked);
            let i = choose|i: int| 0 <= i < set.len() && set[i] == k as usize;
            assert(less[i] == k as usize);
        }
        assert forall|k: int| 1 <= k <= before.len() && (#[trigger] before[k - 1]).ack
            == Ack::Rejected implies !less.contains(k as usize) by {
            assert(outcomes[k - 1].ack == Ack::Rejected);
            if less.contains(k as usize) {
                let i = choose|i: int| 0 <= i < less.len() && less[i] == k as usize;
                assert(set[i] == k as usize);
            }
        }
    } else {
        assert forall|i: int| 0 <= i < set.len() implies 1 <= #[trigger] set[i] <= before.len() by {
            assert(set[i] <= outcomes.len());
            assert(set.contains(set[i]));
        }
        assert forall|k: int| 1 <= k <= before.len() && (#[trigger] before[k - 1]).ack
            == Ack::Acked implies set.contains(k as usize) by {
            assert(outcomes[k - 1].ack == Ack::Acked);
        }
        assert forall|k: int| 1 <= k <= before.len() && (#[trigger] before[k - 1]).ack
            == Ack::Rejected implies !set.contains(k as usize) by {
            assert(outcomes[k - 1].ack == Ack::Rejected);
        }
    }
}

proof fn lemma_extended_contains(sets: Seq<Seq<usize>>, step: usize, set: Seq<usize>)
    ensures
        extended(sets, step).contains(set) <==> set.len() > 0 && set.last() == step
            && sets.contains(set.drop_last()),
{
    let grown = extended(sets, step);
    if grown.contains(set) {
        let i = choose|i: int| 0 <= i < grown.len() && grown[i] == set;
        assert(set == sets[i].push(step));
        assert(set.drop_last() =~= sets[i]);
    }
    if set.len() > 0 && set.last() == step && sets.contains(set.drop_last()) {
        let i = choose|i: int| 0 <= i < sets.len() && sets[i] == set.drop_last();
        assert(grown[i] =~= set);
    }
}

/// What the outcomes leave possible is exactly the sets they admit.
proof fn lemma_possible(outcomes: Seq<Outcome>, set: Seq<usize>)
    requires
        outcomes.len() <= usize::MAX,
    ensures
        possible(outcomes).contains(set) <==> admitted(outcomes, set),
    decreases outcomes.len(),
{
    if outcomes.len() == 0 {
        assert(possible(outcomes) == seq![Seq::<usize>::empty()]);
        if admitted(outcomes, set) {
            if set.len() > 0 {
                assert(1 <= set[0] <= 0);
            }
            assert(set =~= Seq::empty());
            assert(possible(outcomes)[0] == set);
        }
        if possible(outcomes).contains(set) {
            assert(set =~= Seq::empty());
        }
    } else {
        let before = outcomes.drop_last();
        let rest = possible(before);
        let step = outcomes.len() as usize;
        lemma_extended_contains(rest, step, set);
        lemma_possible(before, set);
        if set.len() > 0 {
            lemma_possible(before, set.drop_last());
        }
        let both = rest + extended(rest, step);
        assert(both.contains(set) <==> rest.contains(set) || extended(rest, step).contains(set)) by {
            vstd::seq_lib::lemma_seq_concat_contains_all_elements(rest, extended(rest, step), set);
        }
        if admitted(outcomes, set) {
            lemma_shrink(outcomes, set);
        }
        if admitted(before, set) {
            lemma_grow(outcomes, set);
        }
        if set.len() > 0 && set.last() == step && admitted(before, set.drop_last()) {
            lemma_grow(outcomes, set.drop_last());
            assert(set.drop_last().push(step) =~= set);
        }
        if admitted(before, set) {
            assert(!set.contains(step)) by {
                if set.contains(step) {
                    let i = choose|i: int| 0 <= i < set.len() && set[i] == step;
                    assert(set[i] <= before.len());
                }
            }
        }
        if set.len() > 0 && set.last() == step {
            assert(set[set.len() - 1] == step);
        }
    }
}

proof fn lemma_possible_distinct(outcomes: Seq<Outcome>)
    requires
        outcomes.len() <= usize::MAX,
    ensures
        possible(outcomes).no_duplicates(),
    decreases outcomes.len(),
{
    if outcomes.len() > 0 {
        let before = outcomes.drop_last();
        let rest = possible(before);
        let step = outcomes.len() as usize;
        lemma_possible_distinct(before);
        let grown = extended(rest, step);
        assert forall|i: int, j: int| 0 <= i < grown.len() && 0 <= j < grown.len() && i
            != j implies grown[i] != grown[j] by {
            if grown[i] == grown[j] {
                assert(rest[i] =~= grown[i].drop_last());
                assert(rest[j] =~= grown[j].drop_last());
            }
        }
        let both = rest + grown;
        assert forall|i: int, j: int| 0 <= i < both.len() && 0 <= j < both.len() && i
            != j implies both[i] != both[j] by {
            assert forall|a: int, c: int| 0 <= a < rest.len() && 0 <= c < grown.len() implies #[trigger] rest[a]
                != #[trigger] grown[c] by {
                lemma_possible(before, rest[a]);
                assert(rest.contains(rest[a]));
                let last = grown[c].len() - 1;
                assert(grown[c][last] == step);
                if rest[a] == grown[c] {
                    assert(rest[a][last] <= before.len());
                }
            }
            if i < rest.len() && j >= rest.len() {
                assert(both[j] == grown[j - rest.len()]);
            }
            if j < rest.len() && i >= rest.len() {
                assert(both[i] == grown[i - rest.len()]);
            }
        }
    }
}

/// No run of steps comes before one that comes before it, and what comes no
/// sooner than a second comes no sooner than what the second comes no sooner
/// than.
pub(crate) proof fn lemma_steps_before_orders(a: Seq<usize>, b: Seq<usize>, c: Seq<usize>)
    ensures
        steps_before(a, b) ==> !steps_before(b, a),
        !steps_before(b, a) && !steps_before(c, b) ==> !steps_before(c, a),
    decreases a.len() + b.len() + c.len(),
{
    if a.len() > 0 && b.len() > 0 && c.len() > 0 {
        lemma_steps_before_orders(a.skip(1), b.skip(1), c.skip(1));
    } else if a.len() > 0 && b.len() > 0 {
        lemma_steps_before_orders(a.skip(1), b.skip(1), c);
    }
}

proof fn lemma_fewer_first_orders()
    ensures
        orders(fewer_first()),
{
    let before = fewer_first();
    assert forall|a: Seq<usize>, b: Seq<usize>| #[trigger] before(a, b) implies !before(b, a) by {
        lemma_steps_before_orders(a, b, b);
    }
    assert forall|a: Seq<usize>, b: Seq<usize>, c: Seq<usize>|
        !(#[trigger] before(b, a)) && !(#[trigger] before(c, b)) implies !before(c, a) by {
        lemma_steps_before_orders(a, b, c);
    }
}

/// Of two runs of steps that are not the same, one comes first.
pub(crate) proof fn lemma_steps_before_parts(a: Seq<usize>, b: Seq<usize>)
    requires
        a != b,
    ensures
        steps_before(a, b) || steps_before(b, a),
    decreases a.len(),
{
    if a.len() == 0 || b.len() == 0 {
        if a.len() == b.len() {
            assert(a =~= b);
        }
    } else if a[0] == b[0] {
        if a.skip(1) == b.skip(1) {
            assert(a.len() == a.skip(1).len() + 1 && b.len() == b.skip(1).len() + 1);
            assert forall|i: int| 0 <= i < a.len() implies a[i] == b[i] by {
                if i > 0 {
                    assert(a.skip(1)[i - 1] == b.skip(1)[i - 1]);
                }
            }
            assert(a =~= b);
        }
        lemma_steps_before_parts(a.skip(1), b.skip(1));
    }
}

/// Each step in doubt doubles the sets the outcomes leave possible.
proof fn lemma_possible_count(outcomes: Seq<Outcome>)
    ensures
        possible(outcomes).len() == vstd::arithmetic::power2::pow2(count_of(outcomes, Ack::Unknown)),
    decreases outcomes.len(),
{
    if outcomes.len() == 0 {
        vstd::arithmetic::power2::lemma2_to64();
    } else {
        lemma_possible_count(outcomes.drop_last());
        if outcomes.last().ack == Ack::Unknown {
            vstd::arithmetic::power2::lemma_pow2_unfold(count_of(outcomes, Ack::Unknown));
        }
    }
}

/// A run that left few enough steps in doubt answers to exactly the sets of
/// steps its acknowledgements admit, each of them once. There are two to the
/// power of the steps in doubt, those with fewer steps first, and of two with as
/// many the one with the smaller step where they first part.
pub proof fn lemma_landed_sets(outcomes: Seq<Outcome>)
    requires
        outcomes.len() <= usize::MAX,
    ensures
        landed_sets(outcomes) is None <==> count_of(outcomes, Ack::Unknown) > IN_DOUBT_LIMIT,
        landed_sets(outcomes) matches Some(sets) ==> {
            &&& forall|set: Seq<usize>| #[trigger] sets.contains(set) <==> admitted(outcomes, set)
            &&& sets.no_duplicates()
            &&& sets.len() == vstd::arithmetic::power2::pow2(count_of(outcomes, Ack::Unknown))
            &&& forall|i: int, j: int|
                0 <= i < j < sets.len() ==> fewer_first()(#[trigger] sets[i], #[trigger] sets[j])
        },
{
    broadcast use vstd::seq_lib::group_to_multiset_ensures;

    let all = possible(outcomes);
    let sets = stable_sorted(all, fewer_first());
    lemma_sorted_keeps(all, fewer_first());
    lemma_fewer_first_orders();
    lemma_sorted_in_order(all, fewer_first());
    lemma_possible_distinct(outcomes);
    assert(sets.no_duplicates()) by {
        all.lemma_multiset_has_no_duplicates();
        sets.lemma_multiset_has_no_duplicates_conv();
    }
    assert forall|set: Seq<usize>| #[trigger] sets.contains(set) <==> admitted(outcomes, set) by {
        lemma_possible(outcomes, set);
        assert(sets.contains(set) <==> sets.to_multiset().contains(set));
        assert(all.contains(set) <==> all.to_multiset().contains(set));
    }
    lemma_possible_count(outcomes);
    assert forall|i: int, j: int| 0 <= i < j < sets.len() implies fewer_first()(
        #[trigger] sets[i],
        #[trigger] sets[j],
    ) by {
        assert(!fewer_first()(sets[j], sets[i]));
        if sets[i].len() == sets[j].len() {
            lemma_steps_before_parts(sets[i], sets[j]);
        }
    }
}

/// The steps, numbered from one, whose outcome was `ack`, counted.
fn count(outcomes: &[Outcome], ack: Ack) -> (r: usize)
    ensures
        r == count_of(outcomes@, ack),
{
    let mut n: usize = 0;
    for i in 0..outcomes.len()
        invariant
            n <= i,
            n == count_of(outcomes@.take(i as int), ack),
    {
        assert(outcomes@.take(i + 1).drop_last() =~= outcomes@.take(i as int));
        if outcomes[i].ack == ack {
            n += 1;
        }
    }
    assert(outcomes@.take(outcomes@.len() as int) =~= outcomes@);
    n
}

/// A copy of a set with one more step at its end.
fn with_step(set: &Vec<usize>, step: usize) -> (r: Vec<usize>)
    ensures
        r@ == set@.push(step),
{
    let mut out: Vec<usize> = Vec::new();
    for i in 0..set.len()
        invariant
            out@ == set@.take(i as int),
    {
        out.push(set[i]);
        assert(out@ =~= set@.take(i + 1));
    }
    assert(out@ =~= set@);
    out.push(step);
    out
}

/// Every set of steps the outcomes leave possible.
fn possible_sets(outcomes: &[Outcome]) -> (r: Vec<Vec<usize>>)
    ensures
        r.deep_view() == possible(outcomes@),
{
    let mut sets: Vec<Vec<usize>> = Vec::new();
    sets.push(Vec::new());
    assert(sets@[0].deep_view() =~= Seq::empty());
    assert(sets.deep_view() =~= possible(outcomes@.take(0)));
    for i in 0..outcomes.len()
        invariant
            sets.deep_view() == possible(outcomes@.take(i as int)),
    {
        let step: usize = i + 1;
        let ghost rest = sets.deep_view();
        proof {
            assert(outcomes@.take(i + 1).drop_last() =~= outcomes@.take(i as int));
        }
        match outcomes[i].ack {
            Ack::Rejected => {},
            ack => {
                let mut grown: Vec<Vec<usize>> = Vec::new();
                for j in 0..sets.len()
                    invariant
                        grown.len() == j,
                        forall|k: int| 0 <= k < j ==> (#[trigger] grown@[k])@ == sets@[k]@.push(step),
                {
                    grown.push(with_step(&sets[j], step));
                }
                proof {
                    assert forall|k: int| 0 <= k < grown@.len() implies grown.deep_view()[k]
                        == extended(rest, step)[k] by {
                        assert(grown@[k].deep_view() =~= grown@[k]@);
                        assert(sets@[k].deep_view() =~= sets@[k]@);
                    }
                    assert(grown.deep_view() =~= extended(rest, step));
                }
                if ack == Ack::Acked {
                    sets = grown;
                } else {
                    sets.append(&mut grown);
                    assert(sets.deep_view() =~= rest + extended(rest, step));
                }
            },
        }
    }
    assert(outcomes@.take(outcomes@.len() as int) =~= outcomes@);
    sets
}

/// Whether `a` comes before `b` step by step.
pub(crate) fn comes_before(a: &[usize], b: &[usize]) -> (r: bool)
    ensures
        r == steps_before(a@, b@),
{
    let mut i: usize = 0;
    proof {
        assert(a@.skip(0) =~= a@);
        assert(b@.skip(0) =~= b@);
    }
    while i < a.len() && i < b.len() && a[i] == b[i]
        invariant
            i <= a@.len(),
            i <= b@.len(),
            steps_before(a@, b@) == steps_before(a@.skip(i as int), b@.skip(i as int)),
        decreases a@.len() - i,
    {
        proof {
            assert(a@.skip(i as int).skip(1) =~= a@.skip(i + 1));
            assert(b@.skip(i as int).skip(1) =~= b@.skip(i + 1));
        }
        i += 1;
    }
    if i < a.len() && i < b.len() {
        a[i] < b[i]
    } else {
        i < b.len()
    }
}

/// Whether `a` comes before `b`: with fewer steps, or by the first it parts at.
fn is_before(a: &Vec<usize>, b: &Vec<usize>) -> (r: bool)
    ensures
        r == fewer_first()(a@, b@),
{
    if a.len() < b.len() {
        true
    } else {
        a.len() == b.len() && comes_before(a.as_slice(), b.as_slice())
    }
}

/// Which steps the fleet may have taken responsibility for, fewest first.
///
/// A step whose ack was lost may have landed or not. `None` where too many
/// were left in doubt to enumerate.
pub(crate) fn enumerate_landed(outcomes: &[Outcome]) -> (r: Option<Vec<Vec<usize>>>)
    ensures
        r.deep_view() == landed_sets(outcomes@),
{
    if count(outcomes, Ack::Unknown) > IN_DOUBT_LIMIT {
        return None;
    }
    let sets = possible_sets(outcomes);
    let ghost before = |a: Vec<usize>, b: Vec<usize>| fewer_first()(a@, b@);
    let ghost read = |v: Vec<usize>| v@;
    let ghost all = sets@;
    let sorted = sort_stable(sets, is_before, Ghost(before));
    proof {
        lemma_sorted_map(all, before, read, fewer_first());
        assert forall|v: Vec<usize>| #[trigger] v.deep_view() == v@ by {
            assert(v.deep_view() =~= v@);
        }
        assert(sorted@.map_values(read) =~= sorted.deep_view());
        assert(all.map_values(read) =~= possible(outcomes@));
    }
    Some(sorted)
}

} // verus!
