//! What the verdict of a driver comes to, said of the run it was read from.

use vstd::prelude::*;

use super::drivers::{parts_from, recorded, stops, stops_below};
use super::reading::Differ;
use super::{Outcome, Point, ReadingsModel};
use crate::ipc::message::VerdictModel;

verus! {

/// Whether two checkpoints hold one value for everything both have, all of it
/// read.
pub open spec fn hold_the_same(a: Point, b: Point) -> bool {
    forall|i: int| 0 <= i < a.len() && i < b.len() ==> same_at(a, b, i)
}

/// Whether two checkpoints were both read there, and hold one value.
pub open spec fn same_at(a: Point, b: Point, i: int) -> bool {
    a[i] is Some && b[i] == a[i]
}

/// Whether that is the first place where two checkpoints do not hold one value.
pub open spec fn parts_first(a: Point, b: Point, i: int) -> bool {
    &&& 0 <= i < a.len()
    &&& i < b.len()
    &&& !same_at(a, b, i)
    &&& forall|k: int| 0 <= k < i ==> #[trigger] same_at(a, b, k)
}

proof fn lemma_parts_from(a: Point, b: Point, n: int)
    requires
        0 <= n,
        n <= a.len() || n <= b.len(),
        forall|k: int| 0 <= k < n ==> #[trigger] same_at(a, b, k),
    ensures
        parts_from(a, b, n) is Agree <==> hold_the_same(a, b),
        parts_from(a, b, n) matches Differ::At(i) ==> parts_first(a, b, i) && a[i] is Some
            && b[i] is Some && a[i] != b[i],
        parts_from(a, b, n) matches Differ::Unread(i) ==> parts_first(a, b, i) && (a[i] is None
            || b[i] is None),
    decreases a.len() - n,
{
    if n < a.len() && n < b.len() {
        if same_at(a, b, n) {
            lemma_parts_from(a, b, n + 1);
        }
    }
}

/// Two checkpoints agree exactly where everything both have was read in both and
/// is one value. Where they part, the first place they do is told, and whether it
/// was read in both.
pub proof fn lemma_checkpoints_part(a: Point, b: Point)
    ensures
        parts_from(a, b, 0) is Agree <==> hold_the_same(a, b),
        parts_from(a, b, 0) matches Differ::At(i) ==> parts_first(a, b, i) && a[i] is Some
            && b[i] is Some && a[i] != b[i],
        parts_from(a, b, 0) matches Differ::Unread(i) ==> parts_first(a, b, i) && (a[i] is None
            || b[i] is None),
{
    lemma_parts_from(a, b, 0);
}

/// Whether a run may have landed its first `n` steps and no more: none of those
/// was refused, and none behind them acknowledged.
pub open spec fn may_have_landed(outcomes: Seq<Outcome>, n: int) -> bool {
    &&& 0 <= n <= outcomes.len()
    &&& forall|i: int| 0 <= i < n ==> !((#[trigger] outcomes[i]).ack is Rejected)
    &&& forall|i: int| n <= i < outcomes.len() ==> !((#[trigger] outcomes[i]).ack is Acked)
}

proof fn lemma_stops_below(outcomes: Seq<Outcome>, n: nat)
    requires
        n <= outcomes.len() + 1,
        outcomes.len() <= usize::MAX,
    ensures
        forall|k: int|
            0 <= k < stops_below(outcomes, n).len() ==> (#[trigger] stops_below(outcomes, n)[k]) < n
                && may_have_landed(outcomes, stops_below(outcomes, n)[k] as int),
        forall|s: usize|
            s < n && #[trigger] may_have_landed(outcomes, s as int) ==> stops_below(
                outcomes,
                n,
            ).contains(s),
        forall|i: int, j: int|
            0 <= i < j < stops_below(outcomes, n).len() ==> (#[trigger] stops_below(outcomes, n)[i])
                < (#[trigger] stops_below(outcomes, n)[j]),
    decreases n,
{
    if n > 0 {
        let fewer = (n - 1) as nat;
        lemma_stops_below(outcomes, fewer);
        let rest = stops_below(outcomes, fewer);
        let all = stops_below(outcomes, n);
        assert forall|s: usize| s < n && #[trigger] may_have_landed(outcomes, s as int) implies
            all.contains(s) by {
            if s < fewer {
                assert(rest.contains(s));
                let k = choose|k: int| 0 <= k < rest.len() && rest[k] == s;
                assert(all[k] == s);
            } else {
                assert(super::drivers::may_stop(outcomes, n - 1));
                assert(all[rest.len() as int] == s);
            }
        }
    }
}

/// The counts of steps a run may have landed are those it may have, fewest first.
pub proof fn lemma_stops_are_what_may_have_landed(outcomes: Seq<Outcome>)
    requires
        outcomes.len() <= usize::MAX,
    ensures
        forall|s: usize| #[trigger]
            stops(outcomes).contains(s) <==> may_have_landed(outcomes, s as int),
        forall|i: int, j: int|
            0 <= i < j < stops(outcomes).len() ==> (#[trigger] stops(outcomes)[i]) < (
            #[trigger] stops(outcomes)[j]),
{
    lemma_stops_below(outcomes, outcomes.len() + 1);
}

/// Whether a fault-free run that landed `n` steps left the fleet where this run
/// did, and this run may have landed that many.
pub open spec fn left_as_after(readings: ReadingsModel, n: int) -> bool {
    &&& may_have_landed(readings.outcomes, n)
    &&& n < readings.fault_free.trail.len()
    &&& hold_the_same(readings.settled(), readings.fault_free.trail[n])
}

/// Whether the most steps a run may have landed, of those the fault-free run left
/// a checkpoint for, is `n`.
pub open spec fn most_landed(readings: ReadingsModel, n: int) -> bool {
    &&& may_have_landed(readings.outcomes, n)
    &&& n < readings.fault_free.trail.len()
    &&& forall|k: int|
        n < k < readings.fault_free.trail.len() ==> !#[trigger] may_have_landed(
            readings.outcomes,
            k,
        )
}

/// Whether a fault fired in a run that drove something and checks something.
pub open spec fn tried(readings: ReadingsModel) -> bool {
    &&& readings.fault matches Some(report) && report.result is Fired
    &&& readings.outcomes.len() > 0
    &&& readings.checks.len() > 0
}

/// A run passes exactly where a fault fired in it, it drove and checks something,
/// and it left the fleet as the fault-free run did after as many steps as it may
/// have landed. It fails exactly where it did not, and the first thing that parts
/// from the most steps it may have landed was read in both.
pub proof fn lemma_driver_says(readings: ReadingsModel)
    requires
        readings.outcomes.len() <= usize::MAX,
    ensures
        readings.driven() is Pass <==> tried(readings) && exists|n: int| #[trigger]
            left_as_after(readings, n),
        readings.driven() is Fail <==> {
            &&& tried(readings)
            &&& !exists|n: int| #[trigger] left_as_after(readings, n)
            &&& exists|n: int, i: int| #[trigger]
                fell_short_at(readings, n, i)
        },
        readings.driven() matches VerdictModel::Fail { broke, .. } ==> broke is None,
{
    if tried(readings) {
        let report = readings.fault->0;
        lemma_stops_are_what_may_have_landed(readings.outcomes);
        lemma_known(readings);
        let trail = readings.fault_free.trail;
        let landed = stops(readings.outcomes);
        let known = recorded(landed, trail);
        let settled = readings.settled();
        assert forall|n: int| 0 <= n < trail.len() implies (#[trigger] parts_from(
            settled,
            trail[n],
            0,
        ) is Agree <==> hold_the_same(settled, trail[n])) by {
            lemma_checkpoints_part(settled, trail[n]);
        }
        if exists|n: int| #[trigger] left_as_after(readings, n) {
            let n = choose|n: int| #[trigger] left_as_after(readings, n);
            assert(known.contains(n as usize));
            let i = choose|i: int| 0 <= i < known.len() && known[i] == n as usize;
            assert(parts_from(settled, trail[known[i] as int], 0) is Agree);
        }
        if exists|i: int|
            0 <= i < known.len() && parts_from(settled, trail[#[trigger] known[i] as int], 0) is Agree {
            let i = choose|i: int|
                0 <= i < known.len() && parts_from(
                    settled,
                    trail[#[trigger] known[i] as int],
                    0,
                ) is Agree;
            assert(left_as_after(readings, known[i] as int));
        }
        if known.len() > 0 {
            let last = known.last() as int;
            assert(known[known.len() - 1] == known.last());
            assert(most_landed(readings, last));
            lemma_checkpoints_part(settled, trail[last]);
            if let Differ::At(i) = parts_from(settled, trail[last], 0) {
                assert(fell_short_at(readings, last, i));
            }
            assert forall|n: int, i: int| #[trigger] fell_short_at(readings, n, i) implies n == last
                by {
                if n < last {
                    assert(may_have_landed(readings.outcomes, last));
                } else if last < n {
                    assert(may_have_landed(readings.outcomes, n));
                }
            }
        } else {
            assert forall|n: int, i: int| !#[trigger] fell_short_at(readings, n, i) by {
                if fell_short_at(readings, n, i) {
                    assert(known.contains(n as usize));
                }
            }
        }
    }
}

/// Whether what a run settled on first parts at `i` from where the most steps it
/// may have landed leave the fleet, and was read there in both.
pub open spec fn fell_short_at(readings: ReadingsModel, n: int, i: int) -> bool {
    &&& most_landed(readings, n)
    &&& parts_first(readings.settled(), readings.fault_free.trail[n], i)
    &&& readings.settled()[i] is Some
    &&& readings.fault_free.trail[n][i] is Some
}

proof fn lemma_known(readings: ReadingsModel)
    requires
        readings.outcomes.len() <= usize::MAX,
    ensures
        ({
            let trail = readings.fault_free.trail;
            let known = recorded(stops(readings.outcomes), trail);
            &&& forall|k: int|
                0 <= k < known.len() ==> (#[trigger] known[k]) < trail.len() && may_have_landed(
                    readings.outcomes,
                    known[k] as int,
                )
            &&& forall|n: int|
                0 <= n < trail.len() && #[trigger] may_have_landed(readings.outcomes, n)
                    ==> known.contains(n as usize)
            &&& known.len() > 0 ==> most_landed(readings, known.last() as int)
            &&& known.len() == 0 ==> forall|n: int|
                0 <= n < trail.len() ==> !#[trigger] may_have_landed(readings.outcomes, n)
        }),
{
    let trail = readings.fault_free.trail;
    let landed = stops(readings.outcomes);
    let held = |n: usize| n < trail.len();
    let known = recorded(landed, trail);
    lemma_stops_are_what_may_have_landed(readings.outcomes);
    assert(known == landed.filter(held));
    assert forall|k: int| 0 <= k < known.len() implies (#[trigger] known[k]) < trail.len()
        && may_have_landed(readings.outcomes, known[k] as int) by {
        landed.lemma_filter_pred(held, k);
        assert(known.contains(known[k]));
        landed.lemma_filter_contains_rev(held, known[k]);
        assert(landed.contains(known[k]));
    }
    assert forall|n: int|
        0 <= n < trail.len() && #[trigger] may_have_landed(readings.outcomes, n) implies known.contains(
        n as usize,
    ) by {
        let s = n as usize;
        assert(may_have_landed(readings.outcomes, s as int));
        assert(landed.contains(s));
        let k = choose|k: int| 0 <= k < landed.len() && landed[k] == s;
        landed.lemma_filter_contains(held, k);
    }
    if known.len() > 0 {
        let last = known.last() as int;
        assert(known[known.len() - 1] == known.last());
        lemma_filter_rises(landed, held);
        assert forall|k: int| last < k < trail.len() implies !#[trigger] may_have_landed(
            readings.outcomes,
            k,
        ) by {
            if may_have_landed(readings.outcomes, k) {
                assert(known.contains(k as usize));
                let i = choose|i: int| 0 <= i < known.len() && known[i] == k as usize;
                if i < known.len() - 1 {
                    assert(known[i] < known[known.len() - 1]);
                }
            }
        }
    }
}

proof fn lemma_filter_rises(s: Seq<usize>, keep: spec_fn(usize) -> bool)
    requires
        forall|i: int, j: int| 0 <= i < j < s.len() ==> (#[trigger] s[i]) < (#[trigger] s[j]),
    ensures
        forall|i: int, j: int|
            0 <= i < j < s.filter(keep).len() ==> (#[trigger] s.filter(keep)[i]) < (
            #[trigger] s.filter(keep)[j]),
    decreases s.len(),
{
    reveal(Seq::filter);
    if s.len() > 0 {
        let fewer = s.drop_last();
        lemma_filter_rises(fewer, keep);
        let few = fewer.filter(keep);
        let all = s.filter(keep);
        assert forall|i: int, j: int| 0 <= i < j < all.len() implies (#[trigger] all[i]) < (
        #[trigger] all[j]) by {
            assert(all[i] == few[i]);
            if j < few.len() {
                assert(all[j] == few[j]);
            } else {
                assert(few.contains(few[i]));
                fewer.lemma_filter_contains_rev(keep, few[i]);
                let k = choose|k: int| 0 <= k < fewer.len() && fewer[k] == few[i];
                assert(s[k] == few[i]);
                assert(all[j] == s[s.len() - 1]);
            }
        }
    }
}

} // verus!
