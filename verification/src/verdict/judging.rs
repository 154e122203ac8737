//! What a verdict means, said of what was driven, what was read and what is
//! answered.

use vstd::prelude::*;

use super::landed::{admitted, count_of, fewer_first, landed_sets, lemma_landed_sets, steps_before};
use super::laws::{answered, lemma_pass_exactly, lemma_wanted_contains};
use super::reading::{
    admissible_of, difference, differing_from, prefix, run_of, short_from, shown_from, wanted,
    AdmissibleModel, Differ, Falling, PlacedModel, Went,
};
use super::{
    literal_order, unmet_from, Ack, BaselineModel, Invariant, JudgedModel, ObservedModel, Outcome,
    Point, ReadingsModel,
};
use crate::ipc::message::VerdictModel;
use crate::plan::{entry_of, CheckModel, Literal};
use crate::protocol::{FaultResultModel, Primitive};
use crate::schema::CmpOp;
use crate::text::{text_order, Order};

verus! {

/// Whether `a` comes before `b` in a dictionary of characters: they are the same
/// up to some place, and there `a` has ended or has the smaller character.
pub open spec fn sorts_before(a: Seq<char>, b: Seq<char>) -> bool {
    exists|k: int|
        0 <= k <= a.len() && k < b.len() && #[trigger] a.take(k) == b.take(k) && (k == a.len() || a[k]
            < b[k])
}

/// Whether `a` is less than `b`, which only amounts of one sort and texts are.
pub open spec fn below(a: Literal, b: Literal) -> bool {
    match (a, b) {
        (Literal::Int(a), Literal::Int(b)) => a < b,
        (Literal::Str(a), Literal::Str(b)) => sorts_before(a, b),
        (Literal::Duration(a), Literal::Duration(b)) => a@ < b@,
        _ => false,
    }
}

/// Whether it can be said which of two is less.
pub open spec fn in_one_order(a: Literal, b: Literal) -> bool {
    ||| a is Int && b is Int
    ||| a is Str && b is Str
    ||| a is Duration && b is Duration
}

/// Whether two are of one sort.
pub open spec fn one_sort(a: Literal, b: Literal) -> bool {
    &&& a is Null <==> b is Null
    &&& a is Str <==> b is Str
    &&& a is Int <==> b is Int
    &&& a is Bool <==> b is Bool
    &&& a is Duration <==> b is Duration
    &&& a is Ident <==> b is Ident
    &&& a is List <==> b is List
}

proof fn lemma_text_order(a: Seq<char>, b: Seq<char>)
    ensures
        text_order(a, b) == Order::Less <==> sorts_before(a, b),
        text_order(a, b) == Order::Greater <==> sorts_before(b, a),
        text_order(a, b) == Order::Equal <==> a == b,
    decreases a.len(),
{
    assert forall|x: Seq<char>, y: Seq<char>| x.len() == 0 && y.len() > 0 implies #[trigger] sorts_before(
        x,
        y,
    ) by {
        assert(x.take(0) =~= y.take(0));
    }
    if a.len() == 0 || b.len() == 0 {
        if a.len() == b.len() {
            assert(a =~= b);
        }
    } else if a[0] != b[0] {
        assert(a.take(0) =~= b.take(0));
        assert(b.take(0) =~= a.take(0));
        assert forall|x: Seq<char>, y: Seq<char>|
            x.len() > 0 && y.len() > 0 && x[0] != y[0] && x[0] > y[0] implies !(#[trigger] sorts_before(
            x,
            y,
        )) by {
            if sorts_before(x, y) {
                let k = choose|k: int|
                    0 <= k <= x.len() && k < y.len() && #[trigger] x.take(k) == y.take(k) && (k
                        == x.len() || x[k] < y[k]);
                if k > 0 {
                    assert(x.take(k)[0] == y.take(k)[0]);
                }
            }
        }
    } else {
        let p = a.skip(1);
        let q = b.skip(1);
        lemma_text_order(p, q);
        lemma_sorts_on(a, b);
        lemma_sorts_on(b, a);
        if p == q {
            assert(a =~= seq![a[0]] + p);
            assert(b =~= seq![b[0]] + q);
        }
    }
}

proof fn lemma_sorts_on(a: Seq<char>, b: Seq<char>)
    requires
        a.len() > 0,
        b.len() > 0,
        a[0] == b[0],
    ensures
        sorts_before(a, b) <==> sorts_before(a.skip(1), b.skip(1)),
{
    let p = a.skip(1);
    let q = b.skip(1);
    if sorts_before(a, b) {
        let k = choose|k: int|
            0 <= k <= a.len() && k < b.len() && #[trigger] a.take(k) == b.take(k) && (k == a.len()
                || a[k] < b[k]);
        assert(k > 0);
        assert(p.take(k - 1) =~= a.take(k).skip(1));
        assert(q.take(k - 1) =~= b.take(k).skip(1));
        assert(p.take(k - 1) == q.take(k - 1));
    }
    if sorts_before(p, q) {
        let k = choose|k: int|
            0 <= k <= p.len() && k < q.len() && #[trigger] p.take(k) == q.take(k) && (k == p.len()
                || p[k] < q[k]);
        assert(a.take(k + 1) =~= seq![a[0]] + p.take(k));
        assert(b.take(k + 1) =~= seq![b[0]] + q.take(k));
        assert(a.take(k + 1) == b.take(k + 1));
    }
}

proof fn lemma_below(a: Literal, b: Literal)
    ensures
        literal_order(a, b) is Some <==> in_one_order(a, b),
        literal_order(a, b) == Some(Order::Less) <==> below(a, b),
        literal_order(a, b) == Some(Order::Greater) <==> below(b, a),
{
    match (a, b) {
        (Literal::Str(a), Literal::Str(b)) => {
            lemma_text_order(a, b);
        },
        _ => {},
    }
}

/// A reading holds to what is stated of it as the statement is read. What is of
/// another sort cannot be compared at all, and only amounts and texts can be said
/// to be less or more. `==` holds of what is the same and nothing else, `!=` of
/// all the rest. Of two integers, `<`, `<=`, `>` and `>=` hold as they stand.
pub proof fn lemma_comparisons(check: CheckModel, reading: Literal)
    ensures
        ({
            let holds = (ObservedModel { check, value: Some(reading) }).holds();
            let stated = check.value;
            &&& !one_sort(reading, stated) ==> holds is None
            &&& one_sort(reading, stated) ==> {
                &&& check.op == CmpOp::Eq ==> holds == Some(reading == stated)
                &&& check.op == CmpOp::Ne ==> holds == Some(reading != stated)
            }
            &&& check.op != CmpOp::Eq && check.op != CmpOp::Ne ==> (holds is Some <==> in_one_order(
                reading,
                stated,
            ))
            &&& in_one_order(reading, stated) ==> {
                &&& check.op == CmpOp::Lt ==> holds == Some(below(reading, stated))
                &&& check.op == CmpOp::Le ==> holds == Some(!below(stated, reading))
                &&& check.op == CmpOp::Gt ==> holds == Some(below(stated, reading))
                &&& check.op == CmpOp::Ge ==> holds == Some(!below(reading, stated))
            }
            &&& reading matches Literal::Int(a) ==> stated matches Literal::Int(b) ==> {
                &&& check.op == CmpOp::Eq ==> holds == Some(a == b)
                &&& check.op == CmpOp::Ne ==> holds == Some(a != b)
                &&& check.op == CmpOp::Lt ==> holds == Some(a < b)
                &&& check.op == CmpOp::Le ==> holds == Some(a <= b)
                &&& check.op == CmpOp::Gt ==> holds == Some(a > b)
                &&& check.op == CmpOp::Ge ==> holds == Some(a >= b)
            }
            &&& reading == stated && check.op == CmpOp::Eq ==> holds == Some(true)
            &&& reading == stated && check.op == CmpOp::Ne ==> holds == Some(false)
        }),
        (ObservedModel { check, value: None }).holds() is None,
{
    lemma_below(reading, check.value);
    lemma_below(check.value, reading);
}

/// Whether a reading was taken and stands to what a check states as it is
/// written.
pub open spec fn stands_as_stated(check: CheckModel, reading: Option<Literal>) -> bool {
    reading matches Some(reading) && one_sort(reading, check.value) && match check.op {
        CmpOp::Eq => reading == check.value,
        CmpOp::Ne => reading != check.value,
        CmpOp::Lt => below(reading, check.value),
        CmpOp::Le => in_one_order(reading, check.value) && !below(check.value, reading),
        CmpOp::Gt => below(check.value, reading),
        CmpOp::Ge => in_one_order(reading, check.value) && !below(reading, check.value),
    }
}

/// Whether the check at `k` was read and stands as it is stated.
pub open spec fn met(checks: Seq<CheckModel>, settled: Point, k: int) -> bool {
    k < settled.len() && stands_as_stated(checks[k], settled[k])
}

proof fn lemma_unmet_from(checks: Seq<CheckModel>, settled: Point, i: int)
    requires
        0 <= i <= checks.len(),
    ensures
        unmet_from(checks, settled, i) is None <==> forall|k: int|
            i <= k < checks.len() ==> #[trigger] met(checks, settled, k),
        unmet_from(checks, settled, i) matches Some(why) ==> exists|k: int|
            i <= k < checks.len() && #[trigger] missed_first(checks, settled, i, k, why),
    decreases checks.len() - i,
{
    if i < checks.len() {
        if i < settled.len() && settled[i] is Some {
            lemma_comparisons(checks[i], settled[i]->0);
            lemma_below(settled[i]->0, checks[i].value);
        }
        if met(checks, settled, i) {
            lemma_unmet_from(checks, settled, i + 1);
            if unmet_from(checks, settled, i) is Some {
                let why = unmet_from(checks, settled, i)->0;
                let k = choose|k: int|
                    i + 1 <= k < checks.len() && #[trigger] missed_first(
                        checks,
                        settled,
                        i + 1,
                        k,
                        why,
                    );
                assert(missed_first(checks, settled, i, k, why));
            }
        } else {
            assert(missed_first(checks, settled, i, i, unmet_from(checks, settled, i)->0));
        }
    }
}

/// Whether the check at `k` is the first from `i` on that was not met, and `why`
/// says so: that nothing was read for it, that it could not be read, or what it
/// reads.
pub open spec fn missed_first(
    checks: Seq<CheckModel>,
    settled: Point,
    i: int,
    k: int,
    why: Seq<char>,
) -> bool {
    &&& forall|n: int| i <= n < k ==> #[trigger] met(checks, settled, n)
    &&& !met(checks, settled, k)
    &&& k >= settled.len() ==> why == "`"@ + checks[k].observed() + "` was never read"@
    &&& k < settled.len() && settled[k] is None ==> why == "`"@ + checks[k].observed()
        + "` could not be read"@
    &&& k < settled.len() && settled[k] is Some ==> why == "`"@ + checks[k].clause() + "` reads "@
        + crate::plan::spelling(settled[k]->0)
}

/// A fault-free run meets its scenario where, and only where, every check was
/// read and what it reads stands to what the check states as it is written.
/// Otherwise the first check that is not met is the one it is said of.
pub proof fn lemma_met_exactly(checks: Seq<CheckModel>, settled: Point)
    ensures
        unmet_from(checks, settled, 0) is None <==> forall|k: int|
            0 <= k < checks.len() ==> #[trigger] met(checks, settled, k),
        unmet_from(checks, settled, 0) matches Some(why) ==> exists|k: int|
            0 <= k < checks.len() && #[trigger] missed_first(checks, settled, 0, k, why),
{
    lemma_unmet_from(checks, settled, 0);
}

/// Whether two checkpoints read the same up to there, and not there.
pub open spec fn part_at(a: Point, b: Point, i: int) -> bool {
    &&& 0 <= i < a.len()
    &&& i < b.len()
    &&& a[i] != b[i]
    &&& forall|k: int| 0 <= k < i ==> #[trigger] a[k] == b[k]
}

/// Whether two checkpoints read the same wherever both have a reading to give.
pub open spec fn read_alike(a: Point, b: Point) -> bool {
    forall|i: int| 0 <= i < a.len() && i < b.len() ==> #[trigger] a[i] == b[i]
}

proof fn lemma_differing_from(a: Point, b: Point, i: int)
    requires
        0 <= i,
        forall|k: int| 0 <= k < i && k < a.len() && k < b.len() ==> #[trigger] a[k] == b[k],
    ensures
        match differing_from(a, b, i) {
            Differ::Agree => read_alike(a, b),
            Differ::At(at) => part_at(a, b, at) && a[at] is Some && b[at] is Some,
            Differ::Unread(at) => part_at(a, b, at) && (a[at] is None || b[at] is None),
        },
    decreases a.len() - i,
{
    if i < a.len() && i < b.len() && a[i] == b[i] {
        lemma_differing_from(a, b, i + 1);
    }
}

/// Two checkpoints agree where, and only where, they read the same at every place
/// both have. Where they do not, the first place they part at is named, and
/// whether both could be read there.
pub proof fn lemma_difference(reached: Point, expected: Point)
    ensures
        difference(reached, expected) is Agree <==> forall|i: int|
            0 <= i < reached.len() && i < expected.len() ==> #[trigger] reached[i] == expected[i],
        forall|i: int|
            difference(reached, expected) == Differ::At(i) <==> #[trigger] part_at(
                reached,
                expected,
                i,
            ) && reached[i] is Some && expected[i] is Some,
        forall|i: int|
            difference(reached, expected) == Differ::Unread(i) <==> #[trigger] part_at(
                reached,
                expected,
                i,
            ) && (reached[i] is None || expected[i] is None),
{
    lemma_differing_from(reached, expected, 0);
    assert forall|i: int, j: int|
        #[trigger] part_at(reached, expected, i) && #[trigger] part_at(
            reached,
            expected,
            j,
        ) implies i == j by {
        if i < j {
            assert(reached[i] == expected[i]);
        } else if j < i {
            assert(reached[j] == expected[j]);
        }
    }
    match difference(reached, expected) {
        Differ::Agree => {
            assert forall|i: int| !(#[trigger] part_at(reached, expected, i)) by {
                if part_at(reached, expected, i) {
                    assert(reached[i] == expected[i]);
                }
            }
        },
        Differ::At(at) => {
            assert(part_at(reached, expected, at));
            assert(reached[at] != expected[at]);
        },
        Differ::Unread(at) => {
            assert(part_at(reached, expected, at));
            assert(reached[at] != expected[at]);
        },
    }
}

/// Whether the steps are the first of the scenario and no others.
pub open spec fn the_first(steps: Seq<usize>) -> bool {
    steps == Seq::new(steps.len(), |i: int| (i + 1) as usize)
}

/// Whether `point` is where a run of exactly those steps left the fleet. The
/// fault-free run says so of the first steps of the scenario: where it stood once
/// that many had been taken, and where it settled once all had. A reference run
/// says so of any others.
pub open spec fn left_at(
    fault_free: BaselineModel,
    references: Seq<(Seq<usize>, BaselineModel)>,
    steps: Seq<usize>,
    point: Point,
) -> bool {
    if the_first(steps) {
        ||| steps.len() + 1 == fault_free.trail.len() && point == fault_free.settled
        ||| steps.len() + 1 < fault_free.trail.len() && point == fault_free.trail[steps.len() as int]
    } else {
        exists|j: int| #[trigger] entry_at(references, steps, j) && references[j].1.settled == point
    }
}

/// Whether the entry at `j` is the one under that key.
pub open spec fn entry_at(
    references: Seq<(Seq<usize>, BaselineModel)>,
    steps: Seq<usize>,
    j: int,
) -> bool {
    &&& 0 <= j < references.len()
    &&& references[j].0 == steps
    &&& forall|i: int| 0 <= i < j ==> (#[trigger] references[i]).0 != steps
}

proof fn lemma_entry_of(references: Seq<(Seq<usize>, BaselineModel)>, steps: Seq<usize>)
    ensures
        entry_of(references, steps) matches Some(found) ==> exists|j: int| #[trigger]
            entry_at(references, steps, j) && references[j].1 == found,
        entry_of(references, steps) is None ==> forall|j: int| !#[trigger] entry_at(references, steps, j),
    decreases references.len(),
{
    if references.len() > 0 {
        let rest = references.skip(1);
        lemma_entry_of(rest, steps);
        if references[0].0 == steps {
            assert(entry_at(references, steps, 0));
        } else {
            match entry_of(rest, steps) {
                Some(found) => {
                    let j = choose|j: int| #[trigger] entry_at(rest, steps, j) && rest[j].1 == found;
                    assert forall|i: int| 0 <= i < j + 1 implies (#[trigger] references[i]).0
                        != steps by {
                        if i > 0 {
                            assert(rest[i - 1] == references[i]);
                        }
                    }
                    assert(rest[j] == references[j + 1]);
                    assert(entry_at(references, steps, j + 1));
                },
                None => {
                    assert forall|j: int| !#[trigger] entry_at(references, steps, j) by {
                        if entry_at(references, steps, j) {
                            assert(rest[j - 1] == references[j]);
                            assert forall|i: int| 0 <= i < j - 1 implies (#[trigger] rest[i]).0
                                != steps by {
                                assert(rest[i] == references[i + 1]);
                            }
                            assert(entry_at(rest, steps, j - 1));
                        }
                    }
                },
            }
        }
    }
}

proof fn lemma_entry_unique(
    references: Seq<(Seq<usize>, BaselineModel)>,
    steps: Seq<usize>,
    i: int,
    j: int,
)
    requires
        entry_at(references, steps, i),
        entry_at(references, steps, j),
    ensures
        i == j,
{
    if i < j {
        assert(references[i].0 != steps);
    } else if j < i {
        assert(references[j].0 != steps);
    }
}

proof fn lemma_run_of(
    fault_free: BaselineModel,
    references: Seq<(Seq<usize>, BaselineModel)>,
    steps: Seq<usize>,
)
    requires
        steps.len() <= usize::MAX,
    ensures
        prefix(steps) <==> the_first(steps),
        forall|point: Point| #[trigger]
            left_at(fault_free, references, steps, point) <==> run_of(
                fault_free,
                references,
                steps,
            ) is Some && run_of(fault_free, references, steps)->0.settled == point,
{
    let first = Seq::new(steps.len(), |i: int| (i + 1) as usize);
    if prefix(steps) {
        assert(steps =~= first);
    }
    if the_first(steps) {
        assert forall|i: int| 0 <= i < steps.len() implies #[trigger] steps[i] == i + 1 by {
            assert(first[i] == (i + 1) as usize);
        }
    }
    lemma_entry_of(references, steps);
    assert forall|point: Point| #[trigger]
        left_at(fault_free, references, steps, point) <==> run_of(fault_free, references, steps) is Some
            && run_of(fault_free, references, steps)->0.settled == point by {
        if !prefix(steps) {
            match entry_of(references, steps) {
                Some(found) => {
                    let j = choose|j: int| #[trigger]
                        entry_at(references, steps, j) && references[j].1 == found;
                    assert(references[j].1.settled == run_of(fault_free, references, steps)->0.settled);
                    if left_at(fault_free, references, steps, point) {
                        let i = choose|i: int| #[trigger]
                            entry_at(references, steps, i) && references[i].1.settled == point;
                        lemma_entry_unique(references, steps, i, j);
                    }
                },
                None => {},
            }
        }
    }
}

/// Whether the run's acknowledgements admit that exactly those steps landed, that
/// a run of them left the fleet at `point`, and that this run's checks all read
/// there what they read once it settled.
pub open spec fn accounts_for(
    run: ReadingsModel,
    references: Seq<(Seq<usize>, BaselineModel)>,
    steps: Seq<usize>,
    point: Point,
) -> bool {
    &&& admitted(run.outcomes, steps)
    &&& left_at(run.fault_free, references, steps, point)
    &&& forall|i: int|
        0 <= i < run.checks.len() && i < point.len() ==> #[trigger] run.checks[i].value == point[i]
}

/// Whether the run can be judged at all: its fault fired, it drove and checked
/// something, and no more than eight of its steps were left in doubt.
pub open spec fn judgeable(run: ReadingsModel) -> bool {
    &&& run.fault matches Some(report) && report.result is Fired
    &&& run.outcomes.len() > 0
    &&& run.checks.len() > 0
    &&& run.outcomes.filter(|outcome: Outcome| outcome.ack == Ack::Unknown).len() <= 8
}

proof fn lemma_count_of(outcomes: Seq<Outcome>, ack: Ack)
    ensures
        count_of(outcomes, ack) == outcomes.filter(|outcome: Outcome| outcome.ack == ack).len(),
    decreases outcomes.len(),
{
    reveal(Seq::filter);
    if outcomes.len() > 0 {
        lemma_count_of(outcomes.drop_last(), ack);
    }
}

proof fn lemma_admitted_fits(outcomes: Seq<Outcome>, steps: Seq<usize>)
    requires
        outcomes.len() <= usize::MAX,
        admitted(outcomes, steps),
    ensures
        steps.len() <= outcomes.len(),
{
    lemma_admitted_rises(outcomes, steps, steps.len() as int);
}

proof fn lemma_admitted_rises(outcomes: Seq<Outcome>, steps: Seq<usize>, n: int)
    requires
        admitted(outcomes, steps),
        0 <= n <= steps.len(),
    ensures
        n > 0 ==> n <= steps[n - 1],
        n <= outcomes.len(),
    decreases n,
{
    if n > 0 {
        lemma_admitted_rises(outcomes, steps, n - 1);
        assert(1 <= steps[n - 1] <= outcomes.len());
        if n > 1 {
            assert(steps[n - 2] < steps[n - 1]);
        }
    }
}

proof fn lemma_answered(
    run: ReadingsModel,
    references: Seq<(Seq<usize>, BaselineModel)>,
    steps: Seq<usize>,
)
    requires
        run.outcomes.len() <= usize::MAX,
        admitted(run.outcomes, steps),
    ensures
        answered(run, references, steps) <==> exists|point: Point| #[trigger]
            accounts_for(run, references, steps, point),
{
    lemma_admitted_fits(run.outcomes, steps);
    lemma_run_of(run.fault_free, references, steps);
    match run_of(run.fault_free, references, steps) {
        Some(reached) => {
            let point = reached.settled;
            assert(left_at(run.fault_free, references, steps, point));
            lemma_difference(run.settled(), point);
            if answered(run, references, steps) {
                assert forall|i: int|
                    0 <= i < run.checks.len() && i < point.len() implies #[trigger] run.checks[i].value
                    == point[i] by {
                    assert(run.settled()[i] == point[i]);
                }
                assert(accounts_for(run, references, steps, point));
            }
            if exists|other: Point| #[trigger] accounts_for(run, references, steps, other) {
                let other = choose|other: Point| #[trigger]
                    accounts_for(run, references, steps, other);
                assert(other == point);
                assert forall|i: int| 0 <= i < run.settled().len() && i < point.len() implies
                    #[trigger] run.settled()[i] == point[i] by {
                    assert(run.checks[i].value == point[i]);
                }
            }
        },
        None => {
            assert forall|point: Point| !#[trigger] accounts_for(run, references, steps, point) by {
                if accounts_for(run, references, steps, point) {
                    assert(left_at(run.fault_free, references, steps, point));
                }
            }
        },
    }
}

/// A run passes where, and only where, it can be judged and some set of steps its
/// acknowledgements admit accounts for it: a run of exactly those steps left the
/// fleet where every check of this one found it.
pub proof fn lemma_pass_means(run: ReadingsModel, references: Seq<(Seq<usize>, BaselineModel)>)
    requires
        run.outcomes.len() <= usize::MAX,
    ensures
        run.judged(references) == JudgedModel::Now(VerdictModel::Pass) <==> judgeable(run)
            && exists|steps: Seq<usize>, point: Point| #[trigger]
            accounts_for(run, references, steps, point),
{
    lemma_pass_exactly(run, references);
    lemma_count_of(run.outcomes, Ack::Unknown);
    if exists|steps: Seq<usize>| #[trigger] answered(run, references, steps) {
        let steps = choose|steps: Seq<usize>| #[trigger] answered(run, references, steps);
        lemma_answered(run, references, steps);
        let point = choose|point: Point| #[trigger] accounts_for(run, references, steps, point);
        assert(accounts_for(run, references, steps, point));
    }
    if exists|steps: Seq<usize>, point: Point| #[trigger]
        accounts_for(run, references, steps, point) {
        let (steps, point) = choose|steps: Seq<usize>, point: Point| #[trigger]
            accounts_for(run, references, steps, point);
        lemma_answered(run, references, steps);
        assert(answered(run, references, steps));
    }
}

/// Whether `a` is asked about before `b`: it has fewer steps, or as many and the
/// smaller one where they first part.
pub open spec fn ahead(a: Seq<usize>, b: Seq<usize>) -> bool {
    ||| a.len() < b.len()
    ||| a.len() == b.len() && exists|k: int|
        0 <= k < a.len() && #[trigger] a.take(k) == b.take(k) && a[k] < b[k]
}

proof fn lemma_steps_part(a: Seq<usize>, b: Seq<usize>)
    requires
        a.len() == b.len(),
        steps_before(a, b),
    ensures
        exists|k: int| 0 <= k < a.len() && #[trigger] a.take(k) == b.take(k) && a[k] < b[k],
    decreases a.len(),
{
    if a[0] != b[0] {
        assert(a.take(0) =~= b.take(0));
    } else {
        let p = a.skip(1);
        let q = b.skip(1);
        lemma_steps_part(p, q);
        let k = choose|k: int| 0 <= k < p.len() && #[trigger] p.take(k) == q.take(k) && p[k] < q[k];
        assert(a.take(k + 1) =~= seq![a[0]] + p.take(k));
        assert(b.take(k + 1) =~= seq![b[0]] + q.take(k));
        assert(a.take(k + 1) == b.take(k + 1));
    }
}

proof fn lemma_ahead(a: Seq<usize>, b: Seq<usize>)
    requires
        fewer_first()(a, b),
    ensures
        ahead(a, b),
{
    if a.len() == b.len() {
        lemma_steps_part(a, b);
    }
}

/// Whether the states are those a run's acknowledgements admit and some run has
/// been in, those asked about first before the others: each with the steps that
/// lead to it, where they left the fleet, and where it stood on the way.
pub open spec fn states_of(
    run: ReadingsModel,
    references: Seq<(Seq<usize>, BaselineModel)>,
    states: Seq<AdmissibleModel>,
) -> bool {
    &&& forall|i: int, j: int|
        0 <= i < j < states.len() ==> ahead(
            (#[trigger] states[i]).landed,
            (#[trigger] states[j]).landed,
        )
    &&& forall|i: int|
        0 <= i < states.len() ==> {
            let state = #[trigger] states[i];
            &&& admitted(run.outcomes, state.landed)
            &&& left_at(run.fault_free, references, state.landed, state.settled)
            &&& the_first(state.landed) ==> state.trail == run.fault_free.trail
            &&& !the_first(state.landed) ==> exists|j: int| #[trigger]
                entry_at(references, state.landed, j) && state.trail == references[j].1.trail
        }
    &&& forall|steps: Seq<usize>, point: Point| #[trigger]
        left_at(run.fault_free, references, steps, point) && admitted(run.outcomes, steps)
            ==> exists|i: int| 0 <= i < states.len() && (#[trigger] states[i]).landed == steps
}

proof fn lemma_admissible_places(
    fault_free: BaselineModel,
    references: Seq<(Seq<usize>, BaselineModel)>,
    sets: Seq<Seq<usize>>,
)
    ensures
        ({
            let states = admissible_of(fault_free, references, sets);
            exists|at: Seq<int>| #[trigger] stands(fault_free, references, sets, states, at)
        }),
        forall|i: int|
            0 <= i < sets.len() && run_of(fault_free, references, #[trigger] sets[i]) is Some
                ==> exists|k: int|
                0 <= k < admissible_of(fault_free, references, sets).len()
                    && #[trigger] admissible_of(fault_free, references, sets)[k] == run_of(
                    fault_free,
                    references,
                    sets[i],
                )->0,
    decreases sets.len(),
{
    let states = admissible_of(fault_free, references, sets);
    if sets.len() == 0 {
        assert(stands(fault_free, references, sets, states, Seq::empty()));
    } else {
        let rest = sets.drop_last();
        let before = admissible_of(fault_free, references, rest);
        lemma_admissible_places(fault_free, references, rest);
        let at = choose|at: Seq<int>| #[trigger] stands(fault_free, references, rest, before, at);
        let all = if run_of(fault_free, references, sets.last()) is Some {
            at.push(sets.len() - 1)
        } else {
            at
        };
        assert forall|i: int| 0 <= i < states.len() implies 0 <= #[trigger] all[i] < sets.len()
            && run_of(fault_free, references, sets[all[i]]) == Some(states[i]) by {
            if i < before.len() {
                assert(0 <= at[i] < rest.len());
                assert(rest[at[i]] == sets[at[i]]);
            }
        }
        assert forall|i: int, j: int| 0 <= i < j < all.len() implies #[trigger] all[i]
            < #[trigger] all[j] by {
            if j < at.len() {
                assert(at[i] < at[j]);
            } else {
                assert(0 <= at[i] < rest.len());
            }
        }
        assert(stands(fault_free, references, sets, states, all));
        assert forall|i: int|
            0 <= i < sets.len() && run_of(fault_free, references, #[trigger] sets[i]) is Some implies exists|
            k: int,
        |
            0 <= k < states.len() && #[trigger] states[k] == run_of(
                fault_free,
                references,
                sets[i],
            )->0 by {
            if i < rest.len() {
                assert(rest[i] == sets[i]);
                let k = choose|k: int|
                    0 <= k < before.len() && #[trigger] before[k] == run_of(
                        fault_free,
                        references,
                        rest[i],
                    )->0;
                assert(states[k] == before[k]);
            } else {
                assert(states[states.len() - 1] == run_of(fault_free, references, sets[i])->0);
            }
        }
    }
}

spec fn stands(
    fault_free: BaselineModel,
    references: Seq<(Seq<usize>, BaselineModel)>,
    sets: Seq<Seq<usize>>,
    states: Seq<AdmissibleModel>,
    at: Seq<int>,
) -> bool {
    &&& at.len() == states.len()
    &&& forall|i: int| 0 <= i < states.len() ==> 0 <= #[trigger] at[i] < sets.len() && run_of(
        fault_free,
        references,
        sets[at[i]],
    ) == Some(states[i])
    &&& forall|i: int, j: int| 0 <= i < j < at.len() ==> #[trigger] at[i] < #[trigger] at[j]
}

proof fn lemma_states_of(
    run: ReadingsModel,
    references: Seq<(Seq<usize>, BaselineModel)>,
    sets: Seq<Seq<usize>>,
)
    requires
        run.outcomes.len() <= usize::MAX,
        landed_sets(run.outcomes) == Some(sets),
    ensures
        states_of(run, references, admissible_of(run.fault_free, references, sets)),
{
    let states = admissible_of(run.fault_free, references, sets);
    lemma_landed_sets(run.outcomes);
    lemma_admissible_places(run.fault_free, references, sets);
    let at = choose|at: Seq<int>| #[trigger] stands(run.fault_free, references, sets, states, at);
    assert forall|i: int| 0 <= i < states.len() implies {
        let state = #[trigger] states[i];
        &&& sets[at[i]] == state.landed
        &&& admitted(run.outcomes, state.landed)
        &&& left_at(run.fault_free, references, state.landed, state.settled)
        &&& the_first(state.landed) ==> state.trail == run.fault_free.trail
        &&& !the_first(state.landed) ==> exists|j: int| #[trigger]
            entry_at(references, state.landed, j) && state.trail == references[j].1.trail
    } by {
        let steps = sets[at[i]];
        assert(0 <= at[i] < sets.len());
        assert(sets.contains(steps));
        assert(states[i].landed == steps);
        lemma_admitted_fits(run.outcomes, steps);
        lemma_run_of(run.fault_free, references, steps);
        assert(left_at(run.fault_free, references, steps, states[i].settled));
        lemma_entry_of(references, steps);
    }
    assert forall|i: int, j: int| 0 <= i < j < states.len() implies ahead(
        (#[trigger] states[i]).landed,
        (#[trigger] states[j]).landed,
    ) by {
        assert(at[i] < at[j]);
        assert(0 <= at[i] && at[j] < sets.len());
        assert(fewer_first()(sets[at[i]], sets[at[j]]));
        lemma_ahead(sets[at[i]], sets[at[j]]);
    }
    assert forall|steps: Seq<usize>, point: Point| #[trigger]
        left_at(run.fault_free, references, steps, point) && admitted(
            run.outcomes,
            steps,
        ) implies exists|i: int| 0 <= i < states.len() && (#[trigger] states[i]).landed == steps by {
        lemma_admitted_fits(run.outcomes, steps);
        lemma_run_of(run.fault_free, references, steps);
        assert(sets.contains(steps));
        let i = choose|i: int| 0 <= i < sets.len() && sets[i] == steps;
        assert(run_of(run.fault_free, references, sets[i]) is Some);
        let k = choose|k: int|
            0 <= k < states.len() && #[trigger] states[k] == run_of(
                run.fault_free,
                references,
                sets[i],
            )->0;
        assert(states[k].landed == steps);
    }
}

/// Whether no reference run has been taken of steps the run's acknowledgements
/// admit, which the fault-free run cannot answer for.
pub open spec fn unanswered(
    run: ReadingsModel,
    references: Seq<(Seq<usize>, BaselineModel)>,
    steps: Seq<usize>,
) -> bool {
    &&& admitted(run.outcomes, steps)
    &&& !the_first(steps)
    &&& forall|j: int| !#[trigger] entry_at(references, steps, j)
}

proof fn lemma_unanswered(
    run: ReadingsModel,
    references: Seq<(Seq<usize>, BaselineModel)>,
    sets: Seq<Seq<usize>>,
    steps: Seq<usize>,
)
    requires
        run.outcomes.len() <= usize::MAX,
        landed_sets(run.outcomes) == Some(sets),
    ensures
        wanted(run.fault_free, references, sets).contains(steps) <==> unanswered(
            run,
            references,
            steps,
        ),
{
    lemma_landed_sets(run.outcomes);
    lemma_wanted_contains(run.fault_free, references, sets, steps);
    assert(sets.contains(steps) <==> admitted(run.outcomes, steps));
    if admitted(run.outcomes, steps) {
        lemma_admitted_fits(run.outcomes, steps);
        lemma_run_of(run.fault_free, references, steps);
    }
    lemma_entry_of(references, steps);
    if entry_of(references, steps) is Some {
        let j = choose|j: int| #[trigger] entry_at(references, steps, j) && references[j].1
            == entry_of(references, steps)->0;
        assert(entry_at(references, steps, j));
    }
}

/// A run that can be judged and nothing accounts for waits for a reference run of
/// exactly the sets of steps that are admitted and unanswered, while there is
/// one. Then it is held to the state asked about last, which the most steps lead
/// to: it fails where both could be read at the first check the two part at, and
/// is inconclusive where one could not, or where there is no such state.
pub proof fn lemma_not_passed_means(
    run: ReadingsModel,
    references: Seq<(Seq<usize>, BaselineModel)>,
)
    requires
        run.outcomes.len() <= usize::MAX,
        judgeable(run),
        forall|steps: Seq<usize>, point: Point| !#[trigger]
            accounts_for(run, references, steps, point),
    ensures
        match run.judged(references) {
            JudgedModel::Pending(sets) => sets.len() > 0 && forall|steps: Seq<usize>|
                #[trigger] sets.contains(steps) <==> unanswered(run, references, steps),
            JudgedModel::Now(verdict) => {
                &&& forall|steps: Seq<usize>| !#[trigger] unanswered(run, references, steps)
                &&& exists|states: Seq<AdmissibleModel>| #[trigger]
                    states_of(run, references, states) && match verdict {
                        VerdictModel::Pass => false,
                        VerdictModel::Fail { .. } => states.len() > 0 && exists|i: int| #[trigger]
                            part_at(run.settled(), states.last().settled, i)
                                && run.checks[i].value is Some && states.last().settled[i] is Some,
                        VerdictModel::Inconclusive { .. } => states.len() > 0 ==> exists|i: int|
                            #[trigger] part_at(run.settled(), states.last().settled, i) && (
                            run.checks[i].value is None || states.last().settled[i] is None),
                    }
            },
        },
{
    lemma_pass_means(run, references);
    lemma_count_of(run.outcomes, Ack::Unknown);
    lemma_landed_sets(run.outcomes);
    let sets = landed_sets(run.outcomes)->0;
    let states = admissible_of(run.fault_free, references, sets);
    let left = wanted(run.fault_free, references, sets);
    lemma_states_of(run, references, sets);
    assert forall|steps: Seq<usize>| #[trigger] left.contains(steps) <==> unanswered(
        run,
        references,
        steps,
    ) by {
        lemma_unanswered(run, references, sets, steps);
    }
    if left.len() == 0 {
        assert forall|steps: Seq<usize>| !#[trigger] unanswered(run, references, steps) by {
            assert(!left.contains(steps));
        }
        if states.len() > 0 {
            let most = states.last();
            lemma_difference(run.settled(), most.settled);
            match difference(run.settled(), most.settled) {
                Differ::Agree => {},
                Differ::At(i) => {
                    assert(part_at(run.settled(), most.settled, i));
                    assert(run.settled()[i] == run.checks[i].value);
                },
                Differ::Unread(i) => {
                    assert(part_at(run.settled(), most.settled, i));
                    assert(run.settled()[i] == run.checks[i].value);
                },
            }
        }
        assert(states_of(run, references, states));
    }
}

/// What a checkpoint reads there, if anything.
pub open spec fn read_there(point: Point, c: int) -> Option<Literal> {
    if 0 <= c < point.len() {
        point[c]
    } else {
        None
    }
}

/// Whether a step took what is read at `c` from one amount to no smaller a one,
/// as far as it was read.
pub open spec fn kept_up(was: Point, now: Point, c: int) -> bool {
    read_there(was, c) is Some && read_there(now, c) is Some ==> in_one_order(
        read_there(was, c)->0,
        read_there(now, c)->0,
    ) && !below(read_there(now, c)->0, read_there(was, c)->0)
}

/// Whether a step took what is read at `c` from one amount to a larger one.
pub open spec fn went_up(was: Point, now: Point, c: int) -> bool {
    read_there(was, c) is Some && read_there(now, c) is Some && below(
        read_there(was, c)->0,
        read_there(now, c)->0,
    )
}

/// Whether what is read at `c` only ever rose over a run, and did rise.
pub open spec fn only_rose(trail: Seq<Point>, c: int) -> bool {
    &&& forall|i: int| 0 <= i < trail.len() - 1 ==> kept_up(#[trigger] trail[i], trail[i + 1], c)
    &&& exists|i: int| 0 <= i < trail.len() - 1 && went_up(#[trigger] trail[i], trail[i + 1], c)
}

proof fn lemma_only_rose(trail: Seq<Point>, c: int)
    ensures
        super::reading::climbs(trail, c) <==> only_rose(trail, c),
{
    assert forall|i: int| 0 <= i < trail.len() - 1 implies {
        &&& super::reading::never_falls(
            super::reading::reading_at(#[trigger] trail[i], c),
            super::reading::reading_at(trail[i + 1], c),
        ) <==> kept_up(trail[i], trail[i + 1], c)
        &&& super::reading::rises(
            super::reading::reading_at(trail[i], c),
            super::reading::reading_at(trail[i + 1], c),
        ) <==> went_up(trail[i], trail[i + 1], c)
    } by {
        if read_there(trail[i], c) is Some && read_there(trail[i + 1], c) is Some {
            lemma_below(read_there(trail[i], c)->0, read_there(trail[i + 1], c)->0);
        }
    }
    if super::reading::climbs(trail, c) {
        let i = choose|i: int|
            0 <= i < trail.len() - 1 && super::reading::rises(
                super::reading::reading_at(#[trigger] trail[i], c),
                super::reading::reading_at(trail[i + 1], c),
            );
        assert(went_up(trail[i], trail[i + 1], c));
    }
    if only_rose(trail, c) {
        let i = choose|i: int|
            0 <= i < trail.len() - 1 && went_up(#[trigger] trail[i], trail[i + 1], c);
        assert(super::reading::rises(
            super::reading::reading_at(trail[i], c),
            super::reading::reading_at(trail[i + 1], c),
        ));
    }
}

/// Whether the fleet holds less at `c` than every state leaves it, of an amount
/// the steps only ever added to.
pub open spec fn holds_less(settled: Point, states: Seq<AdmissibleModel>, c: int) -> bool {
    &&& read_there(settled, c) matches Some(held)
    &&& held is Int || held is Duration
    &&& only_rose(states[0].trail, c)
    &&& forall|i: int|
        0 <= i < states.len() ==> read_there((#[trigger] states[i]).settled, c) is Some && below(
            held,
            read_there(states[i].settled, c)->0,
        )
}

/// Whether work was lost: the fleet stands where it stood before the last of the
/// fewest steps it can have taken, or holds less of something than every state
/// leaves it.
pub open spec fn lost(settled: Point, states: Seq<AdmissibleModel>) -> bool {
    &&& states.len() > 0
    &&& {
        ||| exists|n: int|
            0 <= n < states[0].landed.len() && n < states[0].trail.len()
                && #[trigger] states[0].trail[n] == settled
        ||| exists|c: int| #[trigger] holds_less(settled, states, c)
    }
}

/// Whether `held` is what taking a step a second time makes of `left`: what the
/// step left alone stays, and what it moved moves as far again.
pub open spec fn again(
    held: Literal,
    left: Option<Literal>,
    was: Option<Literal>,
    now: Option<Literal>,
) -> bool {
    if was == now {
        left == Some(held)
    } else {
        &&& held is Int
        &&& left matches Some(Literal::Int(left))
        &&& was matches Some(Literal::Int(was))
        &&& now matches Some(Literal::Int(now))
        &&& held->Int_0 - left == now - was
        &&& i64::MIN <= now - was <= i64::MAX
    }
}

/// Whether `held` is what a step arriving after the rest makes of `left`: what it
/// left alone or only added to stays, and anything else is what the step left.
pub open spec fn overwritten(
    held: Literal,
    left: Option<Literal>,
    was: Option<Literal>,
    now: Option<Literal>,
    rose: bool,
) -> bool {
    left is Some && if was == now || rose {
        left == Some(held)
    } else {
        now == Some(held)
    }
}

/// Whether the step in place `k` was read either side of, over as many checks as
/// the state has.
pub open spec fn read_round(state: AdmissibleModel, k: int) -> bool {
    &&& 0 <= k
    &&& k + 1 < state.trail.len()
    &&& state.trail[k].len() == state.settled.len()
    &&& state.trail[k + 1].len() == state.settled.len()
}

/// Whether the fleet settled where the state would be had the step in place `k`
/// been taken twice.
pub open spec fn taken_twice(settled: Point, state: AdmissibleModel, k: int) -> bool {
    &&& k < state.landed.len()
    &&& read_round(state, k)
    &&& forall|c: int|
        0 <= c < settled.len() && c < state.settled.len() && (#[trigger] settled[c]) is Some ==> again(
            settled[c]->0,
            state.settled[c],
            state.trail[k][c],
            state.trail[k + 1][c],
        )
}

/// Whether the fleet settled where the state would be had the step in place `k`,
/// which is not the last, arrived after the rest.
pub open spec fn taken_late(settled: Point, state: AdmissibleModel, k: int) -> bool {
    &&& k < state.landed.len() - 1
    &&& read_round(state, k)
    &&& forall|c: int|
        0 <= c < settled.len() && c < state.settled.len() && (#[trigger] settled[c]) is Some
            ==> overwritten(
            settled[c]->0,
            state.settled[c],
            state.trail[k][c],
            state.trail[k + 1][c],
            only_rose(state.trail, c),
        )
}

/// Whether the state says a step was taken twice.
pub open spec fn says_twice(settled: Point, state: AdmissibleModel) -> bool {
    exists|k: int| #[trigger] taken_twice(settled, state, k)
}

/// Whether the state says a step was taken late.
pub open spec fn says_late(settled: Point, state: AdmissibleModel) -> bool {
    exists|k: int| #[trigger] taken_late(settled, state, k)
}

proof fn lemma_shown(settled: Point, state: AdmissibleModel, k: int, how: Falling)
    requires
        0 <= k < super::reading::able(state.landed.len(), how),
    ensures
        super::reading::shown(settled, state, k, how) == Some(true) <==> match how {
            Falling::Twice => taken_twice(settled, state, k),
            Falling::Last => taken_late(settled, state, k),
        },
{
    if read_round(state, k) {
        let point = super::reading::projected(state.trail, state.settled, k, how)->0;
        assert forall|c: int| 0 <= c < point.len() && c < settled.len() && (#[trigger] settled[c]) is Some implies (
        point[c] == settled[c] <==> match how {
            Falling::Twice => again(
                settled[c]->0,
                state.settled[c],
                state.trail[k][c],
                state.trail[k + 1][c],
            ),
            Falling::Last => overwritten(
                settled[c]->0,
                state.settled[c],
                state.trail[k][c],
                state.trail[k + 1][c],
                only_rose(state.trail, c),
            ),
        }) by {
            lemma_only_rose(state.trail, c);
        }
        let said = super::reading::describes(point, settled);
        if said == Some(true) {
            assert forall|c: int|
                0 <= c < settled.len() && c < state.settled.len() && (
                #[trigger] settled[c]) is Some implies point[c] == settled[c] by {}
        } else if match how {
            Falling::Twice => taken_twice(settled, state, k),
            Falling::Last => taken_late(settled, state, k),
        } {
            assert forall|c: int|
                0 <= c < point.len() && c < settled.len() && (#[trigger] settled[c]) is Some implies point[c]
                == settled[c] by {}
        }
    }
}

proof fn lemma_any_shown(settled: Point, state: AdmissibleModel)
    ensures
        super::reading::any_shown(settled, state, Falling::Twice) <==> says_twice(settled, state),
        super::reading::any_shown(settled, state, Falling::Last) <==> says_late(settled, state),
{
    assert forall|k: int| 0 <= k < super::reading::able(state.landed.len(), Falling::Twice) implies (
    #[trigger] super::reading::shown(settled, state, k, Falling::Twice) == Some(true)
        <==> taken_twice(settled, state, k)) by {
        lemma_shown(settled, state, k, Falling::Twice);
    }
    assert forall|k: int| 0 <= k < super::reading::able(state.landed.len(), Falling::Last) implies (
    #[trigger] super::reading::shown(settled, state, k, Falling::Last) == Some(true)
        <==> taken_late(settled, state, k)) by {
        lemma_shown(settled, state, k, Falling::Last);
    }
    if super::reading::any_shown(settled, state, Falling::Twice) {
        let k = choose|k: int|
            0 <= k < super::reading::able(state.landed.len(), Falling::Twice)
                && #[trigger] super::reading::shown(settled, state, k, Falling::Twice) == Some(true);
        assert(taken_twice(settled, state, k));
    }
    if says_twice(settled, state) {
        let k = choose|k: int| #[trigger] taken_twice(settled, state, k);
        assert(super::reading::shown(settled, state, k, Falling::Twice) == Some(true));
    }
    if super::reading::any_shown(settled, state, Falling::Last) {
        let k = choose|k: int|
            0 <= k < super::reading::able(state.landed.len(), Falling::Last)
                && #[trigger] super::reading::shown(settled, state, k, Falling::Last) == Some(true);
        assert(taken_late(settled, state, k));
    }
    if says_late(settled, state) {
        let k = choose|k: int| #[trigger] taken_late(settled, state, k);
        assert(super::reading::shown(settled, state, k, Falling::Last) == Some(true));
    }
}

/// Whether the state in place `i` is the first that says a step was taken twice
/// or late.
pub open spec fn first_to_say(settled: Point, states: Seq<AdmissibleModel>, i: int) -> bool {
    &&& 0 <= i < states.len()
    &&& says_twice(settled, states[i]) || says_late(settled, states[i])
    &&& forall|j: int|
        0 <= j < i ==> !says_twice(settled, #[trigger] states[j]) && !says_late(settled, states[j])
}

proof fn lemma_shown_from(settled: Point, states: Seq<AdmissibleModel>, i: int)
    requires
        0 <= i <= states.len(),
        forall|j: int|
            0 <= j < i ==> !says_twice(settled, #[trigger] states[j]) && !says_late(
                settled,
                states[j],
            ),
    ensures
        match shown_from(settled, states, i) {
            None => forall|j: int|
                0 <= j < states.len() ==> !says_twice(settled, #[trigger] states[j]) && !says_late(
                    settled,
                    states[j],
                ),
            Some(went) => exists|k: int| #[trigger]
                first_to_say(settled, states, k) && went == (if says_twice(settled, states[k]) {
                    Went::Twice
                } else {
                    Went::OutOfOrder
                }),
        },
    decreases states.len() - i,
{
    if i < states.len() {
        lemma_any_shown(settled, states[i]);
        if says_twice(settled, states[i]) || says_late(settled, states[i]) {
            assert(first_to_say(settled, states, i));
        } else {
            lemma_shown_from(settled, states, i + 1);
        }
    }
}

proof fn lemma_short_from(settled: Point, states: Seq<AdmissibleModel>, at: int)
    requires
        states.len() > 0,
        0 <= at <= settled.len(),
        forall|c: int| 0 <= c < at ==> !#[trigger] holds_less(settled, states, c),
    ensures
        short_from(settled, states, at) is Some <==> exists|c: int| #[trigger]
            holds_less(settled, states, c),
    decreases settled.len() - at,
{
    if at < settled.len() {
        lemma_only_rose(states[0].trail, at);
        assert(super::reading::short_at(settled, states, at) <==> holds_less(settled, states, at))
            by {
            if settled[at] is Some {
                assert forall|i: int| 0 <= i < states.len() && read_there(
                    (#[trigger] states[i]).settled,
                    at,
                ) is Some implies (literal_order(
                    settled[at]->0,
                    read_there(states[i].settled, at)->0,
                ) == Some(Order::Less) <==> below(
                    settled[at]->0,
                    read_there(states[i].settled, at)->0,
                )) by {
                    lemma_below(settled[at]->0, read_there(states[i].settled, at)->0);
                }
                if super::reading::short_at(settled, states, at) {
                    assert(read_there(states[0].settled, at) is Some);
                    assert(below(settled[at]->0, read_there(states[0].settled, at)->0));
                    assert forall|i: int| 0 <= i < states.len() implies read_there(
                        (#[trigger] states[i]).settled,
                        at,
                    ) is Some && below(
                        settled[at]->0,
                        read_there(states[i].settled, at)->0,
                    ) by {}
                }
                if holds_less(settled, states, at) {
                    assert forall|i: int| 0 <= i < states.len() implies {
                        &&& super::reading::reading_at((#[trigger] states[i]).settled, at) is Some
                        &&& literal_order(
                            super::reading::reading_at(settled, at)->0,
                            super::reading::reading_at(states[i].settled, at)->0,
                        ) == Some(Order::Less)
                    } by {}
                }
            }
        }
        if !super::reading::short_at(settled, states, at) {
            lemma_short_from(settled, states, at + 1);
        }
    } else {
        assert forall|c: int| !#[trigger] holds_less(settled, states, c) by {}
    }
}

/// What the fleet did is read off where it settled: work was lost where it stands
/// short of what it can have taken, and otherwise the first state that says a
/// step was taken twice, or late, says what happened.
pub proof fn lemma_went_means(settled: Point, states: Seq<AdmissibleModel>)
    ensures
        ({
            let went = Went::said(settled, states);
            &&& went == Went::Lost <==> lost(settled, states)
            &&& went == Went::Twice <==> !lost(settled, states) && exists|i: int| #[trigger]
                first_to_say(settled, states, i) && says_twice(settled, states[i])
            &&& went == Went::OutOfOrder <==> !lost(settled, states) && exists|i: int| #[trigger]
                first_to_say(settled, states, i) && !says_twice(settled, states[i])
        }),
{
    if states.len() > 0 {
        lemma_short_from(settled, states, 0);
    }
    lemma_shown_from(settled, states, 0);
    assert forall|i: int, j: int| #[trigger]
        first_to_say(settled, states, i) && #[trigger] first_to_say(settled, states, j) implies i
        == j by {
        if i < j {
            assert(!says_twice(settled, states[i]));
        } else if j < i {
            assert(!says_twice(settled, states[j]));
        }
    }
}

/// Which invariant a failed run names. A message made to arrive twice can only
/// break idempotency and messages made to arrive out of order only convergence.
/// Otherwise it is where the fleet settled that says: what it took on while held
/// down and never caught up on is recovery, other lost work durability, a step
/// taken twice idempotency, and one taken late convergence.
pub proof fn lemma_broke_means(run: ReadingsModel, references: Seq<(Seq<usize>, BaselineModel)>)
    requires
        run.outcomes.len() <= usize::MAX,
    ensures
        run.judged(references) matches JudgedModel::Now(VerdictModel::Fail { broke, .. }) ==> {
            &&& run.fault matches Some(report)
            &&& report.result matches FaultResultModel::Fired { by, at, .. }
            &&& exists|states: Seq<AdmissibleModel>| #[trigger]
                states_of(run, references, states) && {
                    let settled = run.settled();
                    let throughout = at is Throughout;
                    let lost = lost(settled, states);
                    let never_caught_up = throughout && lost && states[0].landed.len() > 0;
                    &&& broke == Some(Invariant::Recovers) <==> never_caught_up
                    &&& !throughout && by == Primitive::Redeliver ==> broke == Some(
                        Invariant::Idempotent,
                    )
                    &&& !throughout && by == Primitive::Reorder ==> broke == Some(
                        Invariant::Converges,
                    )
                    &&& !never_caught_up && (throughout || by == Primitive::Kill || by == Primitive::Cut || by
                        == Primitive::Drop) ==> {
                        &&& broke == Some(Invariant::Durable) <==> lost
                        &&& broke == Some(Invariant::Idempotent) <==> !lost && exists|i: int| #[trigger]
                            first_to_say(settled, states, i) && says_twice(settled, states[i])
                        &&& broke == Some(Invariant::Converges) <==> !lost && exists|i: int| #[trigger]
                            first_to_say(settled, states, i) && !says_twice(settled, states[i])
                    }
                }
        },
{
    match run.judged(references) {
        JudgedModel::Now(VerdictModel::Fail { broke, .. }) => {
            lemma_landed_sets(run.outcomes);
            let report = run.fault->0;
            let by = report.result->Fired_by;
            let at = report.result->Fired_at;
            let sets = landed_sets(run.outcomes)->0;
            let states = admissible_of(run.fault_free, references, sets);
            lemma_states_of(run, references, sets);
            lemma_went_means(run.settled(), states);
            let went = Went::said(run.settled(), states);
            let fault = PlacedModel { service: report.service, by, at };
            assert(broke == fault.broke(went, states));
            let all = seq![
                Invariant::Durable,
                Invariant::Idempotent,
                Invariant::Converges,
            ];
            let degraded = super::shown_degraded();
            assert(all[0] == Invariant::Durable && all[1] == Invariant::Idempotent && all[2]
                == Invariant::Converges);
            assert(degraded[1] == Invariant::Durable && degraded[2] == Invariant::Idempotent
                && degraded[3] == Invariant::Converges);
            assert(!all.contains(Invariant::Recovers));
            assert(went.names() != Some(Invariant::Recovers));
            assert(states_of(run, references, states));
        },
        _ => {},
    }
}

/// A run that cannot be judged is inconclusive whatever it read: it neither
/// passes nor fails, and no reference run is asked for.
pub proof fn lemma_unjudgeable_means(
    run: ReadingsModel,
    references: Seq<(Seq<usize>, BaselineModel)>,
)
    requires
        !judgeable(run),
    ensures
        run.judged(references) matches JudgedModel::Now(VerdictModel::Inconclusive { .. }),
{
    lemma_count_of(run.outcomes, Ack::Unknown);
}

} // verus!
