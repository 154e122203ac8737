//! What a verdict tells of a run, said of the run.

use vstd::prelude::*;

use super::reading::{
    diverged_from, listed, parting, placed_from, placement_of, prefix, step_spellings, took,
    AdmissibleModel, PlacedModel, Went,
};
use super::{Invariant, JudgedModel, Point, StepWindow};
use crate::ipc::message::VerdictModel;
use crate::plan::Literal;
use crate::protocol::{AtModel, Primitive};
use crate::text::{decimal, joined};

verus! {

/// Whether the step at `k` is the first that had not ended by then.
pub open spec fn not_ended_by(windows: Seq<StepWindow>, at_ns: u128, k: int) -> bool {
    &&& 0 <= k < windows.len()
    &&& at_ns <= windows[k].end_ns
    &&& forall|h: int| 0 <= h < k ==> at_ns > (#[trigger] windows[h]).end_ns
}

proof fn lemma_placed_from(windows: Seq<StepWindow>, at_ns: u128, i: int, k: int)
    requires
        0 <= i <= k,
        not_ended_by(windows, at_ns, k),
    ensures
        placed_from(windows, at_ns, i) == (if at_ns < windows[k].start_ns {
            "between steps "@ + decimal(k as nat) + " and "@ + decimal((k + 1) as nat)
        } else {
            "during step "@ + decimal((k + 1) as nat)
        }),
    decreases k - i,
{
    if i < k {
        assert(at_ns > windows[i].end_ns);
        lemma_placed_from(windows, at_ns, i + 1, k);
    }
}

proof fn lemma_placed_behind(windows: Seq<StepWindow>, at_ns: u128, i: int)
    requires
        0 <= i <= windows.len(),
        forall|h: int| 0 <= h < windows.len() ==> at_ns > (#[trigger] windows[h]).end_ns,
    ensures
        placed_from(windows, at_ns, i) == "after step "@ + decimal(windows.len()),
    decreases windows.len() - i,
{
    if i < windows.len() {
        assert(at_ns > windows[i].end_ns);
        lemma_placed_behind(windows, at_ns, i + 1);
    }
}

/// A moment is told by the first step that had not ended by then: before the first
/// step, between two where that one had not begun, and during it where it had. One
/// behind every step is told by the last.
pub proof fn lemma_moment_told(windows: Seq<StepWindow>, at_ns: u128, k: int)
    ensures
        windows.len() == 0 ==> placement_of(windows, at_ns) == "at an unknown point"@,
        windows.len() > 0 && at_ns < windows[0].start_ns ==> placement_of(windows, at_ns)
            == "before step 1"@,
        not_ended_by(windows, at_ns, k) && windows[0].start_ns <= at_ns && windows[k].start_ns
            <= at_ns ==> placement_of(windows, at_ns) == "during step "@ + decimal((k + 1) as nat),
        not_ended_by(windows, at_ns, k) && windows[0].start_ns <= at_ns && at_ns
            < windows[k].start_ns ==> placement_of(windows, at_ns) == "between steps "@ + decimal(
            k as nat,
        ) + " and "@ + decimal((k + 1) as nat),
        windows.len() > 0 && windows[0].start_ns <= at_ns && (forall|h: int|
            0 <= h < windows.len() ==> at_ns > (#[trigger] windows[h]).end_ns) ==> placement_of(
            windows,
            at_ns,
        ) == "after step "@ + decimal(windows.len()),
{
    if not_ended_by(windows, at_ns, k) {
        lemma_placed_from(windows, at_ns, 0, k);
    }
    if forall|h: int| 0 <= h < windows.len() ==> at_ns > (#[trigger] windows[h]).end_ns {
        lemma_placed_behind(windows, at_ns, 0);
    }
}

/// Whether two runs first part behind the step at `i`.
pub open spec fn first_parts(a: Seq<Point>, b: Seq<Point>, i: int) -> bool {
    &&& 0 <= i < a.len()
    &&& i < b.len()
    &&& a[i] != b[i]
    &&& forall|k: int| 0 <= k < i ==> a[k] == #[trigger] b[k]
}

proof fn lemma_diverged_from(a: Seq<Point>, b: Seq<Point>, n: int)
    requires
        0 <= n,
        forall|k: int| 0 <= k < n ==> a[k] == #[trigger] b[k],
    ensures
        diverged_from(a, b, n) matches Some(i) ==> first_parts(a, b, i),
        diverged_from(a, b, n) is None <==> forall|k: int|
            0 <= k < a.len() && k < b.len() ==> a[k] == #[trigger] b[k],
    decreases a.len() - n,
{
    if n < a.len() && n < b.len() && a[n] == b[n] {
        lemma_diverged_from(a, b, n + 1);
    }
}

/// A run parts from another where they first hold something else, and nowhere
/// where they never do.
pub proof fn lemma_runs_part(a: Seq<Point>, b: Seq<Point>)
    ensures
        diverged_from(a, b, 0) matches Some(i) ==> first_parts(a, b, i),
        diverged_from(a, b, 0) is None <==> forall|k: int|
            0 <= k < a.len() && k < b.len() ==> a[k] == #[trigger] b[k],
{
    lemma_diverged_from(a, b, 0);
}

/// The first steps of a scenario are told by how many they are, and any others by
/// name.
pub proof fn lemma_steps_told(landed: Seq<usize>)
    ensures
        prefix(landed) && landed.len() == 1 ==> took(landed) == "1 step"@,
        prefix(landed) && landed.len() != 1 ==> took(landed) == decimal(landed.len()) + " steps"@,
        !prefix(landed) && landed.len() == 1 ==> took(landed) == "step "@ + decimal(
            landed[0] as nat,
        ),
        !prefix(landed) && landed.len() == 2 ==> took(landed) == "steps "@ + decimal(
            landed[0] as nat,
        ) + " and "@ + decimal(landed[1] as nat),
        !prefix(landed) && landed.len() > 2 ==> took(landed) == "steps "@ + joined(
            landed.take(landed.len() - 1).map_values(|step: usize| decimal(step as nat)),
            ", "@,
        ) + " and "@ + decimal(landed[landed.len() - 1] as nat),
        prefix(landed) <==> forall|i: int| 0 <= i < landed.len() ==> #[trigger] landed[i] == i + 1,
{
    if !prefix(landed) {
        assert(landed.len() > 0);
        if landed.len() == 2 {
            let one = step_spellings(landed.drop_last());
            assert(one.len() == 1);
            assert(one[0] == decimal(landed[0] as nat));
            assert(joined(one, ", "@) == one[0]);
        }
        assert(landed.take(landed.len() - 1) =~= landed.drop_last());
    }
}

/// What was done is told as it was done, and when: for the whole run, or at a
/// moment and on what.
pub proof fn lemma_fault_told(fault: PlacedModel, windows: Seq<StepWindow>)
    ensures
        fault.by == Primitive::Kill ==> fault.done() == "was killed"@,
        fault.by == Primitive::Cut ==> fault.done() == "was cut off"@,
        fault.by == Primitive::Redeliver ==> fault.done() == "was redelivered to"@,
        fault.by == Primitive::Reorder ==> fault.done() == "was reordered around"@,
        fault.by == Primitive::Drop ==> fault.done() == "had a message dropped on it"@,
        fault.at is Throughout ==> fault.when(windows) == "for the whole run"@,
        fault.at matches AtModel::Moment { offset_ns, why, .. } ==> fault.when(windows)
            == placement_of(windows, offset_ns) + ", on "@ + why,
{
}

/// Whether one amount is below another of the same sort.
pub open spec fn below(a: Literal, b: Literal) -> bool {
    match (a, b) {
        (Literal::Int(a), Literal::Int(b)) => a < b,
        (Literal::Duration(a), Literal::Duration(b)) => a@ < b@,
        _ => false,
    }
}

/// What a state owes at one reading, where it could be read.
pub open spec fn owes(state: AdmissibleModel, at: int, owed: Literal) -> bool {
    0 <= at < state.settled.len() && state.settled[at] == Some(owed)
}

/// Whether some state owes an amount there, and every amount owed is below what the
/// fleet held.
pub open spec fn held_more(held: Literal, states: Seq<AdmissibleModel>, at: int) -> bool {
    &&& exists|k: int, owed: Literal|
        0 <= k < states.len() && #[trigger] owes(states[k], at, owed)
    &&& forall|k: int, owed: Literal|
        0 <= k < states.len() && #[trigger] owes(states[k], at, owed) ==> below(owed, held)
}

/// Whether some state owes an amount there, and every amount owed is above what the
/// fleet held.
pub open spec fn held_less(held: Literal, states: Seq<AdmissibleModel>, at: int) -> bool {
    &&& exists|k: int, owed: Literal|
        0 <= k < states.len() && #[trigger] owes(states[k], at, owed)
    &&& forall|k: int, owed: Literal|
        0 <= k < states.len() && #[trigger] owes(states[k], at, owed) ==> below(held, owed)
}

proof fn lemma_some_owe(states: Seq<AdmissibleModel>, at: int)
    ensures
        (exists|i: int|
            0 <= i < states.len() && super::reading::reading_at(
                (#[trigger] states[i]).settled,
                at,
            ) is Some) <==> exists|k: int, owed: Literal|
            0 <= k < states.len() && #[trigger] owes(states[k], at, owed),
{
    if exists|i: int|
        0 <= i < states.len() && super::reading::reading_at((#[trigger] states[i]).settled, at)
            is Some {
        let i = choose|i: int|
            0 <= i < states.len() && super::reading::reading_at((#[trigger] states[i]).settled, at)
                is Some;
        assert(owes(states[i], at, states[i].settled[at]->0));
    }
    if exists|k: int, owed: Literal|
        0 <= k < states.len() && #[trigger] owes(states[k], at, owed) {
        let (k, owed) = choose|k: int, owed: Literal|
            0 <= k < states.len() && #[trigger] owes(states[k], at, owed);
        assert(super::reading::reading_at(states[k].settled, at) is Some);
    }
}

proof fn lemma_all_stand(held: Literal, states: Seq<AdmissibleModel>, at: int)
    requires
        held is Int || held is Duration,
    ensures
        super::reading::stands(held, states, at, crate::text::Order::Greater) <==> held_more(
            held,
            states,
            at,
        ),
        super::reading::stands(held, states, at, crate::text::Order::Less) <==> held_less(
            held,
            states,
            at,
        ),
{
    lemma_some_owe(states, at);
    if held_more(held, states, at) || held_less(held, states, at) {
        assert forall|i: int|
            0 <= i < states.len() && super::reading::reading_at(
                (#[trigger] states[i]).settled,
                at,
            ) is Some implies owes(
            states[i],
            at,
            super::reading::reading_at(states[i].settled, at)->0,
        ) by {}
    }
    if super::reading::stands(held, states, at, crate::text::Order::Greater)
        || super::reading::stands(held, states, at, crate::text::Order::Less) {
        assert forall|k: int, owed: Literal|
            0 <= k < states.len() && #[trigger] owes(
                states[k],
                at,
                owed,
            ) implies super::reading::reading_at(states[k].settled, at) == Some(owed) by {}
    }
}

/// A failure says the fleet held more than it owed exactly where what it held is an
/// amount above all it can have owed, and less where it is below all of it. One of
/// those amounts being of a moment passed through is said along with the first. Of
/// what is no amount, or stands between, nothing is said.
pub proof fn lemma_parting_told(held: Literal, states: Seq<AdmissibleModel>, at: int)
    ensures
        !(held is Int || held is Duration) ==> parting(held, states, at) == ""@,
        (held is Int || held is Duration) && held_less(held, states, at) ==> parting(
            held,
            states,
            at,
        ) == ". It held less than it owed on any reading"@,
        (held is Int || held is Duration) && held_more(held, states, at) && (forall|k: int|
            0 <= k < states.len() ==> (#[trigger] states[k]).settled_there) ==> parting(
            held,
            states,
            at,
        ) == ". It held more than it owed on any reading"@,
        (held is Int || held is Duration) && held_more(held, states, at) && (exists|k: int|
            0 <= k < states.len() && !(#[trigger] states[k]).settled_there) ==> parting(
            held,
            states,
            at,
        ) == ". It held more than it owed on any reading, one of which is a point the fault-free run passed through rather than where it stopped"@,
        !held_less(held, states, at) && !held_more(held, states, at) ==> parting(held, states, at)
            == ""@,
{
    if held is Int || held is Duration {
        lemma_all_stand(held, states, at);
        if held_less(held, states, at) {
            let (k, owed) = choose|k: int, owed: Literal|
                0 <= k < states.len() && #[trigger] owes(states[k], at, owed);
            assert(below(held, owed));
            assert(!below(owed, held));
        }
    }
}

/// Whether a text ends in another.
pub open spec fn ends_in(text: Seq<char>, tail: Seq<char>) -> bool {
    text.len() >= tail.len() && text.skip(text.len() - tail.len()) == tail
}

proof fn lemma_ends_in(lead: Seq<char>, tail: Seq<char>)
    ensures
        ends_in(lead + tail, tail),
{
    assert((lead + tail).skip((lead + tail).len() - tail.len()) =~= tail);
}

proof fn lemma_recovery_said()
    ensures
        ends_in(
            ". It settled where fewer steps would have left it, so work it accepted while it was down was never caught up on, which is recovery"@,
            ", which is recovery"@,
        ),
{
    reveal_strlit(
        ". It settled where fewer steps would have left it, so work it accepted while it was down was never caught up on, which is recovery",
    );
    reveal_strlit(", which is recovery");
    let text =
        ". It settled where fewer steps would have left it, so work it accepted while it was down was never caught up on, which is recovery"@;
    let tail = ", which is recovery"@;
    assert(text.skip(text.len() - tail.len()) =~= tail);
}

proof fn lemma_durability_said()
    ensures
        ends_in(
            ". It settled where fewer steps would have left it, so work was lost, which is durability"@,
            ", which is durability"@,
        ),
{
    reveal_strlit(
        ". It settled where fewer steps would have left it, so work was lost, which is durability",
    );
    reveal_strlit(", which is durability");
    let text =
        ". It settled where fewer steps would have left it, so work was lost, which is durability"@;
    let tail = ", which is durability"@;
    assert(text.skip(text.len() - tail.len()) =~= tail);
}

proof fn lemma_idempotency_said()
    ensures
        ends_in(
            ". It settled where the steps it took would have left it had one of them been taken twice, so work was done twice, which is idempotency"@,
            ", which is idempotency"@,
        ),
{
    reveal_strlit(
        ". It settled where the steps it took would have left it had one of them been taken twice, so work was done twice, which is idempotency",
    );
    reveal_strlit(", which is idempotency");
    let text =
        ". It settled where the steps it took would have left it had one of them been taken twice, so work was done twice, which is idempotency"@;
    let tail = ", which is idempotency"@;
    assert(text.skip(text.len() - tail.len()) =~= tail);
}

proof fn lemma_convergence_said()
    ensures
        ends_in(
            ". It settled where the steps it took would have left it had one of them arrived after the rest, so the order it was told things in decided the outcome, which is convergence"@,
            ", which is convergence"@,
        ),
{
    reveal_strlit(
        ". It settled where the steps it took would have left it had one of them arrived after the rest, so the order it was told things in decided the outcome, which is convergence",
    );
    reveal_strlit(", which is convergence");
    let text =
        ". It settled where the steps it took would have left it had one of them arrived after the rest, so the order it was told things in decided the outcome, which is convergence"@;
    let tail = ", which is convergence"@;
    assert(text.skip(text.len() - tail.len()) =~= tail);
}

/// A failure's words and the invariant it names never part: where the fault could
/// have shown several, the words end in the one that broke, and where none can be
/// named they end in saying so. Where it could have shown only one, they say that
/// it is that one.
pub proof fn lemma_what_broke_is_told(
    fault: PlacedModel,
    went: Went,
    held: Literal,
    states: Seq<AdmissibleModel>,
    at: int,
)
    ensures
        ({
            let told = fault.told(went, held, states, at);
            let several = fault.could_show().len() > 1;
            &&& several && fault.broke(went, states) == Some(Invariant::Recovers) ==> ends_in(
                told,
                ", which is recovery"@,
            )
            &&& several && fault.broke(went, states) == Some(Invariant::Durable) ==> ends_in(
                told,
                ", which is durability"@,
            )
            &&& several && fault.broke(went, states) == Some(Invariant::Idempotent) ==> ends_in(
                told,
                ", which is idempotency"@,
            )
            &&& several && fault.broke(went, states) == Some(Invariant::Converges) ==> ends_in(
                told,
                ", which is convergence"@,
            )
            &&& fault.broke(went, states) is None ==> ends_in(
                told,
                " broke cannot be read from where it settled"@,
            )
            &&& !several ==> (fault.broke(went, states) matches Some(shown) && told
                == ". Breaking the fleet this way can show nothing but "@ + (match shown {
                Invariant::Idempotent => "idempotency"@,
                Invariant::Converges => "convergence"@,
                Invariant::Durable => "durability"@,
                Invariant::Recovers => "recovery"@,
            }) + ", so that is what broke"@)
        }),
{
    lemma_recovery_said();
    lemma_durability_said();
    lemma_idempotency_said();
    lemma_convergence_said();
    let shown = fault.could_show();
    if shown.len() > 1 {
        if fault.at is Throughout {
            assert(shown[1] == Invariant::Durable);
            assert(shown[2] == Invariant::Idempotent);
            assert(shown[3] == Invariant::Converges);
        } else {
            assert(shown[0] == Invariant::Durable);
            assert(shown[1] == Invariant::Idempotent);
            assert(shown[2] == Invariant::Converges);
        }
        let unsaid = " broke cannot be read from where it settled"@;
        if !fault.behind(went, states) && (went is Elsewhere || went is Unreadable) {
            let told = fault.told(went, held, states, at);
            let lead = parting(held, states, at) + (if went is Elsewhere {
                ". It settled where losing a step, taking one twice and taking one out of order would all have left it somewhere else, so which of "@
            } else {
                ". What the fleet would hold had it lost, repeated or resequenced a step cannot be worked out from what this run has, so which of "@
            }) + listed(shown);
            assert(told == lead + unsaid);
            lemma_ends_in(lead, unsaid);
        }
    }
}

/// A run that waits on reference runs nobody takes is inconclusive, and says which
/// sets of steps it waits on. Any other stands as it was judged.
pub proof fn lemma_settled_without_references(verdict: VerdictModel, steps: Seq<usize>)
    ensures
        VerdictModel::settled_on(JudgedModel::Now(verdict)) == verdict,
        VerdictModel::settled_on(JudgedModel::Pending(seq![steps])) == (VerdictModel::Inconclusive {
            reason: "the fleet may have accepted steps "@ + ("("@ + joined(step_spellings(steps), ", "@)
                + ")"@)
                + ", which no run has driven on their own, so where they leave it is unknown"@,
        }),
{
    let words = "("@ + joined(step_spellings(steps), ", "@) + ")"@;
    assert(super::reading::set_spellings(seq![steps]) =~= seq![words]);
    assert(joined(seq![words], " or "@) == words);
}

} // verus!
