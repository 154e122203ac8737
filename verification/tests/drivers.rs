//! What the invariant drivers make of a run.

use crucible::ipc::message::Verdict;
use crucible::plan;
use crucible::protocol::{
    At, Direction, FaultMissReason, FaultReport, FaultResult, Primitive,
};
use crucible::schema::CmpOp;
use crucible::verdict::drivers::{Durable, Idempotent, Recovers};
use crucible::verdict::reading::placement;
use crucible::verdict::{
    Ack, Baseline, Checkpoint, Observations, Observed, Outcome, StepWindow, Trajectory,
};

fn fired_fault() -> FaultReport {
    fired_fault_at(0)
}

/// A kill of `db` placed `at_ns` nanoseconds into the scenario.
fn fired_fault_at(at_ns: u128) -> FaultReport {
    FaultReport::fired(
        0,
        "db",
        Primitive::Kill,
        At::Moment {
            direction: Some(Direction::ClientToUpstream),
            mark: "publish:1:after".to_owned(),
            why: "a publish the broker has not confirmed".to_owned(),
            offset_ns: at_ns,
        },
        0,
    )
}

/// A kill of `db` that stood for the whole run.
fn fired_throughout() -> FaultReport {
    FaultReport::fired(0, "db", Primitive::Kill, At::Throughout, 0)
}

fn outcome(ack: Ack) -> Outcome {
    Outcome { ack }
}

/// A reading of `writes.count`.
fn reading(read: i64) -> Observed {
    Observed {
        check: plan::Check {
            service: "db".into(),
            observer: "mariadb".into(),
            observable: vec!["writes".into(), "count".into()],
            args: Vec::new(),
            filter: None,
            op: CmpOp::Eq,
            value: plan::Value::Int(read),
        },
        value: Some(plan::Value::Int(read)),
    }
}

/// One point of a run, where the scenario states a single check.
fn checkpoint(value: i64) -> Checkpoint {
    vec![Some(plan::Value::Int(value))]
}

/// A run whose fault fired, judged against a fault-free run that stood at
/// `fault_free` after each step, and that settled at `settled` once the
/// target was back.
fn judged(acks: &[Ack], fault_free: &[i64], settled: i64) -> Verdict {
    let mut obs = Observations::empty();
    obs.readings.fault = Some(fired_fault());
    obs.readings.outcomes = acks.iter().copied().map(outcome).collect();
    obs.readings.checks = vec![reading(settled)];
    obs.readings.fault_free =
        Baseline::unsettled(fault_free.iter().copied().map(checkpoint).collect());
    Durable.drive(&obs)
}

#[test]
fn drivers_a_run_that_observed_nothing_is_inconclusive() {
    assert!(matches!(
        Durable.drive(&Observations::empty()),
        Verdict::Inconclusive { .. }
    ));
}

#[test]
fn drivers_a_missed_fault_is_inconclusive() {
    let mut obs = Observations::empty();
    obs.readings.fault = Some(FaultReport {
        schedule_id: 0,
        service: "db".into(),
        result: FaultResult::Missed(
            FaultMissReason::ScenarioEndedBeforeAnchor,
        ),
    });
    obs.readings.checks = vec![reading(0)];
    assert!(matches!(Durable.drive(&obs), Verdict::Inconclusive { .. }));
}

#[test]
fn drivers_a_scenario_with_nothing_to_check_is_inconclusive() {
    let mut obs = Observations::empty();
    obs.readings.fault = Some(fired_fault());
    obs.readings.outcomes.push(outcome(Ack::Acked));
    assert!(matches!(Durable.drive(&obs), Verdict::Inconclusive { .. }));
}

#[test]
fn drivers_a_scenario_that_drove_nothing_is_not_a_test() {
    let mut obs = Observations::empty();
    obs.readings.fault = Some(fired_fault());
    obs.readings.checks = vec![reading(0)];
    assert!(matches!(Durable.drive(&obs), Verdict::Inconclusive { .. }));
}

#[test]
fn drivers_settling_where_the_fault_free_run_ended_is_pass() {
    assert_eq!(
        judged(&[Ack::Acked, Ack::Acked], &[0, 1, 2], 2),
        Verdict::Pass,
    );
}

#[test]
fn drivers_settling_anywhere_else_is_fail() {
    assert!(matches!(
        judged(&[Ack::Acked, Ack::Acked], &[0, 1, 2], 1),
        Verdict::Fail { .. },
    ));
}

/// The steps the fleet refused are steps it never owed anything for, so the
/// run answers to the checkpoint it got as far as.
#[test]
fn drivers_a_run_that_took_fewer_steps_answers_to_an_earlier_checkpoint() {
    assert_eq!(
        judged(&[Ack::Acked, Ack::Rejected], &[0, 1, 2], 1),
        Verdict::Pass,
    );
    assert!(matches!(
        judged(&[Ack::Acked, Ack::Rejected], &[0, 1, 2], 2),
        Verdict::Fail { .. },
    ));
}

#[test]
fn a_step_refused_while_a_later_one_landed_is_inconclusive() {
    assert!(matches!(
        judged(&[Ack::Rejected, Ack::Acked], &[0, 1, 2], 1),
        Verdict::Inconclusive { .. },
    ));
}

/// A lost ack leaves the fleet owing either what it would owe having taken
/// the step or what it would owe having refused it, so either is a pass.
#[test]
fn drivers_a_run_whose_ack_was_lost_answers_to_either_checkpoint() {
    assert_eq!(
        judged(&[Ack::Acked, Ack::Unknown], &[0, 1, 2], 1),
        Verdict::Pass,
    );
    assert_eq!(
        judged(&[Ack::Acked, Ack::Unknown], &[0, 1, 2], 2),
        Verdict::Pass,
    );
}

#[test]
fn drivers_a_run_whose_ack_was_lost_still_fails_where_neither_describes_it() {
    assert!(matches!(
        judged(&[Ack::Acked, Ack::Unknown], &[0, 1, 2], 7),
        Verdict::Fail { .. },
    ));
}

/// A step that landed after the one in doubt settles it: the doubt cannot be
/// resolved as "not landed" without leaving a gap no checkpoint describes.
#[test]
fn a_later_landed_step_settles_what_a_lost_ack_left_open() {
    assert_eq!(
        judged(&[Ack::Unknown, Ack::Acked], &[0, 1, 2], 2),
        Verdict::Pass,
    );
    assert!(matches!(
        judged(&[Ack::Unknown, Ack::Acked], &[0, 1, 2], 1),
        Verdict::Fail { .. },
    ));
}

/// Every step in doubt, so the fleet may have taken all of them or none.
#[test]
fn drivers_a_run_of_lost_acks_admits_every_checkpoint() {
    for settled in [0, 1, 2] {
        assert_eq!(
            judged(&[Ack::Unknown, Ack::Unknown], &[0, 1, 2], settled),
            Verdict::Pass,
            "settling at {settled}",
        );
    }
}

/// A refusal bounds the doubt: nothing after it can have landed, so a lost
/// ack that follows one cannot be read as landed.
#[test]
fn a_refusal_bounds_what_a_later_lost_ack_admits() {
    assert_eq!(
        judged(&[Ack::Acked, Ack::Rejected, Ack::Unknown], &[0, 1, 2, 3], 1),
        Verdict::Pass,
    );
    assert!(matches!(
        judged(&[Ack::Acked, Ack::Rejected, Ack::Unknown], &[0, 1, 2, 3], 2),
        Verdict::Fail { .. },
    ));
}

#[test]
fn drivers_a_fault_free_run_too_short_to_say_is_inconclusive() {
    assert!(matches!(
        judged(&[Ack::Acked, Ack::Acked], &[0, 1], 2),
        Verdict::Inconclusive { .. },
    ));
}

#[test]
fn drivers_a_lost_ack_whose_outcomes_have_no_checkpoint_is_inconclusive() {
    assert!(matches!(
        judged(&[Ack::Acked, Ack::Unknown], &[0], 1),
        Verdict::Inconclusive { .. },
    ));
}

/// The fault-free run could not read the state it is meant to be the
/// authority on, so there is nothing to hold this run to.
#[test]
fn drivers_an_unread_observable_is_inconclusive() {
    let mut obs = Observations::empty();
    obs.readings.fault = Some(fired_fault());
    obs.readings.outcomes = vec![outcome(Ack::Acked)];
    obs.readings.checks = vec![reading(1)];
    obs.readings.fault_free = Baseline::unsettled(vec![checkpoint(0), vec![None]]);
    assert!(matches!(Durable.drive(&obs), Verdict::Inconclusive { .. }));
}

/// Falling behind under the fault and catching up afterwards is a fleet
/// that recovered, so only where it settled counts.
#[test]
fn drivers_diverging_and_coming_back_is_pass() {
    let mut obs = Observations::empty();
    obs.readings.fault = Some(fired_fault());
    obs.readings.outcomes = vec![outcome(Ack::Acked), outcome(Ack::Acked)];
    obs.readings.checks = vec![reading(2)];
    obs.readings.trajectory = Trajectory::of(vec![checkpoint(0), checkpoint(0), checkpoint(2)]);
    obs.readings.fault_free = Baseline::unsettled(vec![checkpoint(0), checkpoint(1), checkpoint(2)]);
    assert_eq!(Durable.drive(&obs), Verdict::Pass);
}

#[test]
fn drivers_a_failure_points_at_the_step_the_run_first_differed_after() {
    let mut obs = Observations::empty();
    obs.readings.fault = Some(fired_fault());
    obs.readings.outcomes = vec![outcome(Ack::Acked), outcome(Ack::Acked)];
    obs.readings.checks = vec![reading(1)];
    obs.readings.trajectory = Trajectory::of(vec![checkpoint(0), checkpoint(1), checkpoint(1)]);
    obs.readings.fault_free = Baseline::unsettled(vec![checkpoint(0), checkpoint(1), checkpoint(2)]);
    let Verdict::Fail { reason, .. } = Durable.drive(&obs) else {
        panic!("settling short of the fault-free run is a failure");
    };
    assert!(reason.contains("after step 2"), "reason: {reason}");
}

/// Parting after the step being judged says nothing about why the run
/// failed, and reads as a contradiction beside the count of steps it took.
#[test]
fn drivers_a_failure_keeps_quiet_about_a_divergence_past_the_step_it_judged() {
    let mut obs = Observations::empty();
    obs.readings.fault = Some(fired_fault());
    obs.readings.outcomes = vec![outcome(Ack::Acked), outcome(Ack::Rejected)];
    obs.readings.checks = vec![reading(2)];
    obs.readings.trajectory = Trajectory::of(vec![checkpoint(0), checkpoint(1), checkpoint(5)]);
    obs.readings.fault_free = Baseline::unsettled(vec![checkpoint(0), checkpoint(1), checkpoint(2)]);
    let Verdict::Fail { reason, .. } = Durable.drive(&obs) else {
        panic!("holding 2 where 1 step landed is a failure");
    };
    assert!(!reason.contains("first differed"), "reason: {reason}");
}

#[test]
fn drivers_a_verdict_on_a_degraded_run_says_it_stood_throughout() {
    let mut obs = Observations::empty();
    obs.readings.fault = Some(fired_throughout());
    obs.readings.outcomes = vec![outcome(Ack::Acked), outcome(Ack::Acked)];
    obs.readings.checks = vec![reading(1)];
    obs.readings.fault_free = Baseline::unsettled(vec![checkpoint(0), checkpoint(1), checkpoint(2)]);
    obs.readings.windows = vec![window(0, 100), window(120, 200)];
    let Verdict::Fail { reason, .. } = Durable.drive(&obs) else {
        panic!("settling short of the fault-free run is a failure");
    };
    assert!(
        reason.starts_with("`db` was killed for the whole run."),
        "{reason}"
    );
}

#[test]
fn drivers_a_verdict_names_the_check_as_the_scenario_spells_it() {
    let mut filtered = reading(100);
    filtered.check.observable = vec!["stock".into(), "select".into()];
    filtered.check.args = vec![plan::Value::Ident("level".into())];
    filtered.check.filter = Some(("item".into(), plan::Value::Str("book".into())));
    let mut obs = Observations::empty();
    obs.readings.fault = Some(fired_fault());
    obs.readings.outcomes = vec![outcome(Ack::Acked)];
    obs.readings.checks = vec![filtered];
    obs.readings.fault_free = Baseline::unsettled(vec![checkpoint(100), checkpoint(96)]);
    let Verdict::Fail { reason, .. } = Durable.drive(&obs) else {
        panic!("settling somewhere the fault-free run never did is a failure");
    };
    assert!(
        reason.contains(r#"stock.select level where item = "book""#),
        "reason: {reason}"
    );
}

/// A verdict on its own says what moved, not what moved it, so it leads with
/// the fault and where in the scenario it landed.
#[test]
fn drivers_a_verdict_names_the_fault_that_caused_it() {
    let mut obs = Observations::empty();
    obs.readings.fault = Some(fired_fault_at(150));
    obs.readings.outcomes = vec![outcome(Ack::Acked), outcome(Ack::Acked)];
    obs.readings.checks = vec![reading(1)];
    obs.readings.fault_free = Baseline::unsettled(vec![checkpoint(0), checkpoint(1), checkpoint(2)]);
    obs.readings.windows = vec![window(0, 100), window(120, 200)];
    let Verdict::Fail { reason, .. } = Durable.drive(&obs) else {
        panic!("settling short of the fault-free run is a failure");
    };
    assert!(
        reason.starts_with(
            "`db` was killed during step 2, on a publish the broker has not confirmed."
        ),
        "{reason}"
    );
}

fn window(start_ns: u128, end_ns: u128) -> StepWindow {
    StepWindow { start_ns, end_ns }
}

#[test]
fn drivers_a_fault_is_placed_against_the_step_that_was_in_flight() {
    let windows = [window(10, 100), window(120, 200)];
    for (at_ns, placed) in [
        (5, "before step 1"),
        (10, "during step 1"),
        (100, "during step 1"),
        (110, "between steps 1 and 2"),
        (150, "during step 2"),
        (900, "after step 2"),
    ] {
        assert_eq!(placement(&windows, at_ns), placed, "at {at_ns}ns");
    }
}

#[test]
fn drivers_a_fault_with_no_steps_to_place_it_against_says_so() {
    assert!(placement(&[], 150).contains("unknown"));
}

#[test]
fn recovery_and_idempotency_read_a_run_as_durability_does() {
    let mut obs = Observations::empty();
    obs.readings.fault = Some(fired_fault());
    obs.readings.outcomes = vec![outcome(Ack::Acked), outcome(Ack::Acked)];
    obs.readings.checks = vec![reading(1)];
    obs.readings.fault_free =
        Baseline::unsettled(vec![checkpoint(0), checkpoint(1), checkpoint(2)]);
    let verdict = Durable.drive(&obs);
    assert!(matches!(verdict, Verdict::Fail { .. }));
    assert_eq!(Recovers.drive(&obs), verdict);
    assert_eq!(Idempotent.drive(&obs), verdict);
}
