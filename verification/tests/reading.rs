//! Where a run settled, judged against what it owed.

use crucible::ipc::message::Verdict;
use crucible::plan;
use crucible::protocol::{
    At, Direction, FaultMissReason, FaultReport, FaultResult, Primitive,
};
use crucible::schema::CmpOp;
use crucible::verdict::reading::{placement, ran};
use crucible::verdict::{
    clone_checkpoint, Ack, Baseline, Checkpoint, Invariant, Judged, Observed, Outcome, Readings,
    References, StepWindow, Trajectory,
};

/// A run that stood at each of `points`, settling where it stopped.
fn unsettled(points: impl IntoIterator<Item = Checkpoint>) -> Baseline {
    Baseline::unsettled(points.into_iter().collect())
}

/// What was found by runs of exactly those steps.
fn references(found: impl IntoIterator<Item = (Vec<usize>, Baseline)>) -> References {
    let mut references = References::new();
    for (landed, baseline) in found {
        references.insert(landed, baseline);
    }
    references
}

fn fired_fault() -> FaultReport {
    fired_fault_at(0)
}

/// A kill of `db` placed `at_ns` nanoseconds into the scenario.
fn fired_fault_at(at_ns: u128) -> FaultReport {
    placed(Primitive::Kill, at_ns)
}

/// A fault that broke the fleet by `how`, placed `at_ns` nanoseconds into
/// the scenario.
fn placed(how: Primitive, at_ns: u128) -> FaultReport {
    FaultReport::fired(
        0,
        "db",
        how,
        At::Moment {
            direction: Some(Direction::ClientToUpstream),
            mark: "publish:1:after".to_owned(),
            why: "a publish the broker has not confirmed".to_owned(),
            offset_ns: at_ns,
        },
        0,
    )
}

/// A kill of `db` that stood for the whole run.
fn fired_throughout() -> FaultReport {
    FaultReport::fired(0, "db", Primitive::Kill, At::Throughout, 0)
}

fn outcome(ack: Ack) -> Outcome {
    Outcome { ack }
}

/// A reading of `writes.count`.
fn reading(read: i64) -> Observed {
    Observed {
        check: plan::Check {
            service: "db".into(),
            observer: "mariadb".into(),
            observable: vec!["writes".into(), "count".into()],
            args: Vec::new(),
            filter: None,
            op: CmpOp::Eq,
            value: plan::Value::Int(read),
        },
        value: Some(plan::Value::Int(read)),
    }
}

/// One point of a run, where the scenario states a single check.
fn checkpoint(value: i64) -> Checkpoint {
    vec![Some(plan::Value::Int(value))]
}

/// A run broken by `fault` that acknowledged `acks` and settled at
/// `settled`, read against a fault-free run standing at `fault_free`.
fn run_of(fault: FaultReport, acks: &[Ack], fault_free: &[i64], settled: i64) -> Readings {
    let mut obs = Readings::empty();
    obs.fault = Some(fault);
    obs.outcomes = acks.iter().copied().map(outcome).collect();
    obs.checks = vec![reading(settled)];
    obs.fault_free = unsettled(fault_free.iter().copied().map(checkpoint));
    obs
}

/// A reference run that settled at `at`, with no trail.
fn settling(at: i64) -> Baseline {
    Baseline {
        trail: Trajectory::default(),
        settled: checkpoint(at),
    }
}

/// A reference run that stood at each of `trail`, settling where it
/// stopped.
fn trailing(trail: &[i64]) -> Baseline {
    let trail = Trajectory::of(trail.iter().copied().map(checkpoint).collect());
    let settled = clone_checkpoint(trail.settled().expect("a trail"));
    Baseline { trail, settled }
}

/// A run whose fault fired, judged with no reference runs to hand.
fn judged(acks: &[Ack], fault_free: &[i64], settled: i64) -> Verdict {
    broken_by(fired_fault(), acks, fault_free, settled)
}

/// A run whose fleet was broken by `fault`, judged the same way.
fn broken_by(fault: FaultReport, acks: &[Ack], fault_free: &[i64], settled: i64) -> Verdict {
    run_of(fault, acks, fault_free, settled).verdict()
}

/// The same run, judged with a reference run for each of `references`.
fn judged_given(
    acks: &[Ack],
    fault_free: &[i64],
    settled: i64,
    references: &[(&[usize], i64)],
) -> Verdict {
    let references = crate::references(
        references
            .iter()
            .map(|(landed, at)| (landed.to_vec(), settling(*at))),
    );
    match run_of(fired_fault(), acks, fault_free, settled).judge(&references) {
        Judged::Now(verdict) => verdict,
        Judged::Pending(sets) => panic!("expected a verdict, wants references for {sets:?}"),
    }
}

/// The landed sets a run cannot be judged without.
fn wants(acks: &[Ack], fault_free: &[i64], settled: i64) -> Vec<Vec<usize>> {
    match run_of(fired_fault(), acks, fault_free, settled).judge(&References::new()) {
        Judged::Pending(sets) => sets,
        Judged::Now(reached) => panic!("expected pending, got {reached:?}"),
    }
}

/// A reading of `zone.address`, which a step sets outright rather than
/// moving.
fn address(read: &str) -> Observed {
    Observed {
        check: plan::Check {
            service: "pdns".into(),
            observer: "http".into(),
            observable: vec!["zone".into(), "address".into()],
            args: Vec::new(),
            filter: None,
            op: CmpOp::Eq,
            value: plan::Value::Str(read.to_owned()),
        },
        value: Some(plan::Value::Str(read.to_owned())),
    }
}

/// A run whose scenario states both a count every step moves and a reading
/// every step sets.
fn ordered(
    fault: FaultReport,
    acks: &[Ack],
    fault_free: &[(i64, &str)],
    settled: (i64, &str),
) -> Verdict {
    let mut obs = Readings::empty();
    obs.fault = Some(fault);
    obs.outcomes = acks.iter().copied().map(outcome).collect();
    obs.checks = vec![reading(settled.0), address(settled.1)];
    obs.fault_free = unsettled(fault_free.iter().map(|(count, address)| {
        vec![
            Some(plan::Value::Int(*count)),
            Some(plan::Value::Str((*address).to_owned())),
        ]
    }));
    obs.verdict()
}

/// What a failing run says broke, and why.
fn showed(verdict: Verdict) -> (Option<Invariant>, String) {
    match verdict {
        Verdict::Fail { broke: invariant, reason } => (invariant, reason),
        other => panic!("expected a failure, got {other:?}"),
    }
}

/// A fault can leave the fleet with no row to answer from.
#[test]
fn a_check_the_fleet_cannot_answer_is_not_a_failure() {
    let mut obs = Readings::empty();
    obs.fault = Some(fired_throughout());
    obs.outcomes = vec![outcome(Ack::Acked)];
    obs.checks = vec![Observed {
        value: None,
        ..reading(3)
    }];
    obs.fault_free = unsettled(vec![checkpoint(0), checkpoint(3)]);
    assert!(
        matches!(obs.verdict(), Verdict::Inconclusive { .. }),
        "{:?}",
        obs.verdict()
    );
}

#[test]
fn reading_a_run_that_observed_nothing_is_inconclusive() {
    assert!(matches!(
        Readings::empty().verdict(),
        Verdict::Inconclusive { .. }
    ));
}

#[test]
fn reading_a_missed_fault_is_inconclusive() {
    let mut obs = Readings::empty();
    obs.fault = Some(FaultReport {
        schedule_id: 0,
        service: "db".into(),
        result: FaultResult::Missed(
            FaultMissReason::ScenarioEndedBeforeAnchor,
        ),
    });
    obs.checks = vec![reading(0)];
    assert!(matches!(obs.verdict(), Verdict::Inconclusive { .. }));
}

#[test]
fn reading_a_scenario_with_nothing_to_check_is_inconclusive() {
    let mut obs = Readings::empty();
    obs.fault = Some(fired_fault());
    obs.outcomes.push(outcome(Ack::Acked));
    assert!(matches!(obs.verdict(), Verdict::Inconclusive { .. }));
}

#[test]
fn reading_a_scenario_that_drove_nothing_is_not_a_test() {
    let mut obs = Readings::empty();
    obs.fault = Some(fired_fault());
    obs.checks = vec![reading(0)];
    assert!(matches!(obs.verdict(), Verdict::Inconclusive { .. }));
}

#[test]
fn reading_settling_where_the_fault_free_run_ended_is_pass() {
    assert_eq!(
        judged(&[Ack::Acked, Ack::Acked], &[0, 1, 2], 2),
        Verdict::Pass,
    );
}

#[test]
fn reading_settling_anywhere_else_is_fail() {
    assert!(matches!(
        judged(&[Ack::Acked, Ack::Acked], &[0, 1, 2], 1),
        Verdict::Fail { .. },
    ));
}

#[test]
fn reading_a_run_that_took_fewer_steps_answers_to_an_earlier_checkpoint() {
    assert_eq!(
        judged(&[Ack::Acked, Ack::Rejected], &[0, 1, 2], 1),
        Verdict::Pass,
    );
    assert!(matches!(
        judged(&[Ack::Acked, Ack::Rejected], &[0, 1, 2], 2),
        Verdict::Fail { .. },
    ));
}

/// A refusal in the middle leaves the fleet somewhere the fault-free run
/// never stood.
#[test]
fn a_step_refused_while_a_later_one_landed_needs_a_run_of_its_own() {
    assert_eq!(wants(&[Ack::Rejected, Ack::Acked], &[0, 1, 2], 1), [[2]]);
}

#[test]
fn a_step_refused_while_a_later_one_landed_answers_to_its_reference() {
    assert_eq!(
        judged_given(&[Ack::Rejected, Ack::Acked], &[0, 1, 2], 1, &[(&[2], 1)]),
        Verdict::Pass,
    );
    assert!(matches!(
        judged_given(&[Ack::Rejected, Ack::Acked], &[0, 1, 2], 2, &[(&[2], 1)]),
        Verdict::Fail { .. },
    ));
}

/// A lost ack leaves the fleet owing either answer, so either is a pass.
#[test]
fn reading_a_run_whose_ack_was_lost_answers_to_either_checkpoint() {
    assert_eq!(
        judged(&[Ack::Acked, Ack::Unknown], &[0, 1, 2], 1),
        Verdict::Pass,
    );
    assert_eq!(
        judged(&[Ack::Acked, Ack::Unknown], &[0, 1, 2], 2),
        Verdict::Pass,
    );
}

#[test]
fn reading_a_run_whose_ack_was_lost_still_fails_where_neither_describes_it() {
    assert!(matches!(
        judged(&[Ack::Acked, Ack::Unknown], &[0, 1, 2], 7),
        Verdict::Fail { .. },
    ));
}

/// Either answer to the doubt describes a state the fleet could be in.
#[test]
fn a_later_landed_step_leaves_a_lost_ack_open() {
    for settled in [1, 2] {
        assert_eq!(
            judged_given(
                &[Ack::Unknown, Ack::Acked],
                &[0, 1, 2],
                settled,
                &[(&[2], 1)]
            ),
            Verdict::Pass,
            "settling at {settled}",
        );
    }
    assert!(matches!(
        judged_given(&[Ack::Unknown, Ack::Acked], &[0, 1, 2], 0, &[(&[2], 1)]),
        Verdict::Fail { .. },
    ));
}

/// Every step in doubt, so the fleet may have taken all of them or none.
#[test]
fn reading_a_run_of_lost_acks_admits_every_checkpoint() {
    for settled in [0, 1, 2] {
        assert_eq!(
            judged_given(
                &[Ack::Unknown, Ack::Unknown],
                &[0, 1, 2],
                settled,
                &[(&[2], 1)]
            ),
            Verdict::Pass,
            "settling at {settled}",
        );
    }
}

/// The fleet turning one step away says nothing about whether it took the
/// next.
#[test]
fn a_refusal_does_not_bound_what_a_later_lost_ack_admits() {
    let acks = [Ack::Acked, Ack::Rejected, Ack::Unknown];
    let reference: &[(&[usize], i64)] = &[(&[1, 3], 2)];
    for settled in [1, 2] {
        assert_eq!(
            judged_given(&acks, &[0, 1, 2, 3], settled, reference),
            Verdict::Pass,
            "settling at {settled}",
        );
    }
    assert!(matches!(
        judged_given(&acks, &[0, 1, 2, 3], 3, reference),
        Verdict::Fail { .. },
    ));
}

#[test]
fn reading_a_fault_free_run_too_short_to_say_is_inconclusive() {
    assert!(matches!(
        judged(&[Ack::Acked, Ack::Acked], &[0, 1], 2),
        Verdict::Inconclusive { .. },
    ));
}

#[test]
fn reading_a_lost_ack_whose_outcomes_have_no_checkpoint_is_inconclusive() {
    assert!(matches!(
        judged(&[Ack::Acked, Ack::Unknown], &[0], 1),
        Verdict::Inconclusive { .. },
    ));
}

/// The scenario asks after order 1 and the run refused every step, so
/// neither the fleet nor its baseline holds one.
#[test]
fn a_check_neither_run_can_answer_is_agreement() {
    let mut obs = Readings::empty();
    obs.fault = Some(fired_throughout());
    obs.outcomes = vec![outcome(Ack::Rejected), outcome(Ack::Rejected)];
    obs.checks = vec![Observed {
        value: None,
        ..reading(0)
    }];
    obs.fault_free = unsettled(vec![vec![None], checkpoint(1), checkpoint(2)]);
    assert_eq!(obs.verdict(), Verdict::Pass);
}

/// The fault-free run could not read the state it is the authority on.
#[test]
fn reading_an_unread_observable_is_inconclusive() {
    let mut obs = Readings::empty();
    obs.fault = Some(fired_fault());
    obs.outcomes = vec![outcome(Ack::Acked)];
    obs.checks = vec![reading(1)];
    obs.fault_free = unsettled(vec![checkpoint(0), vec![None]]);
    assert!(matches!(obs.verdict(), Verdict::Inconclusive { .. }));
}

/// Falling behind under the fault and catching up afterwards is a fleet
/// that recovered.
#[test]
fn reading_diverging_and_coming_back_is_pass() {
    let mut obs = Readings::empty();
    obs.fault = Some(fired_fault());
    obs.outcomes = vec![outcome(Ack::Acked), outcome(Ack::Acked)];
    obs.checks = vec![reading(2)];
    obs.trajectory = Trajectory::of(vec![checkpoint(0), checkpoint(0), checkpoint(2)]);
    obs.fault_free = unsettled(vec![checkpoint(0), checkpoint(1), checkpoint(2)]);
    assert_eq!(obs.verdict(), Verdict::Pass);
}

#[test]
fn reading_a_failure_points_at_the_step_the_run_first_differed_after() {
    let mut obs = Readings::empty();
    obs.fault = Some(fired_fault());
    obs.outcomes = vec![outcome(Ack::Acked), outcome(Ack::Acked)];
    obs.checks = vec![reading(1)];
    obs.trajectory = Trajectory::of(vec![checkpoint(0), checkpoint(1), checkpoint(1)]);
    obs.fault_free = unsettled(vec![checkpoint(0), checkpoint(1), checkpoint(2)]);
    let Verdict::Fail { reason, .. } = obs.verdict() else {
        panic!("settling short of the fault-free run is a failure");
    };
    assert!(reason.contains("after step 2"), "reason: {reason}");
}

/// Parting after the step being judged says nothing about why the run
/// failed.
#[test]
fn reading_a_failure_keeps_quiet_about_a_divergence_past_the_step_it_judged() {
    let mut obs = Readings::empty();
    obs.fault = Some(fired_fault());
    obs.outcomes = vec![outcome(Ack::Acked), outcome(Ack::Rejected)];
    obs.checks = vec![reading(2)];
    obs.trajectory = Trajectory::of(vec![checkpoint(0), checkpoint(1), checkpoint(5)]);
    obs.fault_free = unsettled(vec![checkpoint(0), checkpoint(1), checkpoint(2)]);
    let Verdict::Fail { reason, .. } = obs.verdict() else {
        panic!("holding 2 where 1 step landed is a failure");
    };
    assert!(!reason.contains("first differed"), "reason: {reason}");
}

/// Nothing about killing a service says the work was done twice. The run
/// does.
#[test]
fn a_fleet_that_did_a_step_twice_broke_idempotency() {
    let (broke, reason) = showed(judged(&[Ack::Acked, Ack::Acked], &[0, 1, 2], 3));
    assert_eq!(broke, Some(Invariant::Idempotent));
    assert!(reason.contains("work was done twice"), "{reason}");
}

#[test]
fn a_fleet_that_dropped_a_step_broke_durability() {
    let (broke, reason) = showed(judged(&[Ack::Acked, Ack::Acked], &[0, 1, 2], 1));
    assert_eq!(broke, Some(Invariant::Durable));
    assert!(reason.contains("work was lost"), "{reason}");
}

/// A reading of `stock.level` for pens, which a step sets rather than adds
/// to.
fn pens(read: i64) -> Observed {
    Observed {
        check: plan::Check {
            observable: vec!["stock".into(), "select".into()],
            ..reading(read).check
        },
        value: Some(plan::Value::Int(read)),
    }
}

/// The fleet wrote down every order and acted on all but one. The count is
/// short while the reading the lost step would have set is untouched.
#[test]
fn work_lost_from_the_middle_of_a_run_is_still_lost() {
    let mut obs = Readings::empty();
    obs.fault = Some(placed(Primitive::Kill, 0));
    obs.outcomes = [Ack::Acked; 5].into_iter().map(outcome).collect();
    // Five events owed, four applied, and the pens the lost one carried are
    // still on the shelf.
    obs.checks = vec![reading(4), pens(500)];
    obs.fault_free = unsettled(
        [(0, 500), (1, 500), (2, 490), (3, 490), (4, 490), (5, 490)]
            .into_iter()
            .map(|(applied, pens)| {
                vec![
                    Some(plan::Value::Int(applied)),
                    Some(plan::Value::Int(pens)),
                ]
            }),
    );

    // Not where any shorter run of the steps ends. Every one of those has
    // the pens gone.
    for n in 0..=4 {
        assert_ne!(
            obs.fault_free.at(n).map(Vec::as_slice),
            Some(&[Some(plan::Value::Int(4)), Some(plan::Value::Int(500))][..]),
            "checkpoint {n}",
        );
    }
    let (broke, why) = showed(obs.verdict());
    assert_eq!(broke, Some(Invariant::Durable));
    assert!(why.contains("work was lost"), "{why}");
}

/// A fleet can keep what it refused and lose what it accepted in the same
/// run. The reading they first disagree on is then the surplus, not the
/// shortfall.
#[test]
fn a_loss_is_quoted_from_the_reading_that_fell_short() {
    let mut obs = Readings::empty();
    obs.fault = Some(placed(Primitive::Kill, 0));
    // One step accepted, the rest refused.
    obs.outcomes = [Ack::Acked, Ack::Rejected, Ack::Rejected]
        .into_iter()
        .map(outcome)
        .collect();
    // Three orders written down where one was owed, and none of them acted
    // on where one was owed.
    let mut kept = reading(3);
    kept.check.observable = vec!["orders".into(), "count".into()];
    obs.checks = vec![kept, reading(0)];
    obs.fault_free = unsettled([(0, 0), (1, 1), (2, 2), (3, 3)].into_iter().map(
        |(orders, applied)| {
            vec![
                Some(plan::Value::Int(orders)),
                Some(plan::Value::Int(applied)),
            ]
        },
    ));

    let (broke, why) = showed(obs.verdict());
    assert_eq!(broke, Some(Invariant::Durable));
    assert!(why.contains("`writes.count` at `0`"), "{why}");
    assert!(!why.contains("orders.count"), "{why}");
}

/// The run that drove a set of steps stood at every shorter run of them on
/// the way.
#[test]
fn a_reference_says_where_stopping_short_of_its_steps_leaves_the_fleet() {
    // Step 1 refused, 2 and 3 taken, so the fleet accepted (2, 3).
    let obs = run_of(
        fired_fault(),
        &[Ack::Rejected, Ack::Acked, Ack::Acked],
        &[0, 1, 2, 3],
        1,
    );
    // That run moved the count to 1 and then to 3. The fleet settled at 1,
    // which is where it would have stopped having taken only the first.
    let references = references([(vec![2, 3], trailing(&[0, 1, 3]))]);

    let (broke, why) = showed(match obs.judge(&references) {
        Judged::Now(verdict) => verdict,
        Judged::Pending(sets) => panic!("wants references for {sets:?}"),
    });
    assert_eq!(broke, Some(Invariant::Durable));
    assert!(why.contains("work was lost"), "{why}");
}

/// Setting a reading twice sets it to the same thing, so what it held
/// before does not matter.
#[test]
fn a_step_that_creates_a_reading_can_still_be_asked_what_twice_would_leave() {
    let mut obs = Readings::empty();
    obs.fault = Some(fired_fault());
    obs.outcomes = vec![outcome(Ack::Acked), outcome(Ack::Acked)];
    // A count, and a value the first step brings into being.
    obs.checks = vec![
        reading(3),
        Observed {
            check: plan::Check {
                observable: vec!["orders".into(), "select".into()],
                ..reading(0).check
            },
            value: Some(plan::Value::Int(7)),
        },
    ];
    obs.fault_free =
        unsettled([(0, None), (1, Some(7)), (2, Some(7))].into_iter().map(
            |(count, set)| vec![Some(plan::Value::Int(count)), set.map(plan::Value::Int)],
        ));

    // Two steps owed two, and the fleet has three. The reading the first
    // step created was unread before it, and that no longer stops the
    // count being read.
    let (broke, why) = showed(obs.verdict());
    assert_eq!(broke, Some(Invariant::Idempotent));
    assert!(why.contains("work was done twice"), "{why}");
}

/// Both runs agreeing there is nothing there is a reading, so the other
/// checks still answer.
#[test]
fn a_reading_no_run_could_take_leaves_the_others_answerable() {
    let absent = |applied: i64| vec![Some(plan::Value::Int(applied)), None];
    let mut obs = Readings::empty();
    obs.fault = Some(fired_fault());
    obs.outcomes = vec![outcome(Ack::Acked), outcome(Ack::Acked)];
    // A count the fleet keeps, and a row no run in this world creates.
    obs.checks = vec![
        reading(3),
        Observed {
            check: plan::Check {
                observable: vec!["orders".into(), "select".into()],
                ..reading(0).check
            },
            value: None,
        },
    ];
    obs.fault_free = unsettled([0, 1, 2].into_iter().map(absent));

    // Three where two were owed, which is one of them applied twice, and
    // the unread column no longer stops that being said.
    let (broke, why) = showed(obs.verdict());
    assert_eq!(broke, Some(Invariant::Idempotent));
    assert!(why.contains("work was done twice"), "{why}");
}

/// The fault-free run cannot say, since it only ever took step 3 after
/// step 2.
#[test]
fn a_reference_says_what_one_of_its_own_steps_would_leave_taken_twice() {
    // Step 2 refused, steps 1 and 3 taken, so the fleet accepted (1, 3).
    let obs = run_of(
        fired_fault(),
        &[Ack::Acked, Ack::Rejected, Ack::Acked],
        &[0, 1, 2, 3],
        5,
    );
    // A run of just those two moved the count by one and then by two, and
    // settled at three. Applying the second of them twice reaches five.
    let references = references([(vec![1, 3], trailing(&[0, 1, 3]))]);

    let (broke, why) = showed(match obs.judge(&references) {
        Judged::Now(verdict) => verdict,
        Judged::Pending(sets) => panic!("wants references for {sets:?}"),
    });
    assert_eq!(broke, Some(Invariant::Idempotent));
    assert!(why.contains("work was done twice"), "{why}");
}

#[test]
fn without_one_the_same_run_names_nothing() {
    let obs = run_of(
        fired_fault(),
        &[Ack::Acked, Ack::Rejected, Ack::Acked],
        &[0, 1, 2, 3],
        5,
    );
    let (broke, _) = showed(
        match obs.judge(&references([(vec![1, 3], settling(3))])) {
            Judged::Now(verdict) => verdict,
            Judged::Pending(sets) => panic!("wants references for {sets:?}"),
        },
    );
    assert_eq!(broke, None);
}

/// The verdict for a way that was asked and ruled out is worded
/// differently from one for a way that could not be asked.
#[test]
fn a_run_that_ruled_every_way_out_says_so() {
    // Every step acknowledged, so the only state the run admits is the
    // whole scenario, and every way of leaving it is a prefix away.
    let (broke, why) = showed(judged(&[Ack::Acked, Ack::Acked], &[0, 1, 2], 7));
    assert_eq!(broke, None);
    assert!(
        why.contains("would all have left it somewhere else"),
        "{why}"
    );
}

/// Settling between two admissible readings is neither losing a step nor
/// taking one twice.
#[test]
fn settling_where_nothing_describes_it_names_no_invariant() {
    let (broke, reason) = showed(judged_given(
        &[Ack::Unknown, Ack::Unknown],
        &[0, 5, 10],
        7,
        &[(&[2], 5)],
    ));
    assert_eq!(broke, None);
    assert!(
        reason.contains("cannot be read from where it settled"),
        "{reason}"
    );
}

#[test]
fn an_unattributed_failure_says_what_it_could_have_been() {
    let (_, reason) = showed(judged_given(
        &[Ack::Unknown, Ack::Unknown],
        &[0, 5, 10],
        7,
        &[(&[2], 5)],
    ));
    assert!(
        reason.contains("which of durability, idempotency or convergence broke"),
        "{reason}"
    );
}

/// Making a message arrive twice asks one question, so the settled state
/// has nothing to add.
#[test]
fn a_redelivery_can_show_nothing_but_idempotency() {
    let (broke, reason) = showed(broken_by(
        placed(Primitive::Redeliver, 0),
        &[Ack::Acked, Ack::Acked],
        &[0, 1, 2],
        7,
    ));
    assert_eq!(broke, Some(Invariant::Idempotent));
    assert!(
        reason.contains("can show nothing but idempotency"),
        "{reason}"
    );
}

#[test]
fn a_reorder_can_show_nothing_but_convergence() {
    let (broke, _) = showed(broken_by(
        placed(Primitive::Reorder, 0),
        &[Ack::Acked, Ack::Acked],
        &[0, 1, 2],
        1,
    ));
    assert_eq!(broke, Some(Invariant::Converges));
}

/// The count says all three landed, so nothing was lost, and the reading
/// each step sets says the second landed last.
#[test]
fn a_fleet_holding_every_step_in_the_wrong_order_shows_convergence() {
    let (broke, why) = showed(ordered(
        placed(Primitive::Kill, 0),
        &[Ack::Acked, Ack::Acked, Ack::Acked],
        &[(0, "none"), (1, "one"), (2, "two"), (3, "three")],
        (3, "two"),
    ));
    assert_eq!(broke, Some(Invariant::Converges));
    assert!(why.contains("arrived after the rest"), "{why}");
}

/// A count reaches the same total whichever order its steps arrive in.
#[test]
fn counts_alone_cannot_show_an_order() {
    assert_eq!(
        broken_by(
            placed(Primitive::Reorder, 0),
            &[Ack::Acked; 3],
            &[0, 1, 2, 3],
            3
        ),
        Verdict::Pass,
    );
}

/// Where every step sets the same reading, losing the last step and
/// holding it back leave the fleet in the same place.
#[test]
fn without_a_count_a_held_back_step_reads_as_a_lost_one() {
    let (broke, _) = showed(ordered(
        placed(Primitive::Kill, 0),
        &[Ack::Acked, Ack::Acked, Ack::Acked],
        &[(1, "none"), (1, "one"), (1, "two"), (1, "three")],
        (1, "two"),
    ));
    assert_eq!(broke, Some(Invariant::Durable));
}

/// Holding a run to the step boundary instead of the settled reading makes
/// it look like it did the work twice.
#[test]
fn a_run_answers_to_where_the_fault_free_run_settled_not_where_it_stepped() {
    let mut obs = Readings::empty();
    obs.fault = Some(fired_fault());
    obs.outcomes = vec![outcome(Ack::Acked), outcome(Ack::Acked)];
    obs.checks = vec![reading(2)];
    // The fault-free run was at 1 when its last step ended, and at 2 once
    // the fleet had finished with it.
    obs.fault_free = Baseline {
        trail: Trajectory::of([0, 1, 1].into_iter().map(checkpoint).collect()),
        settled: checkpoint(2),
    };

    assert_eq!(obs.verdict(), Verdict::Pass);
}

/// A prefix is a run the fault-free run recorded the end of, so it is read
/// off by index.
#[test]
fn a_prefix_is_read_off_and_anything_else_is_a_reference() {
    // A fault-free run whose settled reading waited longer than its last
    // trail point, which is what every run answers to.
    let fault_free = Baseline {
        trail: Trajectory::of([0, 5, 9, 14].into_iter().map(checkpoint).collect()),
        settled: checkpoint(15),
    };
    let references = references([(vec![2, 3], settling(9))]);

    for n in 0..3 {
        let prefix: Vec<usize> = (1..=n).collect();
        assert_eq!(
            ran(&fault_free, &references, &prefix).map(|(settled, ..)| settled),
            fault_free.trail.at(n),
            "the first {n} steps",
        );
    }
    // Every step, so the settled reading rather than the trail point.
    assert_eq!(
        ran(&fault_free, &references, &[1, 2, 3]).map(|(settled, ..)| settled),
        Some(&checkpoint(15)),
    );
    assert_eq!(
        ran(&fault_free, &references, &[2, 3]).map(|(settled, ..)| settled),
        Some(&checkpoint(9)),
    );
    assert!(ran(&fault_free, &References::new(), &[2, 3]).is_none());
}

/// A reading the observer calls a value may be a count, and where the
/// third step left it depends on having had the second.
#[test]
fn a_reading_worked_out_from_steps_that_did_not_land_is_not_taken() {
    let mut obs = Readings::empty();
    obs.fault = Some(fired_fault());
    obs.outcomes = [Ack::Unknown, Ack::Acked, Ack::Acked, Ack::Acked, Ack::Acked]
        .into_iter()
        .map(outcome)
        .collect();
    // The API's own store read over HTTP, which the observer calls a value
    // because it cannot know the field is a count, and the consumer's rows,
    // which it knows are.
    obs.checks = vec![
        Observed {
            check: plan::Check { ..reading(3).check },
            value: Some(plan::Value::Int(3)),
        },
        reading(2),
    ];
    obs.fault_free = unsettled(
        [0, 1, 2, 3, 3, 3]
            .into_iter()
            .map(|n| vec![Some(plan::Value::Int(n)), Some(plan::Value::Int(n))]),
    );

    // Steps 2 to 5 landed and step 1 is in doubt. Taking the fault-free
    // run's third checkpoint for the first reading would say 3, matching a
    // fleet whose two halves disagree, and the run would pass.
    assert_eq!(
        obs.judge(&References::new()),
        Judged::Pending(vec![vec![2, 3, 4, 5]])
    );

    // A run that drove only those four steps says the API should hold 2,
    // and holding 3 is the fleet keeping what it never acknowledged.
    let references = references([(
        vec![2, 3, 4, 5],
        Baseline {
            trail: Trajectory::default(),
            settled: vec![Some(plan::Value::Int(2)), Some(plan::Value::Int(2))],
        },
    )]);
    assert!(matches!(
        obs.judge(&references),
        Judged::Now(Verdict::Fail { .. })
    ));
}

/// A reading of `zone.sequence`, which each step sets rather than adds to.
fn sequence(read: i64) -> Observed {
    Observed {
        check: plan::Check {
            service: "pdns".into(),
            observer: "http".into(),
            observable: vec!["zone".into(), "sequence".into()],
            args: Vec::new(),
            filter: None,
            op: CmpOp::Eq,
            value: plan::Value::Int(read),
        },
        value: Some(plan::Value::Int(read)),
    }
}

/// A reading the steps overwrite ends where the last of them left it, so
/// the order they arrived in decides it. One they add to reaches the same
/// total either way. Both are integers; how each moved through the
/// fault-free run is what tells them apart.
#[test]
fn a_number_a_step_sets_is_not_read_as_a_count() {
    let mut obs = Readings::empty();
    obs.fault = Some(placed(Primitive::Kill, 0));
    obs.outcomes = vec![
        outcome(Ack::Acked),
        outcome(Ack::Acked),
        outcome(Ack::Acked),
    ];
    // The count is where three steps leave it. The overwritten reading is
    // where step 2 left it, which is where step 3 arriving first would.
    obs.checks = vec![reading(3), sequence(2)];
    let written = [0, 6, 2, 9];
    obs.fault_free = unsettled((0..=3).map(|n| {
        vec![
            Some(plan::Value::Int(n)),
            Some(plan::Value::Int(
                written[usize::try_from(n).expect("small")],
            )),
        ]
    }));

    let (broke, why) = showed(obs.verdict());
    assert_eq!(broke, Some(Invariant::Converges));
    assert!(why.contains("arrived after the rest"), "{why}");
}

/// A reading that only ever climbs is a total the fleet adds to, so holding
/// less of it than any state the run admits is work lost.
#[test]
fn a_reading_that_only_climbs_is_read_as_something_the_fleet_accumulates() {
    let run = run_of(
        fired_fault(),
        &[Ack::Acked, Ack::Acked, Ack::Acked],
        &[0, 1, 2, 3],
        2,
    );
    let (broke, why) = showed(run.verdict());
    assert_eq!(broke, Some(Invariant::Durable));
    assert!(why.contains("work was lost"), "{why}");
}

/// Where the sets are ones no run has been in, the question cannot be put.
#[test]
fn a_loss_that_cannot_be_checked_is_not_ruled_out() {
    // Step 1 refused and the rest taken, so the only thing the fleet can
    // have accepted is steps 2 and 3.
    let obs = run_of(
        fired_fault(),
        &[Ack::Rejected, Ack::Acked, Ack::Acked],
        &[0, 1, 2, 3],
        7,
    );
    // A reference that says where its steps leave the fleet, and nothing
    // about the way there, answers neither question. Not whether the fleet
    // stopped short of them, nor what one of them would leave taken twice.
    let references = references([(vec![2, 3], settling(2))]);
    let Judged::Now(Verdict::Fail { broke: invariant, reason }) = obs.judge(&references) else {
        panic!("settling where no admissible reading puts it is a failure");
    };
    assert_eq!(invariant, None);
    assert!(
        reason.contains("cannot be worked out from what this run has"),
        "{reason}"
    );
}

/// That is the shape of the run, so it is known before the run rather than
/// read off it.
#[test]
fn a_run_degraded_throughout_shows_recovery() {
    let (broke, _) = showed(broken_by(
        fired_throughout(),
        &[Ack::Acked, Ack::Acked],
        &[0, 1, 2],
        1,
    ));
    assert_eq!(broke, Some(Invariant::Recovers));
}

/// Working out what a step taken twice would have left needs arithmetic.
#[test]
fn a_reading_that_is_not_a_count_cannot_say_what_twice_would_leave() {
    let named = |at: &str| vec![Some(plan::Value::Str(at.to_owned()))];
    let mut obs = Readings::empty();
    obs.fault = Some(fired_fault());
    obs.outcomes = vec![outcome(Ack::Acked)];
    obs.checks = vec![Observed {
        value: Some(plan::Value::Str("shipped".into())),
        ..reading(0)
    }];
    obs.fault_free = unsettled(vec![named("new"), named("paid")]);
    let (broke, reason) = showed(obs.verdict());
    assert_eq!(broke, None);
    assert!(
        reason.contains("cannot be worked out from what this run has"),
        "{reason}"
    );
}

#[test]
fn reading_a_verdict_on_a_degraded_run_says_it_stood_throughout() {
    let mut obs = Readings::empty();
    obs.fault = Some(fired_throughout());
    obs.outcomes = vec![outcome(Ack::Acked), outcome(Ack::Acked)];
    obs.checks = vec![reading(1)];
    obs.fault_free = unsettled(vec![checkpoint(0), checkpoint(1), checkpoint(2)]);
    obs.windows = vec![window(0, 100), window(120, 200)];
    let Verdict::Fail { reason, .. } = obs.verdict() else {
        panic!("settling short of the fault-free run is a failure");
    };
    assert!(
        reason.starts_with("`db` was killed for the whole run."),
        "{reason}"
    );
}

#[test]
fn reading_a_verdict_names_the_check_as_the_scenario_spells_it() {
    let mut filtered = reading(100);
    filtered.check.observable = vec!["stock".into(), "select".into()];
    filtered.check.args = vec![plan::Value::Ident("level".into())];
    filtered.check.filter = Some(("item".into(), plan::Value::Str("book".into())));
    let mut obs = Readings::empty();
    obs.fault = Some(fired_fault());
    obs.outcomes = vec![outcome(Ack::Acked)];
    obs.checks = vec![filtered];
    obs.fault_free = unsettled(vec![checkpoint(100), checkpoint(96)]);
    let Verdict::Fail { reason, .. } = obs.verdict() else {
        panic!("settling somewhere the fault-free run never did is a failure");
    };
    assert!(
        reason.contains(r#"stock.select level where item = "book""#),
        "reason: {reason}"
    );
}

/// A verdict leads with the fault and where in the scenario it landed.
#[test]
fn reading_a_verdict_names_the_fault_that_caused_it() {
    let mut obs = Readings::empty();
    obs.fault = Some(fired_fault_at(150));
    obs.outcomes = vec![outcome(Ack::Acked), outcome(Ack::Acked)];
    obs.checks = vec![reading(1)];
    obs.fault_free = unsettled(vec![checkpoint(0), checkpoint(1), checkpoint(2)]);
    obs.windows = vec![window(0, 100), window(120, 200)];
    let Verdict::Fail { reason, .. } = obs.verdict() else {
        panic!("settling short of the fault-free run is a failure");
    };
    assert!(
        reason.starts_with(
            "`db` was killed during step 2, on a publish the broker has not confirmed."
        ),
        "{reason}"
    );
}

fn window(start_ns: u128, end_ns: u128) -> StepWindow {
    StepWindow { start_ns, end_ns }
}

#[test]
fn reading_a_fault_is_placed_against_the_step_that_was_in_flight() {
    let windows = [window(10, 100), window(120, 200)];
    for (at_ns, placed) in [
        (5, "before step 1"),
        (10, "during step 1"),
        (100, "during step 1"),
        (110, "between steps 1 and 2"),
        (150, "during step 2"),
        (900, "after step 2"),
    ] {
        assert_eq!(placement(&windows, at_ns), placed, "at {at_ns}ns");
    }
}

#[test]
fn reading_a_fault_with_no_steps_to_place_it_against_says_so() {
    assert!(placement(&[], 150).contains("unknown"));
}
