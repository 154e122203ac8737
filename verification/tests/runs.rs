//! What a run does next, given how the last thing went.

use crucible::engine::orchestrator::degraded::Degraded;
use crucible::engine::orchestrator::driving::{
    read_check, read_checkpoint, Does, Driving, Reading,
};
use crucible::engine::orchestrator::lifecycle::{
    executed, fired, learn, reference, Bring, For, Goes, Outing, Ran, Setup, Went,
};
use crucible::engine::orchestrator::{
    both, endpoint_for, unplaced, Act, Anchored, Came, Placement, Settling,
};
use crucible::fault::{Anchor, By, Fault};
use crucible::observer::Reported;
use crucible::orchestrator as packet;
use crucible::plan::{Check, Value};
use crucible::progress::Step;
use crucible::protocol::{
    At, Did, Direction, Edge, FaultMissReason, FaultReport, FaultResult, Primitive, Primitives, Session,
    WriteRecord,
};
use crucible::proxy_log::Address;
use crucible::schedule::Phase;
use crucible::scheduler::Schedule;
use crucible::schema::CmpOp;
use crucible::time::Duration;
use crucible::verdict::{Ack, Baseline, Observations, Outcome};

/// A deployment whose kill can be told to fail, so placement's error handling
/// can be exercised without a real fleet.
#[derive(Default)]
struct FakeDeployment {
    kill_fails: bool,
    resume_fails: bool,
    restart_fails: bool,
}

fn edge() -> Edge {
    Edge {
        client: Some("api".into()),
        upstream: "db".into(),
    }
}

/// A kill of `db`, anchored in what `api` was saying to it.
fn fault() -> Fault {
    Fault::at(
        Anchor::crossing(
            edge(),
            Direction::ClientToUpstream,
            "ack:7:before".into(),
            "an ack the consumer has sent and the broker has not seen".into(),
        ),
        By::Kill("db".into()),
    )
}

/// Places `fault` against a deployment whose proxy says nothing.
fn place(
    fault: Fault,
    placement: Placement,
    deployment: &FakeDeployment,
    id: u32,
    start_ns: u128,
) -> Result<FaultReport, String> {
    let mut placing = Anchored::place(fault, placement, id, start_ns);
    loop {
        let came = match placing.act() {
            Act::Listen { .. } => Came::Heard(None),
            Act::Kill(_) if deployment.kill_fails => Came::Failed("kill failed".into()),
            Act::Kill(_) => Came::Killed { at_ns: 42 },
            Act::Proceed if deployment.resume_fails => Came::Failed("resume failed".into()),
            Act::Abandon if deployment.resume_fails => Came::Failed("abandon failed".into()),
            Act::Restart(_) if deployment.restart_fails => Came::Failed("restart failed".into()),
            Act::Proceed | Act::Abandon | Act::Restart(_) => Came::Done,
            Act::Report(report) => return Ok(report),
            Act::Fail(e) => return Err(e),
            other => panic!("placing does not ask for {other:?}"),
        };
        placing.next(came);
    }
}

/// A cut is placed by the proxy, so what says it happened is the proxy
/// saying so. Without that the run reports a fleet it never broke.
#[test]
fn a_cut_nothing_was_seen_to_make_is_missed() {
    let deployment = FakeDeployment::default();
    let report = place(fault(), Placement::Cut, &deployment, 1, 0)
        .expect("a fault that did not land is reported, not an error");
    assert!(
        matches!(report.result, FaultResult::Missed(_)),
        "{:?}",
        report.result
    );
}

#[test]
fn a_fault_reports_fired_when_recovery_succeeds() {
    let deployment = FakeDeployment::default();
    let report = place(fault(), Placement::Kill, &deployment, 1, 0)
        .expect("recovery succeeded, so a report comes back");
    assert!(matches!(report.result, FaultResult::Fired { .. }));
}

#[test]
fn a_kill_errors_when_restart_fails() {
    // A failed restart leaves the target dead; reporting Fired would compute a
    // durability verdict against a dead fleet, so it must surface as an error.
    let deployment = FakeDeployment {
        restart_fails: true,
        ..Default::default()
    };
    let result = place(fault(), Placement::Kill, &deployment, 1, 0);
    assert!(result.is_err());
}

#[test]
fn a_kill_errors_when_resume_fails() {
    // A failed resume leaves the fleet frozen; the verdict would be read
    // against a wedged fleet, so it must surface as an error.
    let deployment = FakeDeployment {
        resume_fails: true,
        ..Default::default()
    };
    let result = place(fault(), Placement::Kill, &deployment, 1, 0);
    assert!(result.is_err());
}

#[test]
fn a_fault_reports_miss_when_it_fails() {
    // A failed kill fired nothing; that is a miss, not an infra error.
    let deployment = FakeDeployment {
        kill_fails: true,
        ..Default::default()
    };
    let report = place(fault(), Placement::Kill, &deployment, 1, 0)
        .expect("kill-failure is a miss, not an error");
    assert!(matches!(
        report.result,
        FaultResult::Missed(FaultMissReason::Failed(_))
    ));
}

#[test]
fn a_fired_fault_says_when_and_where() {
    let report = place(fault(), Placement::Kill, &FakeDeployment::default(), 9, 40)
        .expect("it fired");
    assert_eq!(report.schedule_id, 9);
    assert_eq!(report.service, "db");
    assert_eq!(
        report.result,
        FaultResult::Fired {
            by: Primitive::Kill,
            at: At::Moment {
                direction: Some(Direction::ClientToUpstream),
                mark: "ack:7:before".into(),
                why: "an ack the consumer has sent and the broker has not seen".into(),
                offset_ns: 2,
            },
            placed_at_ns: 42,
        }
    );
}

#[test]
fn a_fault_the_proxy_says_it_placed_fired_then() {
    let mut placing = Anchored::place(fault(), Placement::Cut, 1, 100);
    assert_eq!(placing.act(), Act::Listen { within: Duration::from_secs(5) });
    placing.next(Came::Heard(Some(Reported {
        did: Did::Placed("cut".into()),
        at_ns: 70,
    })));
    match placing.act() {
        Act::Report(report) => match report.result {
            FaultResult::Fired { at: At::Moment { offset_ns, .. }, placed_at_ns, .. } => {
                assert_eq!(placed_at_ns, 70);
                assert_eq!(offset_ns, 0, "a clock behind the scenario's start");
            }
            other => panic!("{other:?}"),
        },
        other => panic!("{other:?}"),
    }
    // What a run comes to is final.
    placing.next(Came::Failed("late".into()));
    assert!(matches!(placing.act(), Act::Report(_)));
}

#[test]
fn what_was_not_placed_says_why() {
    assert_eq!(unplaced(&None), "the proxy did not say it placed anything");
    assert_eq!(
        unplaced(&Some(Reported { did: Did::Asked, at_ns: 0 })),
        "the fleet was asked and was not seen to do it"
    );
    assert_eq!(
        unplaced(&Some(Reported { did: Did::Unplaceable("too late".into()), at_ns: 0 })),
        "too late"
    );
}

#[test]
fn an_anchor_is_missed_only_once_the_fleet_is_quiet() {
    let mut run = Anchored::new(fault(), Placement::Kill, 3);
    let minute = Duration::from_secs(60);
    assert_eq!(
        run.act(),
        Act::CountFreezes { since: 0, within: Duration::from_secs(0) }
    );
    run.next(Came::Froze(2));
    assert_eq!(run.act(), Act::Arm);
    run.next(Came::Armed { at_ns: 1_000 });
    assert_eq!(run.act(), Act::WatchUntilEnd { since: 2, within: minute });
    run.next(Came::ScenarioEnded);
    assert!(matches!(run.act(), Act::WatchUntilQuiet { since: 2, .. }));
    run.next(Came::Quiet);
    assert_eq!(
        run.act(),
        Act::CountFreezes { since: 2, within: Duration::from_secs(0) }
    );
    run.next(Came::Froze(2));
    assert_eq!(run.act(), Act::Abandon);
    run.next(Came::Done);
    match run.act() {
        Act::Report(report) => assert_eq!(
            report.result,
            FaultResult::Missed(FaultMissReason::ScenarioEndedBeforeAnchor)
        ),
        other => panic!("{other:?}"),
    }
}

#[test]
fn a_late_freeze_is_still_a_freeze() {
    let mut run = Anchored::new(fault(), Placement::Kill, 3);
    run.next(Came::Froze(0));
    run.next(Came::Armed { at_ns: 1_000 });
    run.next(Came::ScenarioEnded);
    run.next(Came::Froze(1));
    assert_eq!(run.act(), Act::Kill("db".into()));
    run.next(Came::Killed { at_ns: 1_500 });
    assert_eq!(run.act(), Act::Proceed);
    run.next(Came::Done);
    assert_eq!(run.act(), Act::Restart("db".into()));
    run.next(Came::Done);
    match run.act() {
        Act::Report(report) => match report.result {
            FaultResult::Fired { at: At::Moment { offset_ns, .. }, .. } => {
                assert_eq!(offset_ns, 500);
            }
            other => panic!("{other:?}"),
        },
        other => panic!("{other:?}"),
    }
}

#[test]
fn a_rewritten_fault_waits_for_the_scenario_to_end() {
    let repeat = Fault::at(
        Anchor::crossing(edge(), Direction::ClientToUpstream, "m".into(), "w".into()),
        By::Repeat(edge()),
    );
    let mut run = Anchored::new(repeat, Placement::Rewritten, 3);
    run.next(Came::Froze(0));
    run.next(Came::Armed { at_ns: 0 });
    assert_eq!(run.act(), Act::AwaitEnd);
    run.next(Came::Froze(5));
    assert_eq!(run.act(), Act::AwaitEnd, "it holds nothing, so a freeze is not its own");
    run.next(Came::ScenarioEnded);
    assert!(matches!(run.act(), Act::Settle(_)));
    run.next(Came::Quiet);
    assert!(matches!(run.act(), Act::Listen { .. }));
}

#[test]
fn failing_to_arm_fails_the_run() {
    let mut run = Anchored::new(fault(), Placement::Kill, 3);
    run.next(Came::Froze(0));
    run.next(Came::Failed("no proxy".into()));
    assert_eq!(run.act(), Act::Fail("no proxy".into()));
}

#[test]
fn a_degraded_fleet_is_put_back() {
    let mut run = Degraded::new(Fault::throughout(By::Kill("db".into())), Placement::Kill, 4);
    assert_eq!(run.act(), Act::Kill("db".into()));
    run.next(Came::Killed { at_ns: 7 });
    assert_eq!(run.act(), Act::Drive);
    run.next(Came::ScenarioEnded);
    assert_eq!(run.act(), Act::Restart("db".into()));
    run.next(Came::Done);
    assert_eq!(run.act(), Act::Proceed);
    run.next(Came::Done);
    match run.act() {
        Act::Report(report) => assert_eq!(
            report.result,
            FaultResult::Fired { by: Primitive::Kill, at: At::Throughout, placed_at_ns: 7 }
        ),
        other => panic!("{other:?}"),
    }
}

#[test]
fn a_cut_that_stands_throughout_is_lifted() {
    let mut run = Degraded::new(Fault::throughout(By::Cut(edge())), Placement::Cut, 4);
    assert_eq!(run.act(), Act::Arm);
    run.next(Came::Armed { at_ns: 3 });
    run.next(Came::ScenarioEnded);
    assert_eq!(run.act(), Act::Proceed);
    run.next(Came::Failed("stuck".into()));
    assert_eq!(run.act(), Act::Fail("stuck".into()));
}

#[test]
fn a_degraded_run_whose_kill_failed_is_missed() {
    let mut run = Degraded::new(Fault::throughout(By::Kill("db".into())), Placement::Kill, 4);
    run.next(Came::Failed("kill failed".into()));
    assert_eq!(run.act(), Act::Drive);
    run.next(Came::ScenarioEnded);
    match run.act() {
        Act::Report(report) => assert_eq!(
            report.result,
            FaultResult::Missed(FaultMissReason::Failed("kill failed".into()))
        ),
        other => panic!("{other:?}"),
    }
}

#[test]
fn a_fault_is_placed_by_what_the_deployment_offers() {
    assert_eq!(Placement::of(&fault(), true, &[]), Ok(Placement::Kill));
    assert_eq!(
        Placement::of(&fault(), false, &[Primitive::Kill]),
        Err("a schedule was generated for `killing db`, which cannot be run against this fleet"
            .to_string())
    );
    let cut = Fault::throughout(By::Cut(edge()));
    assert_eq!(Placement::of(&cut, false, &[Primitive::Cut]), Ok(Placement::Cut));
    assert!(Placement::of(&cut, true, &[]).is_err());
    let repeat = Fault::throughout(By::Repeat(edge()));
    assert_eq!(
        Placement::of(&repeat, false, &[Primitive::Redeliver]),
        Ok(Placement::Rewritten)
    );
    assert!(Placement::of(&repeat, false, &[Primitive::Reorder]).is_err());
}

#[test]
fn an_unpublished_endpoint_is_an_error() {
    assert_eq!(endpoint_for(Some(5), "db", "mariadb"), Ok(5));
    assert_eq!(
        endpoint_for::<u8>(None, "db", "mariadb"),
        Err("the fleet published no endpoint for `db` speaking `mariadb`".to_string())
    );
}

#[test]
fn a_scenario_that_failed_is_said_before_its_fault() {
    let report = FaultReport::missed(1, "db".into(), FaultMissReason::ScenarioEndedBeforeAnchor);
    assert_eq!(both(Ok(1), Ok(report.clone())), Ok((1, report.clone())));
    assert_eq!(both::<u8>(Err("a".into()), Err("b".into())), Err("a".to_string()));
    assert_eq!(both(Ok(1), Err("b".into())), Err("b".to_string()));
}

fn check() -> Check {
    Check {
        service: "db".into(),
        observer: "mariadb".into(),
        observable: vec!["orders".into(), "count".into()],
        args: Vec::new(),
        filter: None,
        op: CmpOp::Eq,
        value: Value::Int(3),
    }
}

#[test]
fn what_cannot_be_read_is_not_a_reason_to_stop() {
    let nowhere = Reading::Nowhere { target: "db".into(), kind: "mariadb".into() };
    assert_eq!(
        read_check(&check(), nowhere).err(),
        Some("the fleet published no endpoint for `db` speaking `mariadb`".to_string())
    );
    assert_eq!(read_check(&check(), Reading::Nothing).expect("read").value, None);
    let observed = read_check(&check(), Reading::Value(Value::Int(3))).expect("read");
    assert_eq!(observed.value, Some(Value::Int(3)));
    assert_eq!(observed.check, check());
    assert_eq!(
        read_checkpoint(vec![
            Reading::Value(Value::Int(1)),
            Reading::Nothing,
            Reading::Nowhere { target: "db".into(), kind: "mariadb".into() },
        ]),
        vec![Some(Value::Int(1)), None, None]
    );
}

#[test]
fn every_step_leaves_an_outcome_a_window_and_a_point() {
    let within = Duration::from_secs(15);
    let mut driving = Driving::new(2, within);
    assert_eq!(driving.does(), Does::Read);
    assert_eq!(driving.doing(), None);
    driving.read(vec![Some(Value::Int(0))]);
    for step in 0..2 {
        assert_eq!(driving.does(), Does::Drive(step));
        assert_eq!(
            driving.doing(),
            Some((Phase::Driving, Step { taken: step + 1, of: 2 }))
        );
        let started = 100 * step as u128;
        driving.driven(started, Outcome { ack: Ack::Acked });
        assert_eq!(
            driving.does(),
            Does::Settle(Settling {
                at_least: Duration::from_millis(100),
                idle: Duration::from_secs(1),
                within,
            })
        );
        assert_eq!(
            driving.doing(),
            Some((Phase::Healing, Step { taken: step + 1, of: 2 }))
        );
        driving.rested(started + 50);
        assert_eq!(
            driving.doing(),
            Some((Phase::Observing, Step { taken: step + 1, of: 2 }))
        );
        driving.read(vec![Some(Value::Int(step as i64 + 1))]);
    }
    assert_eq!(driving.does(), Does::Stop);
    let readings = driving.into_observations().readings;
    assert_eq!(readings.outcomes.len(), 2);
    assert_eq!(readings.windows.len(), 2);
    assert_eq!(readings.windows[1].start_ns, 100);
    assert_eq!(readings.windows[1].end_ns, 150);
    assert_eq!(readings.trajectory.len(), 3);
}

#[test]
fn a_failed_setup_tears_the_replica_down() {
    let mut setup = Setup::new();
    assert_eq!(setup.does(), Bring::SetUp);
    setup.next(Went::Well);
    assert_eq!(setup.does(), Bring::WaitReady);
    setup.next(Went::Badly("not ready".into()));
    assert_eq!(setup.does(), Bring::ShutDown);
    setup.next(Went::Well);
    assert_eq!(setup.does(), Bring::TearDown);
    setup.next(Went::Badly("still there".into()));
    assert_eq!(setup.does(), Bring::Fail("not ready".into()));

    let mut setup = Setup::new();
    setup.next(Went::Badly("no daemon".into()));
    assert_eq!(setup.does(), Bring::TearDown, "no observer has been started");

    let mut setup = Setup::new();
    setup.next(Went::Well);
    setup.next(Went::Well);
    assert_eq!(setup.does(), Bring::Resolve);
    setup.next(Went::Well);
    assert_eq!(setup.does(), Bring::Ready);
}

#[test]
fn a_run_that_missed_has_nothing_to_wait_for() {
    let within = Duration::from_secs(15);
    let mut run = Outing::new(For::Breaking, within);
    assert_eq!(run.does(), Goes::Run);
    run.next(Ran::Scenario { fired: false });
    assert_eq!(run.does(), Goes::ReadChecks);
    run.next(Ran::Well);
    assert_eq!(run.does(), Goes::Finish);

    let mut run = Outing::new(For::Breaking, within);
    run.next(Ran::Scenario { fired: true });
    assert_eq!(
        run.does(),
        Goes::Settle(Settling {
            at_least: Duration::from_millis(500),
            idle: Duration::from_secs(1),
            within,
        })
    );
}

#[test]
fn learning_reads_addresses_last() {
    let mut run = Outing::new(For::Learning, Duration::from_secs(15));
    run.next(Ran::Scenario { fired: false });
    assert!(matches!(run.does(), Goes::Settle(_)));
    run.next(Ran::Well);
    assert_eq!(run.does(), Goes::ReadChecks);
    run.next(Ran::Well);
    assert_eq!(run.does(), Goes::ReadAddresses);
    run.next(Ran::Badly("gone".into()));
    assert_eq!(run.does(), Goes::ShutDown);
    run.next(Ran::Well);
    assert_eq!(run.does(), Goes::TearDown);
    run.next(Ran::Well);
    assert_eq!(run.does(), Goes::Fail("gone".into()));
}

#[test]
fn readings_carry_the_fault_and_what_they_are_judged_against() {
    let report = FaultReport::missed(1, "db".into(), FaultMissReason::ScenarioEndedBeforeAnchor);
    assert!(!fired(&report));
    let checks = || vec![read_check(&check(), Reading::Value(Value::Int(3))).expect("read")];
    let baseline = || Baseline::unsettled(vec![vec![Some(Value::Int(3))]]);
    let readings = executed(Observations::empty(), report.clone(), checks(), baseline());
    assert_eq!(readings.fault, Some(report));
    assert_eq!(readings.checks, checks());
    assert_eq!(readings.fault_free, baseline());
    let readings = reference(Observations::empty(), checks());
    assert_eq!(readings.fault, None);
    assert_eq!(readings.checks, checks());
}

#[test]
fn what_is_learned_is_what_was_seen() {
    let mut observations = Observations::empty();
    observations.sessions = vec![Session {
        service: "db".into(),
        conn_id: 0,
        peer: "10.0.0.1:1".into(),
        opened_ns: 0,
        closed_ns: None,
        writes: vec![WriteRecord { ts_ns: 9, direction: Direction::ClientToUpstream, bytes: 1 }],
    }];
    let checks = vec![read_check(&check(), Reading::Value(Value::Int(3))).expect("read")];
    let api = Address::V4(1);
    let learned = learn(
        observations,
        checks,
        &[Some(api)],
        5,
        &[(api, "api".to_string())],
        Primitives::of(&[Primitive::Cut, Primitive::Kill, Primitive::Cut]),
    );
    assert_eq!(learned.profiles.len(), 1);
    assert_eq!(learned.profiles[0].edge.client, Some("api".to_string()));
    assert_eq!(learned.fault_free.settled, vec![Some(Value::Int(3))]);
    assert_eq!(learned.primitives.as_slice(), [Primitive::Kill, Primitive::Cut]);
    assert_eq!(learned.primitives, Primitives::of(&[Primitive::Kill, Primitive::Cut]));
}

fn schedule() -> Schedule {
    Schedule {
        schedule_id: 1,
        service: "db".into(),
        direction: Direction::ClientToUpstream,
        fault_packet_index: 3,
        payload: Vec::new(),
    }
}

/// Applies the kill of `schedule` against a deployment.
fn fire_kill(
    deployment: &FakeDeployment,
    schedule: Schedule,
    offset_ns: u128,
) -> Result<packet::KillReport, String> {
    let mut kill = packet::Killing::fire_kill(schedule, offset_ns);
    loop {
        let came = match kill.act() {
            packet::Act::Kill(_) if deployment.kill_fails => {
                packet::Came::Failed("kill failed".into())
            }
            packet::Act::Kill(_) => packet::Came::Killed { at_ns: 42 },
            packet::Act::Resume if deployment.resume_fails => {
                packet::Came::Failed("resume failed".into())
            }
            packet::Act::Restart(_) if deployment.restart_fails => {
                packet::Came::Failed("restart failed".into())
            }
            packet::Act::Resume | packet::Act::Restart(_) => packet::Came::Done,
            packet::Act::Report(report) => return Ok(report),
            packet::Act::Fail(e) => return Err(e),
            other => panic!("a kill does not ask for {other:?}"),
        };
        kill.next(came);
    }
}

#[test]
fn fire_kill_reports_fired_when_recovery_succeeds() {
    let deployment = FakeDeployment::default();
    let report = fire_kill(&deployment, schedule(), 0)
        .expect("recovery succeeded, so fire_kill returns a report");
    assert!(matches!(report.result, packet::KillResult::Fired { .. }));
}

#[test]
fn only_a_kill_that_fired_leaves_the_fleet_to_settle() {
    let fired = fire_kill(&FakeDeployment::default(), schedule(), 0).expect("it fired");
    assert!(fired.settles());
    let deployment = FakeDeployment {
        kill_fails: true,
        ..Default::default()
    };
    let missed = fire_kill(&deployment, schedule(), 0).expect("a miss");
    assert!(!missed.settles());
}

#[test]
fn fire_kill_errors_when_restart_fails() {
    // A failed restart leaves the target dead; reporting Fired would compute a
    // durability verdict against a dead fleet, so it must surface as an error.
    let deployment = FakeDeployment {
        restart_fails: true,
        ..Default::default()
    };
    let result = fire_kill(&deployment, schedule(), 0);
    assert!(result.is_err());
}

#[test]
fn fire_kill_errors_when_resume_fails() {
    // A failed resume leaves the fleet frozen; the verdict would be read
    // against a wedged fleet, so it must surface as an error.
    let deployment = FakeDeployment {
        resume_fails: true,
        ..Default::default()
    };
    let result = fire_kill(&deployment, schedule(), 0);
    assert!(result.is_err());
}

#[test]
fn fire_kill_reports_miss_when_kill_fails() {
    // A failed kill fired nothing; that is a miss, not an infra error.
    let deployment = FakeDeployment {
        kill_fails: true,
        ..Default::default()
    };
    let report = fire_kill(&deployment, schedule(), 0)
        .expect("kill-failure is a miss, not an error");
    assert!(matches!(
        report.result,
        packet::KillResult::Missed(packet::KillMissReason::KillFailed(_))
    ));
}

#[test]
fn a_fired_kill_says_what_was_asked_and_what_happened() {
    let report = fire_kill(&FakeDeployment::default(), schedule(), 17).expect("it fired");
    assert_eq!(
        report.result,
        packet::KillResult::Fired {
            requested_direction: Direction::ClientToUpstream,
            requested_packet_index: 3,
            actual_offset_ns: 17,
            killed_at_ns: 42,
        }
    );
}

#[test]
fn a_freeze_may_lag_the_scenario() {
    let mut kill = packet::Killing::new(schedule());
    assert_eq!(kill.act(), packet::Act::Arm);
    kill.next(packet::Came::Done);
    assert_eq!(
        kill.act(),
        packet::Act::WatchUntilEnd { within: Duration::from_secs(60) }
    );
    kill.next(packet::Came::ScenarioEnded);
    assert_eq!(kill.act(), packet::Act::Watch { within: Duration::from_secs(1) });
    kill.next(packet::Came::Froze { frozen: false, offset_ns: 9 });
    assert_eq!(kill.act(), packet::Act::Resume);
    kill.next(packet::Came::Done);
    match kill.act() {
        packet::Act::Report(report) => assert_eq!(
            report.result,
            packet::KillResult::Missed(packet::KillMissReason::ScenarioEndedBeforeAnchor)
        ),
        other => panic!("{other:?}"),
    }
}
