//! The runs that hold a fleet down and let it go.

use crucible::engine::scheduler::recovery::RecoveryScheduler;
use crucible::engine::scheduler::Scheduler;
use crucible::fault::Drive;
use crucible::learned::Learned;
use crucible::plan::{Check, Fleet, Scenario, Service, Step, Value};
use crucible::protocol::{Burst, Edge, EdgeProfile, Primitive, Primitives};
use crucible::schedule::Schedule;
use crucible::schema::CmpOp;
use crucible::time::Duration;
use crucible::verdict::Baseline;

fn service(name: &str, kind: &str) -> Service {
    Service {
        name: name.to_owned(),
        kinds: vec![kind.to_owned()],
        attrs: Vec::new(),
    }
}

/// The fleet a scheduler breaks.
fn fleet() -> Fleet {
    Fleet {
        name: "f".into(),
        deployment: "docker".into(),
        services: vec![service("api", "http"), service("db", "mariadb")],
    }
}

/// The scenario a scheduler runs against it.
fn scenario() -> Scenario {
    Scenario {
        name: "s".into(),
        budget: None,
        consistent_within: Duration::from_secs(15),
        steps: vec![Step {
            driver: "http".into(),
            operation: "POST".into(),
            args: vec![Value::Ident("api".into()), Value::Str("/orders".into())],
            body: None,
            expect: None,
        }],
        checks: vec![Check {
            service: "db".into(),
            observer: "mariadb".into(),
            observable: vec!["orders".into(), "count".into()],
            args: Vec::new(),
            filter: None,
            op: CmpOp::Eq,
            value: Value::Int(1),
        }],
    }
}

fn carrying(packets: u32) -> Burst {
    Burst {
        start: 0,
        mid: packets.div_ceil(2),
        end: packets,
        packets,
    }
}

/// A fault-free run that saw traffic on the edges into `seen` and nothing
/// else, each dialled by the fleet's own `api`.
fn learned(seen: &[&str]) -> Learned {
    Learned {
        profiles: seen
            .iter()
            .map(|upstream| profile(dialled(upstream)))
            .collect(),
        fault_free: Baseline::default(),
        inside: Vec::new(),
        primitives: Primitives::of(&[Primitive::Kill, Primitive::Cut]),
    }
}

/// The edge `api` holds to `upstream`.
fn dialled(upstream: &str) -> Edge {
    Edge {
        client: Some("api".to_string()),
        upstream: upstream.to_string(),
    }
}

fn profile(edge: Edge) -> EdgeProfile {
    EdgeProfile {
        placements: Vec::new(),
        edge,
        client_to_upstream: vec![carrying(1)],
        upstream_to_client: vec![carrying(1)],
    }
}

fn schedules(ways: &[Drive], seen: &[&str]) -> Vec<Schedule> {
    let mut s = RecoveryScheduler::new(
        &fleet(),
        &scenario(),
        &learned(seen),
        ways,
        1,
    );
    std::iter::from_fn(move || s.next()).collect()
}

/// What each schedule degrades.
fn degraded(ways: &[Drive], seen: &[&str]) -> Vec<String> {
    schedules(ways, seen)
        .iter()
        .map(|schedule| {
            schedule
                .fault()
                .expect("a recovery run faults")
                .taking()
                .target()
        })
        .collect()
}

#[test]
fn one_schedule_per_service_to_kill() {
    let fleet = fleet().services.len();
    assert_eq!(schedules(&[Drive::Kill], &["db"]).len(), fleet);
}

/// A cut is per edge, and which edges exist is what the run observed, so a
/// fleet whose services never spoke offers nothing to cut.
#[test]
fn one_schedule_per_observed_edge_to_cut() {
    assert_eq!(schedules(&[Drive::Cut], &["db", "api"]).len(), 2);
    assert!(schedules(&[Drive::Cut], &[]).is_empty());
}

/// The framework reaches in over an edge of its own to drive the scenario.
/// Holding that down runs the fleet against no traffic at all.
#[test]
fn the_edge_the_scenario_is_driven_over_is_not_degraded() {
    let mut learned = learned(&["db"]);
    learned.profiles.push(profile(Edge {
        client: None,
        upstream: "api".to_string(),
    }));
    let mut s = RecoveryScheduler::new(
        &fleet(),
        &scenario(),
        &learned,
        &[Drive::Cut],
        1,
    );
    let cut: Vec<String> = std::iter::from_fn(move || s.next())
        .map(|schedule| {
            schedule
                .fault()
            .expect("a recovery run faults")
                .taking()
                .target()
        })
        .collect();
    assert_eq!(cut, ["api -> db"]);
}

#[test]
fn a_service_the_run_saw_no_traffic_for_is_still_degraded() {
    let degraded = degraded(&[Drive::Kill], &[]);
    for service in &fleet().services {
        assert!(degraded.contains(&service.name), "{}", service.name);
    }
}

#[test]
fn a_recovery_schedule_is_not_anchored_to_a_packet() {
    let schedules = schedules(&[Drive::Kill], &[]);
    let fault = schedules[0].fault().expect("a recovery run faults");
    assert_eq!(fault.anchor(), None);
}

#[test]
fn handing_a_run_out_changes_no_count() {
    let ways = [Drive::Kill, Drive::Cut];
    let mut s = RecoveryScheduler::new(&fleet(), &scenario(), &learned(&["db"]), &ways, 1);
    let total = s.total();
    while s.next().is_some() {
        assert_eq!(s.total(), total);
    }
    assert_eq!(s.total(), total);
}
