//! What a campaign spends its budget on.

use crucible::engine::scheduler::burst::{points_inside, BurstScheduler};
use crucible::engine::scheduler::{Budget, Scheduler};
use crucible::fault::{Anchor, Fault, Reaches};
use crucible::learned::Learned;
use crucible::plan::{Check, Fleet, Scenario, Service, Step, Value};
use crucible::protocol::{
    Boundary, Burst, Direction, Doing, Edge, EdgeProfile, Placement, Primitive, Primitives, Reached, Side,
};
use crucible::schedule::Schedule;
use crucible::schema::CmpOp;
use crucible::time::Duration;
use crucible::verdict::Baseline;

fn service(name: &str, kind: &str) -> Service {
    Service {
        name: name.to_owned(),
        kinds: vec![kind.to_owned()],
        attrs: Vec::new(),
    }
}

/// The fleet a scheduler breaks.
fn fleet() -> Fleet {
    Fleet {
        name: "f".into(),
        deployment: "docker".into(),
        services: vec![service("api", "http"), service("db", "mariadb")],
    }
}

/// The scenario a scheduler runs against it.
fn scenario() -> Scenario {
    Scenario {
        name: "s".into(),
        budget: None,
        consistent_within: Duration::from_secs(15),
        steps: vec![Step {
            driver: "http".into(),
            operation: "POST".into(),
            args: vec![Value::Ident("api".into()), Value::Str("/orders".into())],
            body: None,
            expect: None,
        }],
        checks: vec![Check {
            service: "db".into(),
            observer: "mariadb".into(),
            observable: vec!["orders".into(), "count".into()],
            args: Vec::new(),
            filter: None,
            op: CmpOp::Eq,
            value: Value::Int(1),
        }],
    }
}

/// A moment `service` reported reaching, as a learn run collects them.
fn reached(service: &str, span: &str, side: Side, nth: u32) -> Reached {
    Reached {
        service: service.to_owned(),
        boundary: Boundary {
            span: span.to_owned(),
            side,
            nth,
        },
    }
}

/// A burst of `packets` packets, the `nth` on its edge.
fn burst(nth: u32, packets: u32) -> Burst {
    let first = nth * packets + 1;
    let last = first + packets - 1;
    Burst {
        start: first - 1,
        mid: u32::midpoint(first, last),
        end: last,
        packets,
    }
}

/// An edge to `upstream`, dialled from outside the fleet so it has one end
/// to kill and a test says how many schedules it expects.
fn profile(upstream: &str, c2u: Vec<Burst>, u2c: Vec<Burst>) -> EdgeProfile {
    from(None, upstream, c2u, u2c)
}

fn from(client: Option<&str>, upstream: &str, c2u: Vec<Burst>, u2c: Vec<Burst>) -> EdgeProfile {
    EdgeProfile {
        placements: Vec::new(),
        edge: Edge {
            client: client.map(ToOwned::to_owned),
            upstream: upstream.into(),
        },
        client_to_upstream: c2u,
        upstream_to_client: u2c,
    }
}

/// An edge a plugin read, which named `moments` on it, each a place to hold
/// the fleet.
fn named(moments: Vec<&str>) -> EdgeProfile {
    marked(
        moments
            .into_iter()
            .map(|mark| (mark, Doing::Holding))
            .collect(),
    )
}

/// An edge a plugin read, which named `moments` on it and how each breaks
/// the fleet.
fn marked(moments: Vec<(&str, Doing)>) -> EdgeProfile {
    EdgeProfile {
        placements: moments
            .into_iter()
            .map(|(mark, doing)| Placement {
                direction: Direction::ClientToUpstream,
                mark: mark.to_owned(),
                why: format!("what {mark} catches"),
                doing,
            })
            .collect(),
        ..from(Some("api"), "broker", vec![], vec![])
    }
}

/// An unbounded campaign against a fleet that can only be killed.
fn scheduler(profiles: Vec<EdgeProfile>) -> BurstScheduler {
    driven(profiles, &[Primitive::Kill], None)
}

/// A budget that affords exactly `schedules` runs.
fn affording(schedules: u32) -> Budget {
    Budget {
        left: Duration::from_secs(u64::from(schedules)),
        cost: Duration::from_secs(1),
        concurrency: 1,
    }
}

/// A campaign against a fleet that can be broken in `ways`, fitted to a
/// budget affording `capacity` schedules.
fn driven(
    profiles: Vec<EdgeProfile>,
    ways: &[Primitive],
    capacity: Option<u32>,
) -> BurstScheduler {
    let learned = Learned {
        profiles,
        fault_free: Baseline::default(),
        inside: Vec::new(),
        primitives: Primitives::of(ways),
    };
    BurstScheduler::new(
        &fleet(),
        &scenario(),
        &learned,
        capacity.map(affording),
    )
}

/// Where a burst schedule's fault lands.
fn fault(schedule: &Schedule) -> &Anchor {
    schedule
        .fault()
        .expect("a burst schedule always faults")
        .anchor()
        .expect("a burst schedule always anchors")
}

/// The kill takes the service that reported the moment: it is held where it
/// said it got to, and dies there.
#[test]
fn a_service_that_reports_its_moments_is_faulted_at_them() {
    let learned = Learned {
        profiles: Vec::new(),
        fault_free: Baseline::default(),
        inside: vec![
            reached("api", "write", Side::Started, 1),
            reached("api", "publish", Side::Started, 1),
        ],
        primitives: Primitives::of(&[Primitive::Kill, Primitive::Cut, Primitive::Reorder]),
    };
    let mut s = BurstScheduler::new(&fleet(), &scenario(), &learned, None);

    let placed: Vec<_> = std::iter::from_fn(|| s.next())
        .map(|schedule| {
            let fault = schedule.fault()
            .expect("a moment is faulted");
            let anchor = fault.anchor().expect("an inside moment anchors").clone();
            (anchor.reaches, anchor.mark, fault.taking().target().clone())
        })
        .collect();

    assert_eq!(
        placed,
        vec![
            (
                Reaches::Inside {
                    service: "api".into()
                },
                "write:1:start".into(),
                "api".to_owned()
            ),
            (
                Reaches::Inside {
                    service: "api".into()
                },
                "publish:1:start".into(),
                "api".to_owned()
            ),
        ],
        "the moment is not on an edge, so only a kill reaches it"
    );
}

#[test]
fn every_kind_of_moment_comes_before_any_second_of_one() {
    let reported = [
        reached("api", "write", Side::Started, 1),
        reached("api", "write", Side::Ended, 1),
        reached("api", "publish", Side::Started, 1),
        reached("api", "publish", Side::Ended, 1),
        reached("api", "write", Side::Started, 2),
        reached("api", "publish", Side::Started, 2),
    ];
    let marks: Vec<_> = points_inside(&reported)
        .into_iter()
        .map(|point| point.mark)
        .collect();

    let second = marks
        .iter()
        .position(|mark| mark == "write:2:start")
        .expect("the second write is offered");
    let first_publish = marks
        .iter()
        .position(|mark| mark == "publish:1:start")
        .expect("the first publish is offered");
    assert!(
        first_publish < second,
        "the second write came before the first publish: {marks:?}"
    );
}

#[test]
fn a_span_ending_is_spent_before_a_span_starting() {
    let reported = [
        reached("api", "record", Side::Started, 1),
        reached("api", "record", Side::Ended, 1),
        reached("api", "queue", Side::Started, 1),
        reached("api", "queue", Side::Ended, 1),
    ];

    let marks: Vec<_> = points_inside(&reported)
        .into_iter()
        .map(|point| point.mark)
        .collect();

    assert_eq!(marks[0], "record:1:end", "spent first: {marks:?}");
    assert!(
        marks.iter().position(|m| m == "queue:1:end")
            < marks.iter().position(|m| m == "record:1:start"),
        "a starting boundary outranked an ending one: {marks:?}"
    );
}

#[test]
fn a_short_budget_reaches_the_moments_inside_services() {
    let learned = Learned {
        profiles: vec![profile("db", vec![burst(0, 4), burst(1, 4)], vec![])],
        fault_free: Baseline::default(),
        inside: vec![reached("api", "publish", Side::Started, 1)],
        primitives: Primitives::of(&[Primitive::Kill]),
    };
    let mut s = BurstScheduler::new(
        &fleet(),
        &scenario(),
        &learned,
        Some(affording(3)),
    );

    let marks: Vec<_> = std::iter::from_fn(|| s.next())
        .map(|schedule| fault(&schedule).mark.clone())
        .collect();
    assert!(
        marks.contains(&"publish:1:start".to_owned()),
        "the budget was spent on edges alone: {marks:?}"
    );
}

#[test]
fn a_fleet_that_reports_nothing_is_still_scheduled_from_its_edges() {
    let learned = Learned {
        profiles: vec![profile("db", vec![burst(0, 4)], vec![])],
        fault_free: Baseline::default(),
        inside: Vec::new(),
        primitives: Primitives::of(&[Primitive::Kill]),
    };
    let s = BurstScheduler::new(&fleet(), &scenario(), &learned, None);
    assert!(s.total() > 0);
}

/// A fleet whose loaded plugins cannot break anything cannot schedule any
/// faults, so the campaign is a fault-free run only.
#[test]
fn nothing_testable_yields_nothing() {
    let learned = Learned {
        profiles: vec![profile("db", vec![burst(0, 4)], vec![])],
        fault_free: Baseline::default(),
        inside: Vec::new(),
        primitives: Primitives::of(&[]),
    };
    let mut s = BurstScheduler::new(&fleet(), &scenario(), &learned, None);
    assert_eq!(s.total(), 0);
    assert!(s.next().is_none());
}

#[test]
fn burst_empty_profiles_yield_nothing() {
    let mut s = scheduler(vec![]);
    assert_eq!(s.total(), 0);
    assert!(s.next().is_none());
}

#[test]
fn an_unbounded_campaign_faults_every_point_of_every_burst() {
    let s = scheduler(vec![profile("db", vec![burst(1, 4), burst(2, 4)], vec![])]);
    assert_eq!(s.total(), 6);
    assert_eq!(s.coverage().taken, 6, "every point of both bursts");
}

/// Freezing before the first packet kills the service before the scenario
/// has driven anything across the edge, so that point is not placeable.
#[test]
fn the_first_burst_on_an_edge_offers_no_start() {
    let s = scheduler(vec![profile("db", vec![burst(0, 4)], vec![])]);
    assert_eq!(s.total(), 2);
}

/// Both ends and the link between them, at each of the burst's points.
#[test]
fn every_way_of_breaking_the_fleet_gets_its_own_schedule() {
    let s = driven(
        vec![from(Some("api"), "db", vec![burst(1, 4)], vec![])],
        &[Primitive::Kill, Primitive::Cut],
        None,
    );
    assert_eq!(s.total(), 9);
}

#[test]
fn burst_both_directions_are_scheduled() {
    let scheduler = scheduler(vec![profile("db", vec![burst(0, 1)], vec![burst(0, 1)])]);
    let all: Vec<_> = std::iter::from_fn({
        let mut s = scheduler;
        move || s.next()
    })
    .collect();
    assert!(
        all.iter()
            .any(|s| fault(s).reaches.direction() == Some(Direction::ClientToUpstream))
    );
    assert!(
        all.iter()
            .any(|s| fault(s).reaches.direction() == Some(Direction::UpstreamToClient))
    );
}

#[test]
fn emission_is_round_robin_across_edges() {
    let scheduler = scheduler(vec![
        profile("api", vec![burst(0, 1)], vec![]),
        profile("db", vec![burst(0, 1)], vec![]),
    ]);
    let first_two: Vec<String> = std::iter::from_fn({
        let mut s = scheduler;
        move || s.next()
    })
    .take(2)
    .filter_map(|s| fault(&s).reaches.edge().map(|e| e.upstream.clone()))
    .collect();
    assert!(first_two.contains(&"api".to_string()));
    assert!(first_two.contains(&"db".to_string()));
}

/// What each schedule takes away.
fn taken(s: BurstScheduler) -> Vec<String> {
    std::iter::from_fn({
        let mut s = s;
        move || s.next()
    })
    .map(|s| {
        s.fault()
            .expect("a burst schedule always faults")
            .taking()
            .target()
    })
    .collect()
}

#[test]
fn a_kill_can_take_either_end_of_an_edge() {
    let taken = taken(driven(
        vec![from(Some("inventory"), "broker", vec![burst(1, 4)], vec![])],
        &[Primitive::Kill],
        None,
    ));
    assert!(taken.contains(&"inventory".to_string()));
    assert!(taken.contains(&"broker".to_string()));
}

#[test]
fn an_edge_from_outside_the_fleet_offers_only_its_upstream() {
    let taken = taken(driven(
        vec![profile("api", vec![burst(1, 4)], vec![])],
        &[Primitive::Kill],
        None,
    ));
    assert!(taken.iter().all(|target| target == "api"), "{taken:?}");
}

/// The framework reaches in over an edge of its own to drive the scenario.
/// Cutting that stops the steps rather than the fleet, so there is no link
/// there to take.
#[test]
fn the_edge_the_scenario_is_driven_over_is_not_cut() {
    let s = driven(
        vec![profile("api", vec![burst(1, 4)], vec![])],
        &[Primitive::Cut],
        None,
    );
    assert_eq!(s.total(), 0);
}

/// A way of breaking the fleet with fewer moments than another must not sit
/// behind every one of them, or a budget spends itself before reaching it.
#[test]
fn a_budget_reaches_every_way_before_any_of_them_twice() {
    let repeating = Doing::Rewriting(Primitive::Redeliver);
    let profiles = vec![marked(vec![
        ("publish:1", Doing::Holding),
        ("publish:2", Doing::Holding),
        ("redeliver:1", repeating),
        ("redeliver:2", repeating),
        ("redeliver:3", repeating),
    ])];
    let mut scheduler = driven(profiles, &[Primitive::Kill, Primitive::Redeliver], None);

    let mut spent = Vec::new();
    while let Some(schedule) = scheduler.next() {
        spent.push(fault(&schedule).mark.clone());
    }
    spent.dedup();
    assert_eq!(
        spent,
        [
            "publish:1",
            "redeliver:1",
            "publish:2",
            "redeliver:2",
            "redeliver:3"
        ]
    );
}

/// Bursts on a busy edge must not spend the budget before the moments a
/// plugin named on a quiet one are reached.
#[test]
fn a_busy_edge_does_not_spend_the_budget_before_a_named_moment() {
    let profiles = vec![
        profile("db", vec![burst(1, 900), burst(2, 800)], vec![]),
        named(vec!["publish:1"]),
    ];
    let mut scheduler = driven(profiles, &[Primitive::Kill], None);

    let mut spent = Vec::new();
    while let Some(schedule) = scheduler.next() {
        spent.push(fault(&schedule).mark.clone());
    }
    spent.dedup();
    let named = spent.iter().position(|mark| mark == "publish:1");
    assert_eq!(named, Some(1), "{spent:?}");
}

/// A moment says how it can be broken, and only that way is scheduled.
/// This one is a confirm the plugin can drop, so the campaign spends it on
/// dropping even though it could also kill and cut: a kill there would
/// freeze the fleet and take a service away, which is not what the moment
/// offered.
#[test]
fn a_moment_is_broken_the_way_it_says_it_is() {
    let s = driven(
        vec![marked(vec![(
            "confirm:1",
            Doing::Rewriting(Primitive::Drop),
        )])],
        &[Primitive::Kill, Primitive::Cut, Primitive::Drop],
        None,
    );
    assert_eq!(s.total(), 1, "one way, not three");
    let mut s = s;
    let only = s.next().expect("the moment is placeable");
    assert_eq!(
        only.fault().map(Fault::primitive),
        Some(Primitive::Drop)
    );
}

/// A burst is a count of packets. Nothing read the edge, so nothing there
/// can change what crosses it, and a way that needs to must not be costed.
#[test]
fn a_burst_is_only_a_place_to_hold_the_fleet() {
    let s = driven(
        vec![profile("db", vec![burst(1, 4)], vec![])],
        &[Primitive::Kill, Primitive::Drop],
        None,
    );
    let ways: Vec<Primitive> = std::iter::from_fn({
        let mut s = s;
        move || s.next()
    })
    .filter_map(|schedule| schedule.fault().map(Fault::primitive))
    .collect();
    assert!(ways.iter().all(|by| *by == Primitive::Kill), "{ways:?}");
}

/// A moment broken one way must not queue behind the moments of another
/// way, or a busy edge spends the budget before the fleet meets it.
#[test]
fn a_way_of_breaking_the_fleet_takes_its_turn_against_the_others() {
    let profiles = vec![marked(vec![
        ("publish:1:after", Doing::Holding),
        ("publish:2:after", Doing::Holding),
        ("confirm:1", Doing::Rewriting(Primitive::Drop)),
    ])];
    let mut scheduler = driven(profiles, &[Primitive::Kill, Primitive::Drop], None);
    let mut spent = Vec::new();
    while let Some(schedule) = scheduler.next() {
        spent.push(fault(&schedule).mark.clone());
    }
    spent.dedup();
    assert_eq!(spent, ["publish:1:after", "confirm:1", "publish:2:after"]);
}

#[test]
fn a_cut_takes_the_edge_itself() {
    let taken = taken(driven(
        vec![from(Some("api"), "db", vec![burst(1, 4)], vec![])],
        &[Primitive::Cut],
        None,
    ));
    assert!(
        taken.iter().all(|target| target == "api -> db"),
        "{taken:?}"
    );
}

#[test]
fn a_budget_that_affords_one_point_takes_the_middle_of_each_burst() {
    let s = driven(
        vec![profile("db", vec![burst(0, 4), burst(1, 4)], vec![])],
        &[Primitive::Kill],
        Some(2),
    );
    assert_eq!(s.coverage().taken, 2, "one point in each burst");
    let at: Vec<String> = std::iter::from_fn({
        let mut s = s;
        move || s.next()
    })
    .map(|s| fault(&s).mark.clone())
    .collect();
    assert_eq!(
        at,
        [burst(0, 4).mid.to_string(), burst(1, 4).mid.to_string()]
    );
}

#[test]
fn a_second_point_lands_on_the_boundary_the_service_is_on() {
    let s = driven(
        vec![profile("db", vec![burst(1, 4)], vec![burst(1, 4)])],
        &[Primitive::Kill],
        Some(4),
    );
    assert_eq!(s.coverage().taken, 4, "both points each way");
    let placed: Vec<(Option<Direction>, String)> = std::iter::from_fn({
        let mut s = s;
        move || s.next()
    })
    .map(|s| (fault(&s).reaches.direction(), fault(&s).mark.clone()))
    .collect();
    let burst = burst(1, 4);
    // Receiving, so the start: it has taken delivery and not yet acted.
    assert!(placed.contains(&(Some(Direction::ClientToUpstream), burst.start.to_string())));
    // Sending, so the end: it has emitted everything and owes a write.
    assert!(placed.contains(&(Some(Direction::UpstreamToClient), burst.end.to_string())));
}

#[test]
fn a_budget_below_one_point_per_burst_keeps_the_busiest() {
    let s = driven(
        vec![profile("db", vec![burst(0, 1), burst(1, 9)], vec![])],
        &[Primitive::Kill],
        Some(1),
    );
    assert_eq!(s.coverage().taken, 1);
    let mut s = s;
    let only = s.next().expect("the budget affords one");
    assert_eq!(fault(&only).mark, burst(1, 9).mid.to_string());
}

/// A degraded run is scheduled elsewhere and paid for off the top, so
/// nothing here reserves anything for it.
#[test]
fn recovery_takes_no_share_of_what_the_bursts_are_fitted_to() {
    let s = driven(
        vec![profile("db", vec![burst(1, 4), burst(2, 4)], vec![])],
        &[Primitive::Kill],
        Some(6),
    );
    assert_eq!(s.coverage().taken, 6);
    assert_eq!(s.total(), 6);
}

#[test]
fn covering_both_ways_of_breaking_the_fleet_comes_before_more_points() {
    let s = driven(
        vec![from(Some("api"), "db", vec![burst(0, 4)], vec![])],
        &[Primitive::Kill, Primitive::Cut],
        Some(3),
    );
    assert_eq!(s.coverage().taken, 1, "one point, broken every way");
    assert_eq!(s.total(), 3);
}

#[test]
fn handing_a_schedule_out_changes_no_count() {
    let mut s = scheduler(vec![profile("db", vec![burst(1, 4), burst(2, 4)], vec![])]);
    for _ in 0..8 {
        s.next();
        assert_eq!(s.total(), 6);
        assert_eq!(s.coverage().taken, 6);
    }
    assert!(s.next().is_none());
}
