//! Invariants, and what a scenario states of where a fleet settles.

use crucible::plan::{Check, Value};
use crucible::protocol::{Primitive, Primitives};
use crucible::schema::CmpOp;
use crucible::verdict::{unmet, Invariant, Unreachable};

#[test]
fn an_invariant_nothing_can_show_is_out_of_reach() {
    let nothing = Primitives::of(&[]);
    for invariant in [
        Invariant::Idempotent,
        Invariant::Converges,
        Invariant::Durable,
        Invariant::Recovers,
    ] {
        assert_eq!(
            invariant.showable(&nothing),
            Err(Unreachable(invariant.shown_by_any())),
            "{invariant:?}"
        );
    }
}

/// A campaign shows an invariant broken by whichever ways of breaking the
/// fleet it loaded and that invariant answers to. Losing a write is losing
/// a write, however the edge was broken, but no redelivery loses one.
#[test]
fn only_the_loaded_ways_that_could_show_it_are_offered() {
    assert_eq!(
        Invariant::Durable.showable(&Primitives::of(&[Primitive::Kill, Primitive::Redeliver])),
        Ok(vec![Primitive::Kill]),
        "a redelivery cannot lose a write"
    );
    assert_eq!(
        Invariant::Durable.showable(&Primitives::of(&[Primitive::Kill, Primitive::Cut])),
        Ok(vec![Primitive::Kill, Primitive::Cut])
    );
}

/// Taking something away leaves the fleet in doubt, and what it does about
/// the doubt could break any of them, so a fleet that can only be killed is
/// still a fleet idempotency can be shown broken on.
#[test]
fn taking_something_away_could_show_any_of_them() {
    assert!(
        Invariant::Idempotent
            .showable(&Primitives::of(&[Primitive::Kill]))
            .is_ok()
    );
}

/// A scenario stating `orders.count >= 2`.
fn check() -> Check {
    Check {
        service: "db".into(),
        observer: "mariadb".into(),
        observable: vec!["orders".into(), "count".into()],
        args: Vec::new(),
        filter: None,
        op: CmpOp::Ge,
        value: Value::Int(2),
    }
}

#[test]
fn a_fault_free_run_that_satisfies_the_scenario_has_nothing_unmet() {
    assert_eq!(unmet(&[check()], &[Some(Value::Int(3))]), None);
}

#[test]
fn a_reading_the_scenario_rules_out_is_quoted_back_as_written() {
    assert_eq!(
        unmet(&[check()], &[Some(Value::Int(1))]),
        Some("`orders.count >= 2` reads 1".into())
    );
}

#[test]
fn a_reading_of_another_shape_is_not_a_comparison() {
    assert!(unmet(&[check()], &[Some(Value::Str("two".into()))]).is_some());
}

#[test]
fn a_check_the_run_could_not_read_is_unmet() {
    assert!(unmet(&[check()], &[None]).is_some());
}

#[test]
fn a_check_the_run_never_read_is_unmet() {
    assert!(unmet(&[check()], &[]).is_some());
}

#[test]
fn what_nothing_loaded_can_do_is_spelled_out() {
    assert_eq!(
        Unreachable(Invariant::Recovers.shown_by_any()).spell(),
        "nothing loaded can kill or cut"
    );
}
