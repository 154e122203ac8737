//! What holds of every scenario file that compiles.

use vstd::prelude::*;

use super::ast::{FileModel, PredicateModel, ScenarioModel, StepModel};
use super::lexer::lexed;
use super::lower::{
    answered, check_of, checks_of, exactly, fleet_faults, lowered, plan_of, predicate_faults,
    predicates_faults, scenario_faults, scenario_of, scenarios_faults, services_of, step_faults,
    step_of, steps_faults, steps_of, Services,
};
use super::parser::lemma_parse_says_why;
use super::registry::RegistryModel;
use super::span::At;
use super::compiled;
use crate::plan::{entry_of, longest_settling, CheckModel, StepModel as Step};

verus! {

/// Whether a step calls an operation that its driver has.
pub open spec fn drivable(step: Step, registry: RegistryModel) -> bool {
    match entry_of(registry.drivers, step.driver) {
        Some(sigs) => exactly(sigs, step.operation) is Some,
        None => false,
    }
}

/// Whether a check reads a service the fleet has, through a plugin that the
/// service speaks and that has an observer.
pub open spec fn observable(check: CheckModel, services: Services, registry: RegistryModel) -> bool {
    match entry_of(services, check.service) {
        Some(kinds) => kinds.contains(check.observer) && entry_of(
            registry.observers,
            check.observer,
        ) is Some,
        None => false,
    }
}

proof fn lemma_answered(
    kinds: Seq<Seq<char>>,
    path: Seq<At<Seq<char>>>,
    registry: RegistryModel,
)
    ensures
        answered(kinds, path, registry) matches Some(found) ==> kinds.contains(
            found.0,
        ) && entry_of(registry.observers, found.0) is Some,
    decreases kinds.len(),
{
    if kinds.len() > 0 {
        let rest = kinds.skip(1);
        lemma_answered(rest, path, registry);
        if let Some(found) = answered(rest, path, registry) {
            let i = rest.index_of(found.0);
            assert(kinds[i + 1] == rest[i]);
        }
        assert(kinds.contains(kinds[0]));
    }
}

proof fn lemma_steps_kept(
    steps: Seq<At<StepModel>>,
    services: Services,
    registry: RegistryModel,
)
    requires
        steps_faults(steps, services, registry).len() == 0,
    ensures
        steps_of(steps, registry).len() == steps.len(),
        forall|i: int|
            0 <= i < steps.len() ==> step_of(steps[i].node, registry) == Some(
                #[trigger] steps_of(steps, registry)[i],
            ) && drivable(steps_of(steps, registry)[i], registry),
    decreases steps.len(),
{
    if steps.len() > 0 {
        let rest = steps.drop_last();
        assert(steps_faults(rest, services, registry).len() == 0);
        assert(step_faults(steps.last(), services, registry).len() == 0);
        lemma_steps_kept(rest, services, registry);
        assert(step_of(steps.last().node, registry) is Some);
        assert forall|i: int| 0 <= i < steps.len() implies step_of(steps[i].node, registry) == Some(
            #[trigger] steps_of(steps, registry)[i],
        ) && drivable(steps_of(steps, registry)[i], registry) by {
            if i < rest.len() {
                assert(steps[i] == rest[i]);
                assert(steps_of(steps, registry)[i] == steps_of(rest, registry)[i]);
            }
        }
    }
}

proof fn lemma_checks_kept(
    predicates: Seq<At<PredicateModel>>,
    services: Services,
    registry: RegistryModel,
)
    requires
        predicates_faults(predicates, services, registry).len() == 0,
    ensures
        checks_of(predicates, services, registry).len() == predicates.len(),
        forall|i: int|
            0 <= i < predicates.len() ==> check_of(predicates[i].node, services, registry) == Some(
                #[trigger] checks_of(predicates, services, registry)[i],
            ) && observable(checks_of(predicates, services, registry)[i], services, registry),
    decreases predicates.len(),
{
    if predicates.len() > 0 {
        let rest = predicates.drop_last();
        let last = predicates.last().node;
        assert(predicates_faults(rest, services, registry).len() == 0);
        assert(predicate_faults(last, services, registry).len() == 0);
        lemma_checks_kept(rest, services, registry);
        assert(check_of(last, services, registry) is Some);
        lemma_answered(
            entry_of(services, last.left.node.head[0].node)->0,
            last.left.node.head.skip(1),
            registry,
        );
        assert forall|i: int| 0 <= i < predicates.len() implies check_of(
            predicates[i].node,
            services,
            registry,
        ) == Some(#[trigger] checks_of(predicates, services, registry)[i]) && observable(
            checks_of(predicates, services, registry)[i],
            services,
            registry,
        ) by {
            if i < rest.len() {
                assert(predicates[i] == rest[i]);
                assert(checks_of(predicates, services, registry)[i] == checks_of(
                    rest,
                    services,
                    registry,
                )[i]);
            }
        }
    }
}

proof fn lemma_no_scenario_faults(
    scenarios: Seq<At<ScenarioModel>>,
    services: Services,
    registry: RegistryModel,
    i: int,
)
    requires
        scenarios_faults(scenarios, services, registry).len() == 0,
        0 <= i < scenarios.len(),
    ensures
        scenario_faults(scenarios[i].node, services, registry).len() == 0,
    decreases scenarios.len(),
{
    let rest = scenarios.drop_last();
    if i < rest.len() {
        lemma_no_scenario_faults(rest, services, registry, i);
        assert(rest[i] == scenarios[i]);
    }
}

/// Nothing a file says is dropped on the way to its plan: each scenario of a
/// file that lowers has one step for every `do`, each calling an operation its
/// driver has, and one check for every predicate, each read from a service of
/// the fleet by a plugin that service speaks. And no scenario waits longer to
/// settle than a campaign can afford.
pub proof fn lemma_plan_says_what_the_file_does(file: FileModel, registry: RegistryModel, k: int)
    requires
        lowered(file, registry) is Ok,
        0 <= k < file.scenarios.len(),
    ensures
        ({
            let plan = lowered(file, registry)->Ok_0;
            let said = file.scenarios[k].node;
            let scenario = plan.scenarios[k];
            let services = services_of(file.fleet.node.services);
            &&& plan.scenarios.len() == file.scenarios.len()
            &&& scenario.steps.len() == said.steps.len()
            &&& forall|i: int|
                0 <= i < said.steps.len() ==> step_of(said.steps[i].node, registry) == Some(
                    #[trigger] scenario.steps[i],
                ) && drivable(scenario.steps[i], registry)
            &&& scenario.checks.len() == said.expect.len()
            &&& forall|i: int|
                0 <= i < said.expect.len() ==> check_of(said.expect[i].node, services, registry)
                    == Some(#[trigger] scenario.checks[i]) && observable(
                    scenario.checks[i],
                    services,
                    registry,
                )
            &&& scenario.consistent_within@ <= longest_settling()@
        }),
{
    let services = services_of(file.fleet.node.services);
    let said = file.scenarios[k].node;
    assert(fleet_faults(file.fleet.node, registry).len() == 0);
    assert(scenarios_faults(file.scenarios, services, registry).len() == 0);
    lemma_no_scenario_faults(file.scenarios, services, registry, k);
    assert(scenario_faults(said, services, registry).len() == 0);
    reveal(scenario_faults);
    assert(steps_faults(said.steps, services, registry).len() == 0);
    assert(predicates_faults(said.expect, services, registry).len() == 0);
    lemma_steps_kept(said.steps, services, registry);
    lemma_checks_kept(said.expect, services, registry);
    assert(plan_of(file, registry).scenarios[k] == scenario_of(said, services, registry));
}

/// A source that does not compile is never refused without a reason.
pub proof fn lemma_refusal_says_why(src: Seq<char>, registry: RegistryModel)
    ensures
        compiled(src, registry) matches Err(diags) ==> diags.len() > 0,
{
    lemma_parse_says_why(lexed(src).tokens);
}

} // verus!
