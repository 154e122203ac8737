//! Which files lower to a plan, said of what they state and of what the plugins
//! declare.

use vstd::prelude::*;

use super::ast::{
    ClauseModel, FileModel, FleetModel, OpCallModel, PredicateModel, ScenarioModel, ServiceModel,
    Stated, StepModel,
};
use super::lower::{
    allows, answered, args_faults, clause_faults, compared, each_faults, entries_in, entry_faults,
    exactly, item_faults, keyword, kinds_faults, kinds_of, lowered, matches_path, matching,
    missing_faults, param_faults, plugin_faults, plugin_names, predicate_faults, predicates_faults,
    required_among, said_of, scenario_faults, scenarios_faults, service_faults, services_faults,
    services_of, stated_faults, step_faults, steps_faults, type_faults, Services,
};
use super::registry::{read_as, ReadModel, RegistryModel};
use super::span::At;
use crate::plan::entry_of;
use crate::schema::{
    ClauseModel as ClauseDeclModel, HeadModel, OpSigModel, ParamModel, ParamType, ValueType,
};

verus! {

/// Whether a value is of a type.
pub open spec fn fits(value: Stated, ty: ValueType) -> bool
    decreases ty,
{
    match ty {
        ValueType::Str => value is Str,
        ValueType::Int => value is Int,
        ValueType::Bool => value is Bool,
        ValueType::Duration => value is Duration,
        ValueType::Scalar => value is Null || value is Str || value is Int || value is Bool
            || value is Duration,
        ValueType::Mapping => value is Mapping,
        ValueType::ServiceRef => value is Ident,
        ValueType::List(inner) => value is List && forall|k: int|
            0 <= k < value->List_0.len() ==> fits((#[trigger] value->List_0[k]).node, *inner),
        ValueType::MapOf(inner) => value is Mapping && forall|k: int|
            0 <= k < value->Mapping_0.len() ==> fits(
                (#[trigger] value->Mapping_0[k]).1.node,
                *inner,
            ),
    }
}

/// A value is found wrong exactly where it is not of the type it should be.
pub proof fn lemma_types(value: At<Stated>, ty: ValueType)
    ensures
        type_faults(value, ty).len() == 0 <==> fits(value.node, ty),
    decreases ty, 0nat,
{
    match ty {
        ValueType::List(inner) => {
            if let Stated::List(items) = value.node {
                lemma_items(items, *inner);
            }
        },
        ValueType::MapOf(inner) => {
            if let Stated::Mapping(entries) = value.node {
                lemma_entries(entries, *inner);
            }
        },
        _ => {},
    }
}

proof fn lemma_items(items: Seq<At<Stated>>, ty: ValueType)
    ensures
        item_faults(items, ty).len() == 0 <==> forall|k: int|
            0 <= k < items.len() ==> fits((#[trigger] items[k]).node, ty),
    decreases ty, items.len() + 1,
{
    if items.len() > 0 {
        let fewer = items.drop_last();
        lemma_items(fewer, ty);
        lemma_types(items.last(), ty);
        assert(items[items.len() - 1] == items.last());
        if item_faults(items, ty).len() == 0 {
            assert forall|k: int| 0 <= k < items.len() implies fits((#[trigger] items[k]).node, ty) by {
                if k < fewer.len() {
                    assert(fewer[k] == items[k]);
                }
            }
        }
        if forall|k: int| 0 <= k < items.len() ==> fits((#[trigger] items[k]).node, ty) {
            assert forall|k: int| 0 <= k < fewer.len() implies fits((#[trigger] fewer[k]).node, ty) by {
                assert(fewer[k] == items[k]);
            }
        }
    }
}

proof fn lemma_entries(
    entries: Seq<(At<Seq<char>>, At<Stated>)>,
    ty: ValueType,
)
    ensures
        entry_faults(entries, ty).len() == 0 <==> forall|k: int|
            0 <= k < entries.len() ==> fits((#[trigger] entries[k]).1.node, ty),
    decreases ty, entries.len() + 1,
{
    if entries.len() > 0 {
        let fewer = entries.drop_last();
        lemma_entries(fewer, ty);
        lemma_types(entries.last().1, ty);
        assert(entries[entries.len() - 1] == entries.last());
        if entry_faults(entries, ty).len() == 0 {
            assert forall|k: int| 0 <= k < entries.len() implies fits(
                (#[trigger] entries[k]).1.node,
                ty,
            ) by {
                if k < fewer.len() {
                    assert(fewer[k] == entries[k]);
                }
            }
        }
        if forall|k: int| 0 <= k < entries.len() ==> fits((#[trigger] entries[k]).1.node, ty) {
            assert forall|k: int| 0 <= k < fewer.len() implies fits(
                (#[trigger] fewer[k]).1.node,
                ty,
            ) by {
                assert(fewer[k] == entries[k]);
            }
        }
    }
}

/// Whether an argument is what a parameter takes. A service it names must be one
/// of the fleet that speaks the plugin that is called.
pub open spec fn takes(
    arg: Stated,
    ty: ParamType,
    plugin: Seq<char>,
    services: Services,
) -> bool {
    match ty {
        ParamType::ServiceRef => arg is Ident && entry_of(services, arg->Ident_0) is Some
            && entry_of(services, arg->Ident_0)->0.contains(plugin),
        ParamType::Path => arg is Str,
        ParamType::Str => arg is Str,
        ParamType::Int => arg is Int,
        ParamType::Ident => arg is Ident,
        ParamType::Matcher => true,
    }
}

/// Whether a call is given what an operation takes: no fewer arguments than it
/// must be, no more than it can be, each what its parameter takes, and no clause
/// it does not declare.
pub open spec fn called_right(
    call: OpCallModel,
    sig: OpSigModel,
    plugin: Seq<char>,
    services: Services,
) -> bool {
    &&& sig.params.filter(|param: ParamModel| param.required).len() <= call.args.len()
        <= sig.params.len()
    &&& forall|k: int|
        0 <= k < call.args.len() ==> takes(
            (#[trigger] call.args[k]).node,
            sig.params[k].ty,
            plugin,
            services,
        )
    &&& forall|k: int|
        0 <= k < call.clauses.len() ==> declares(sig.clauses, (#[trigger] call.clauses[k]).node)
}

/// Whether an operation declares a clause like that.
pub open spec fn declares(clauses: Seq<ClauseDeclModel>, clause: ClauseModel) -> bool {
    let word = if clause is Body {
        "body"@
    } else {
        "where"@
    };
    exists|i: int| 0 <= i < clauses.len() && (#[trigger] clauses[i]).keyword == word
}

proof fn lemma_required(params: Seq<ParamModel>)
    ensures
        required_among(params) == params.filter(|param: ParamModel| param.required).len(),
    decreases params.len(),
{
    reveal(Seq::filter);
    if params.len() > 0 {
        lemma_required(params.drop_last());
    }
}

proof fn lemma_args(
    args: Seq<At<Stated>>,
    params: Seq<ParamModel>,
    plugin: Seq<char>,
    services: Services,
    registry: RegistryModel,
)
    ensures
        each_faults(args, params, plugin, services, registry).len() == 0 <==> forall|k: int|
            0 <= k < args.len() ==> takes(
                (#[trigger] args[k]).node,
                params[k].ty,
                plugin,
                services,
            ),
    decreases args.len(),
{
    if args.len() > 0 {
        let fewer = args.drop_last();
        lemma_args(fewer, params, plugin, services, registry);
        assert(args[args.len() - 1] == args.last());
        assert(param_faults(
            args.last(),
            params[args.len() - 1].ty,
            plugin,
            services,
            registry,
        ).len() == 0 <==> takes(args.last().node, params[args.len() - 1].ty, plugin, services));
        if each_faults(args, params, plugin, services, registry).len() == 0 {
            assert forall|k: int| 0 <= k < args.len() implies takes(
                (#[trigger] args[k]).node,
                params[k].ty,
                plugin,
                services,
            ) by {
                if k < fewer.len() {
                    assert(fewer[k] == args[k]);
                }
            }
        }
        if forall|k: int|
            0 <= k < args.len() ==> takes(
                (#[trigger] args[k]).node,
                params[k].ty,
                plugin,
                services,
            ) {
            assert forall|k: int| 0 <= k < fewer.len() implies takes(
                (#[trigger] fewer[k]).node,
                params[k].ty,
                plugin,
                services,
            ) by {
                assert(fewer[k] == args[k]);
            }
        }
    }
}

proof fn lemma_clauses(clauses: Seq<At<ClauseModel>>, allowed: Seq<ClauseDeclModel>)
    ensures
        clause_faults(clauses, allowed).len() == 0 <==> forall|k: int|
            0 <= k < clauses.len() ==> declares(allowed, (#[trigger] clauses[k]).node),
    decreases clauses.len(),
{
    if clauses.len() > 0 {
        let fewer = clauses.drop_last();
        lemma_clauses(fewer, allowed);
        assert(clauses[clauses.len() - 1] == clauses.last());
        assert(allows(allowed, keyword(clauses.last().node)) <==> declares(
            allowed,
            clauses.last().node,
        ));
        if clause_faults(clauses, allowed).len() == 0 {
            assert forall|k: int| 0 <= k < clauses.len() implies declares(
                allowed,
                (#[trigger] clauses[k]).node,
            ) by {
                if k < fewer.len() {
                    assert(fewer[k] == clauses[k]);
                }
            }
        }
        if forall|k: int|
            0 <= k < clauses.len() ==> declares(allowed, (#[trigger] clauses[k]).node) {
            assert forall|k: int| 0 <= k < fewer.len() implies declares(
                allowed,
                (#[trigger] fewer[k]).node,
            ) by {
                assert(fewer[k] == clauses[k]);
            }
        }
    }
}

proof fn lemma_called(
    call: At<OpCallModel>,
    sig: OpSigModel,
    label: Seq<char>,
    plugin: Seq<char>,
    services: Services,
    registry: RegistryModel,
)
    ensures
        args_faults(call, sig, label, plugin, services, registry).len() == 0 && clause_faults(
            call.node.clauses,
            sig.clauses,
        ).len() == 0 <==> called_right(call.node, sig, plugin, services),
{
    lemma_required(sig.params);
    lemma_args(call.node.args, sig.params, plugin, services, registry);
    lemma_clauses(call.node.clauses, sig.clauses);
}

/// Whether that operation is the first of that name.
pub open spec fn first_named(sigs: Seq<OpSigModel>, name: Seq<char>, k: int) -> bool {
    &&& 0 <= k < sigs.len()
    &&& sigs[k].head == HeadModel::Exact(name)
    &&& forall|h: int| 0 <= h < k ==> (#[trigger] sigs[h]).head != HeadModel::Exact(name)
}

proof fn lemma_exactly(sigs: Seq<OpSigModel>, name: Seq<char>)
    ensures
        exactly(sigs, name) is Some ==> exists|k: int| #[trigger]
            first_named(sigs, name, k) && exactly(sigs, name) == Some(sigs[k]),
        exactly(sigs, name) is None ==> forall|k: int|
            0 <= k < sigs.len() ==> (#[trigger] sigs[k]).head != HeadModel::Exact(name),
    decreases sigs.len(),
{
    if sigs.len() > 0 {
        let rest = sigs.skip(1);
        if sigs[0].head == HeadModel::Exact(name) {
            assert(first_named(sigs, name, 0));
        } else {
            lemma_exactly(rest, name);
            if exactly(rest, name) is Some {
                let k = choose|k: int| #[trigger]
                    first_named(rest, name, k) && exactly(rest, name) == Some(rest[k]);
                assert(rest[k] == sigs[k + 1]);
                assert forall|h: int| 0 <= h < k + 1 implies (#[trigger] sigs[h]).head
                    != HeadModel::Exact(name) by {
                    if h > 0 {
                        assert(rest[h - 1] == sigs[h]);
                    }
                }
                assert(first_named(sigs, name, k + 1));
            } else {
                assert forall|k: int| 0 <= k < sigs.len() implies (#[trigger] sigs[k]).head
                    != HeadModel::Exact(name) by {
                    if k > 0 {
                        assert(rest[k - 1] == sigs[k]);
                    }
                }
            }
        }
    }
}

/// Whether a `do` step calls an operation its driver has, with what that takes.
pub open spec fn step_admitted(
    step: StepModel,
    services: Services,
    registry: RegistryModel,
) -> bool {
    let call = step.action.node;
    &&& call.head.len() == 2
    &&& entry_of(registry.drivers, call.head[0].node) is Some
    &&& exists|k: int| #[trigger]
        first_named(entry_of(registry.drivers, call.head[0].node)->0, call.head[1].node, k)
            && step_fits(
            step,
            entry_of(registry.drivers, call.head[0].node)->0[k],
            services,
        )
}

/// Whether a `do` step is right for an operation.
pub open spec fn step_fits(step: StepModel, sig: OpSigModel, services: Services) -> bool {
    let call = step.action.node;
    &&& called_right(call, sig, call.head[0].node, services)
    &&& step.expect is Some && sig.result is Some ==> fits(step.expect->0.node, sig.result->0)
}

/// A `do` step is found wrong exactly where it is not admitted.
pub proof fn lemma_step(step: At<StepModel>, services: Services, registry: RegistryModel)
    ensures
        step_faults(step, services, registry).len() == 0 <==> step_admitted(
            step.node,
            services,
            registry,
        ),
{
    let call = step.node.action;
    let head = call.node.head;
    if head.len() == 2 {
        if let Some(sigs) = entry_of(registry.drivers, head[0].node) {
            lemma_exactly(sigs, head[1].node);
            if let Some(sig) = exactly(sigs, head[1].node) {
                lemma_called(call, sig, head[0].node, head[0].node, services, registry);
                if step.node.expect is Some && sig.result is Some {
                    lemma_types(step.node.expect->0, sig.result->0);
                }
                let k = choose|k: int| #[trigger]
                    first_named(sigs, head[1].node, k) && exactly(sigs, head[1].node) == Some(
                        sigs[k],
                    );
                assert(step_faults(step, services, registry).len() == 0 <==> step_fits(
                    step.node,
                    sig,
                    services,
                ));
                assert forall|h: int| #[trigger] first_named(sigs, head[1].node, h) implies h == k by {
                    if h < k {
                        assert(sigs[h].head == HeadModel::Exact(head[1].node));
                    } else if k < h {
                        assert(sigs[k].head == HeadModel::Exact(head[1].node));
                    }
                }
            } else {
                assert forall|h: int| !#[trigger] first_named(sigs, head[1].node, h) by {
                    if first_named(sigs, head[1].node, h) {
                        assert(sigs[h].head == HeadModel::Exact(head[1].node));
                    }
                }
            }
        }
    }
}

/// Whether a predicate compares what a plugin its service speaks answers with a
/// value of the same type, in a way that can be compared, and asks for it with
/// what that takes.
pub open spec fn predicate_admitted(
    predicate: PredicateModel,
    services: Services,
    registry: RegistryModel,
) -> bool {
    let call = predicate.left.node;
    &&& call.head.len() > 0
    &&& entry_of(services, call.head[0].node) is Some
    &&& answered(
        entry_of(services, call.head[0].node)->0,
        call.head.skip(1),
        registry,
    ) matches Some(found) && {
        &&& called_right(call, found.1, found.0, services)
        &&& found.1.result is Some
        &&& found.1.cmp_ops.contains(compared(predicate.op.node))
        &&& fits(predicate.right.node, found.1.result->0)
    }
}

/// A predicate is found wrong exactly where it is not admitted.
pub proof fn lemma_predicate(
    predicate: PredicateModel,
    services: Services,
    registry: RegistryModel,
)
    ensures
        predicate_faults(predicate, services, registry).len() == 0 <==> predicate_admitted(
            predicate,
            services,
            registry,
        ),
{
    let call = predicate.left;
    if call.node.head.len() > 0 {
        let path = call.node.head.skip(1);
        if let Some(kinds) = entry_of(services, call.node.head[0].node) {
            if let Some((observer, sig)) = answered(kinds, path, registry) {
                lemma_called(
                    call,
                    sig,
                    crate::text::joined(super::lower::segments(path), "."@),
                    observer,
                    services,
                    registry,
                );
                if let Some(result) = sig.result {
                    lemma_types(predicate.right, result);
                }
            }
        }
    }
}

/// Whether that is what answers a path among the plugins a service speaks: the
/// first that has an answer of that shape, and its first such answer.
pub open spec fn answers_first(
    kinds: Seq<Seq<char>>,
    path: Seq<At<Seq<char>>>,
    registry: RegistryModel,
    k: int,
    s: int,
) -> bool {
    &&& 0 <= k < kinds.len()
    &&& entry_of(registry.observers, kinds[k]) is Some
    &&& first_of_shape(entry_of(registry.observers, kinds[k])->0, path, s)
    &&& forall|h: int| 0 <= h < k ==> answers_nothing(#[trigger] kinds[h], path, registry)
}

/// Whether a plugin has no answer of that shape.
pub open spec fn answers_nothing(
    kind: Seq<char>,
    path: Seq<At<Seq<char>>>,
    registry: RegistryModel,
) -> bool {
    entry_of(registry.observers, kind) is Some ==> forall|s: int|
        0 <= s < entry_of(registry.observers, kind)->0.len() ==> !has_shape(
            (#[trigger] entry_of(registry.observers, kind)->0[s]).head,
            path,
        )
}

/// Whether a path has the shape of an answer: its one name, or as many names as it
/// leaves open and then its last.
pub open spec fn has_shape(head: HeadModel, path: Seq<At<Seq<char>>>) -> bool {
    match head {
        HeadModel::Exact(name) => path.len() == 1 && path[0].node == name,
        HeadModel::Wildcard { segments, tail } => path.len() == segments.len() + 1 && path[path.len()
            - 1].node == tail,
    }
}

/// Whether that answer is the first of that shape.
pub open spec fn first_of_shape(
    sigs: Seq<OpSigModel>,
    path: Seq<At<Seq<char>>>,
    s: int,
) -> bool {
    &&& 0 <= s < sigs.len()
    &&& has_shape(sigs[s].head, path)
    &&& forall|h: int| 0 <= h < s ==> !has_shape((#[trigger] sigs[h]).head, path)
}

proof fn lemma_matching(sigs: Seq<OpSigModel>, path: Seq<At<Seq<char>>>)
    ensures
        matching(sigs, path) is Some ==> exists|s: int| #[trigger]
            first_of_shape(sigs, path, s) && matching(sigs, path) == Some(sigs[s]),
        matching(sigs, path) is None ==> forall|s: int|
            0 <= s < sigs.len() ==> !has_shape((#[trigger] sigs[s]).head, path),
    decreases sigs.len(),
{
    if sigs.len() > 0 {
        let rest = sigs.skip(1);
        assert(matches_path(sigs[0].head, path) <==> has_shape(sigs[0].head, path));
        if has_shape(sigs[0].head, path) {
            assert(first_of_shape(sigs, path, 0));
        } else {
            lemma_matching(rest, path);
            if matching(rest, path) is Some {
                let s = choose|s: int| #[trigger]
                    first_of_shape(rest, path, s) && matching(rest, path) == Some(rest[s]);
                assert(rest[s] == sigs[s + 1]);
                assert forall|h: int| 0 <= h < s + 1 implies !has_shape(
                    (#[trigger] sigs[h]).head,
                    path,
                ) by {
                    if h > 0 {
                        assert(rest[h - 1] == sigs[h]);
                    }
                }
                assert(first_of_shape(sigs, path, s + 1));
            } else {
                assert forall|s: int| 0 <= s < sigs.len() implies !has_shape(
                    (#[trigger] sigs[s]).head,
                    path,
                ) by {
                    if s > 0 {
                        assert(rest[s - 1] == sigs[s]);
                    }
                }
            }
        }
    }
}

/// What answers a path is the first answer of its shape that a plugin the service
/// speaks has, in the order it says it speaks them. Nothing does where none has.
pub proof fn lemma_answered_first(
    kinds: Seq<Seq<char>>,
    path: Seq<At<Seq<char>>>,
    registry: RegistryModel,
)
    ensures
        answered(kinds, path, registry) is Some ==> exists|k: int, s: int| #[trigger]
            answers_first(kinds, path, registry, k, s) && answered(kinds, path, registry) == Some(
                (kinds[k], entry_of(registry.observers, kinds[k])->0[s]),
            ),
        answered(kinds, path, registry) is None ==> forall|k: int|
            0 <= k < kinds.len() ==> answers_nothing(#[trigger] kinds[k], path, registry),
    decreases kinds.len(),
{
    if kinds.len() > 0 {
        let rest = kinds.skip(1);
        lemma_answered_first(rest, path, registry);
        if let Some(sigs) = entry_of(registry.observers, kinds[0]) {
            lemma_matching(sigs, path);
            if let Some(sig) = matching(sigs, path) {
                let s = choose|s: int| #[trigger]
                    first_of_shape(sigs, path, s) && matching(sigs, path) == Some(sigs[s]);
                assert(answers_first(kinds, path, registry, 0, s));
            }
        }
        if answered(kinds, path, registry) == answered(rest, path, registry) && answers_nothing(
            kinds[0],
            path,
            registry,
        ) {
            if answered(rest, path, registry) is Some {
                let (k, s) = choose|k: int, s: int| #[trigger]
                    answers_first(rest, path, registry, k, s) && answered(rest, path, registry)
                        == Some((rest[k], entry_of(registry.observers, rest[k])->0[s]));
                assert(rest[k] == kinds[k + 1]);
                assert forall|h: int| 0 <= h < k + 1 implies answers_nothing(
                    #[trigger] kinds[h],
                    path,
                    registry,
                ) by {
                    if h > 0 {
                        assert(rest[h - 1] == kinds[h]);
                    }
                }
                assert(answers_first(kinds, path, registry, k + 1, s));
            } else {
                assert forall|k: int| 0 <= k < kinds.len() implies answers_nothing(
                    #[trigger] kinds[k],
                    path,
                    registry,
                ) by {
                    if k > 0 {
                        assert(rest[k - 1] == kinds[k]);
                    }
                }
            }
        }
    }
}

/// Whether that is the first thing said under a name.
pub open spec fn first_said(
    entries: Seq<(At<Seq<char>>, At<Stated>)>,
    name: Seq<char>,
    k: int,
) -> bool {
    &&& 0 <= k < entries.len()
    &&& entries[k].0.node == name
    &&& forall|h: int| 0 <= h < k ==> (#[trigger] entries[h]).0.node != name
}

/// Whether nothing is said under a name.
pub open spec fn never_said(
    entries: Seq<(At<Seq<char>>, At<Stated>)>,
    name: Seq<char>,
) -> bool {
    forall|k: int| 0 <= k < entries.len() ==> (#[trigger] entries[k]).0.node != name
}

/// What a map says under a name is what it first says under it.
pub proof fn lemma_said(entries: Seq<(At<Seq<char>>, At<Stated>)>, name: Seq<char>)
    ensures
        said_of(entries, name) is Some ==> exists|k: int| #[trigger]
            first_said(entries, name, k) && said_of(entries, name) == Some(entries[k].1),
        said_of(entries, name) is None <==> never_said(entries, name),
    decreases entries.len(),
{
    if entries.len() > 0 {
        let rest = entries.skip(1);
        if entries[0].0.node == name {
            assert(first_said(entries, name, 0));
        } else {
            lemma_said(rest, name);
            if said_of(rest, name) is Some {
                let k = choose|k: int| #[trigger]
                    first_said(rest, name, k) && said_of(rest, name) == Some(rest[k].1);
                assert(rest[k] == entries[k + 1]);
                assert forall|h: int| 0 <= h < k + 1 implies (#[trigger] entries[h]).0.node
                    != name by {
                    if h > 0 {
                        assert(rest[h - 1] == entries[h]);
                    }
                }
                assert(first_said(entries, name, k + 1));
            } else {
                assert forall|k: int| 0 <= k < entries.len() implies (
                #[trigger] entries[k]).0.node != name by {
                    if k > 0 {
                        assert(rest[k - 1] == entries[k]);
                    }
                }
            }
        }
    }
}

/// Whether those are the plugins that are listed: their names, all of them, in
/// order.
pub open spec fn names_all(items: Seq<At<Stated>>, names: Seq<Seq<char>>) -> bool {
    &&& names.len() == items.len()
    &&& forall|k: int|
        0 <= k < items.len() ==> (#[trigger] items[k]).node == Stated::Ident(names[k])
}

proof fn lemma_plugins(items: Seq<At<Stated>>)
    ensures
        plugin_faults(items).len() == 0 <==> forall|k: int|
            0 <= k < items.len() ==> (#[trigger] items[k]).node is Ident,
        plugin_faults(items).len() == 0 ==> names_all(items, plugin_names(items)),
    decreases items.len(),
{
    if items.len() > 0 {
        let fewer = items.drop_last();
        lemma_plugins(fewer);
        assert(items[items.len() - 1] == items.last());
        if plugin_faults(items).len() == 0 {
            assert forall|k: int| 0 <= k < items.len() implies (#[trigger] items[k]).node
                == Stated::Ident(plugin_names(items)[k]) by {
                if k < fewer.len() {
                    assert(fewer[k] == items[k]);
                }
            }
        }
        if forall|k: int| 0 <= k < items.len() ==> (#[trigger] items[k]).node is Ident {
            assert forall|k: int| 0 <= k < fewer.len() implies (
            #[trigger] fewer[k]).node is Ident by {
                assert(fewer[k] == items[k]);
            }
        }
    }
}

/// Whether a service says what it speaks as a list of plugin names, where it says
/// it at all.
pub open spec fn kinds_admitted(attrs: Stated, kinds: Seq<Seq<char>>) -> bool {
    let entries = entries_in(attrs);
    if never_said(entries, "kinds"@) {
        kinds.len() == 0
    } else {
        exists|k: int| #[trigger]
            first_said(entries, "kinds"@, k) && entries[k].1.node is List && names_all(
                entries[k].1.node->List_0,
                kinds,
            )
    }
}

/// What a service speaks is found wrong exactly where it is not a list of plugin
/// names. It speaks the plugins it lists, in order, and none where it says nothing
/// of them.
pub proof fn lemma_kinds(attrs: Stated)
    ensures
        kinds_faults(attrs).len() == 0 <==> exists|kinds: Seq<Seq<char>>| #[trigger]
            kinds_admitted(attrs, kinds),
        kinds_faults(attrs).len() == 0 ==> kinds_admitted(attrs, kinds_of(attrs)),
{
    let entries = entries_in(attrs);
    lemma_said(entries, "kinds"@);
    if never_said(entries, "kinds"@) {
        assert(kinds_admitted(attrs, kinds_of(attrs)));
    } else {
        let k = choose|k: int| #[trigger]
            first_said(entries, "kinds"@, k) && said_of(entries, "kinds"@) == Some(entries[k].1);
        assert forall|h: int| #[trigger] first_said(entries, "kinds"@, h) implies h == k by {
            if h < k {
                assert(entries[h].0.node == "kinds"@);
            } else if k < h {
                assert(entries[k].0.node == "kinds"@);
            }
        }
        if let Stated::List(items) = entries[k].1.node {
            lemma_plugins(items);
            if kinds_faults(attrs).len() == 0 {
                assert(kinds_admitted(attrs, kinds_of(attrs)));
            }
            if exists|kinds: Seq<Seq<char>>| #[trigger] kinds_admitted(attrs, kinds) {
                let kinds = choose|kinds: Seq<Seq<char>>| #[trigger] kinds_admitted(attrs, kinds);
                let h = choose|h: int| #[trigger]
                    first_said(entries, "kinds"@, h) && entries[h].1.node is List && names_all(
                        entries[h].1.node->List_0,
                        kinds,
                    );
                assert(h == k);
                assert forall|t: int| 0 <= t < items.len() implies (
                #[trigger] items[t]).node is Ident by {
                    assert(items[t].node == Stated::Ident(kinds[t]));
                }
            }
        }
    }
}

/// Whether that is the first attribute of a name that is read.
pub open spec fn first_read(reads: Seq<ReadModel>, name: Seq<char>, k: int) -> bool {
    &&& 0 <= k < reads.len()
    &&& reads[k].decl.name == name
    &&& forall|h: int| 0 <= h < k ==> (#[trigger] reads[h]).decl.name != name
}

proof fn lemma_read_as(reads: Seq<ReadModel>, name: Seq<char>)
    ensures
        read_as(reads, name) is Some ==> exists|k: int| #[trigger]
            first_read(reads, name, k) && read_as(reads, name) == Some(reads[k]),
        read_as(reads, name) is None ==> forall|k: int|
            0 <= k < reads.len() ==> (#[trigger] reads[k]).decl.name != name,
    decreases reads.len(),
{
    if reads.len() > 0 {
        let rest = reads.skip(1);
        if reads[0].decl.name == name {
            assert(first_read(reads, name, 0));
        } else {
            lemma_read_as(rest, name);
            if read_as(rest, name) is Some {
                let k = choose|k: int| #[trigger]
                    first_read(rest, name, k) && read_as(rest, name) == Some(rest[k]);
                assert(rest[k] == reads[k + 1]);
                assert forall|h: int| 0 <= h < k + 1 implies (#[trigger] reads[h]).decl.name
                    != name by {
                    if h > 0 {
                        assert(rest[h - 1] == reads[h]);
                    }
                }
                assert(first_read(reads, name, k + 1));
            } else {
                assert forall|k: int| 0 <= k < reads.len() implies (
                #[trigger] reads[k]).decl.name != name by {
                    if k > 0 {
                        assert(rest[k - 1] == reads[k]);
                    }
                }
            }
        }
    }
}

/// Whether an attribute is one that is read, and of the type it is read as. What a
/// service speaks is said among them, and is none of them.
pub open spec fn entry_admitted(
    entry: (At<Seq<char>>, At<Stated>),
    reads: Seq<ReadModel>,
) -> bool {
    entry.0.node == "kinds"@ || exists|k: int| #[trigger]
        first_read(reads, entry.0.node, k) && fits(entry.1.node, reads[k].decl.ty)
}

proof fn lemma_entry(entry: (At<Seq<char>>, At<Stated>), reads: Seq<ReadModel>)
    ensures
        entry_admitted(entry, reads) <==> entry.0.node == "kinds"@ || (read_as(
            reads,
            entry.0.node,
        ) is Some && type_faults(entry.1, read_as(reads, entry.0.node)->0.decl.ty).len() == 0),
{
    let name = entry.0.node;
    lemma_read_as(reads, name);
    if read_as(reads, name) is Some {
        let k = choose|k: int| #[trigger]
            first_read(reads, name, k) && read_as(reads, name) == Some(reads[k]);
        lemma_types(entry.1, reads[k].decl.ty);
        assert forall|h: int| #[trigger] first_read(reads, name, h) implies h == k by {
            if h < k {
                assert(reads[h].decl.name == name);
            } else if k < h {
                assert(reads[k].decl.name == name);
            }
        }
    } else {
        assert forall|h: int| !#[trigger] first_read(reads, name, h) by {
            if first_read(reads, name, h) {
                assert(reads[h].decl.name == name);
            }
        }
    }
}

proof fn lemma_stated(entries: Seq<(At<Seq<char>>, At<Stated>)>, reads: Seq<ReadModel>)
    ensures
        stated_faults(entries, reads).len() == 0 <==> forall|k: int|
            0 <= k < entries.len() ==> entry_admitted(#[trigger] entries[k], reads),
    decreases entries.len(),
{
    if entries.len() > 0 {
        let fewer = entries.drop_last();
        lemma_stated(fewer, reads);
        lemma_entry(entries.last(), reads);
        assert(entries[entries.len() - 1] == entries.last());
        if stated_faults(entries, reads).len() == 0 {
            assert forall|k: int| 0 <= k < entries.len() implies entry_admitted(
                #[trigger] entries[k],
                reads,
            ) by {
                if k < fewer.len() {
                    assert(fewer[k] == entries[k]);
                }
            }
        }
        if forall|k: int| 0 <= k < entries.len() ==> entry_admitted(#[trigger] entries[k], reads) {
            assert forall|k: int| 0 <= k < fewer.len() implies entry_admitted(
                #[trigger] fewer[k],
                reads,
            ) by {
                assert(fewer[k] == entries[k]);
            }
        }
    }
}

/// Whether an attribute is stated, where it must be.
pub open spec fn stated_if_owed(
    read: ReadModel,
    entries: Seq<(At<Seq<char>>, At<Stated>)>,
) -> bool {
    read.decl.required ==> !never_said(entries, read.decl.name)
}

proof fn lemma_missing(
    name: At<Seq<char>>,
    entries: Seq<(At<Seq<char>>, At<Stated>)>,
    reads: Seq<ReadModel>,
)
    ensures
        missing_faults(name, entries, reads).len() == 0 <==> forall|k: int|
            0 <= k < reads.len() ==> stated_if_owed(#[trigger] reads[k], entries),
    decreases reads.len(),
{
    if reads.len() > 0 {
        let fewer = reads.drop_last();
        lemma_missing(name, entries, fewer);
        lemma_said(entries, reads.last().decl.name);
        assert(reads[reads.len() - 1] == reads.last());
        if missing_faults(name, entries, reads).len() == 0 {
            assert forall|k: int| 0 <= k < reads.len() implies stated_if_owed(
                #[trigger] reads[k],
                entries,
            ) by {
                if k < fewer.len() {
                    assert(fewer[k] == reads[k]);
                }
            }
        }
        if forall|k: int|
            0 <= k < reads.len() ==> stated_if_owed(#[trigger] reads[k], entries) {
            assert forall|k: int| 0 <= k < fewer.len() implies stated_if_owed(
                #[trigger] fewer[k],
                entries,
            ) by {
                assert(fewer[k] == reads[k]);
            }
        }
    }
}

/// Whether a service lists the plugins it speaks, those and the deployment can
/// read it together, everything it states is read and of the type it is read as,
/// and everything that must be stated is.
pub open spec fn service_admitted(
    service: ServiceModel,
    deployment: Seq<char>,
    registry: RegistryModel,
) -> bool {
    let entries = entries_in(service.attrs.node);
    let kinds = kinds_of(service.attrs.node);
    &&& kinds_admitted(service.attrs.node, kinds)
    &&& registry.service_schema(deployment, kinds) matches Ok(reads) && {
        &&& forall|k: int| 0 <= k < entries.len() ==> entry_admitted(#[trigger] entries[k], reads)
        &&& forall|k: int|
            0 <= k < reads.len() ==> stated_if_owed(#[trigger] reads[k], entries)
    }
}

/// A service of a fleet that a known plugin brings up is found wrong exactly where
/// it is not admitted.
pub proof fn lemma_service(
    service: ServiceModel,
    deployment: Seq<char>,
    registry: RegistryModel,
)
    requires
        service.attrs.node is Mapping,
        entry_of(registry.deployments, deployment) is Some,
    ensures
        service_faults(service, deployment, registry).len() == 0 <==> service_admitted(
            service,
            deployment,
            registry,
        ),
{
    let entries = entries_in(service.attrs.node);
    let kinds = kinds_of(service.attrs.node);
    lemma_kinds(service.attrs.node);
    if let Ok(reads) = registry.service_schema(deployment, kinds) {
        lemma_stated(entries, reads);
        lemma_missing(service.name, entries, reads);
    }
}

/// Whether a fleet is brought up by a plugin there is, and each of its services is
/// admitted.
pub open spec fn fleet_admitted(fleet: FleetModel, registry: RegistryModel) -> bool {
    &&& entry_of(registry.deployments, fleet.deployment.node) is Some
    &&& forall|k: int|
        0 <= k < fleet.services.len() ==> service_admitted(
            (#[trigger] fleet.services[k]).node,
            fleet.deployment.node,
            registry,
        )
}

proof fn lemma_services(
    services: Seq<At<ServiceModel>>,
    deployment: Seq<char>,
    registry: RegistryModel,
)
    requires
        forall|k: int|
            0 <= k < services.len() ==> (#[trigger] services[k]).node.attrs.node is Mapping,
        entry_of(registry.deployments, deployment) is Some,
    ensures
        services_faults(services, deployment, registry).len() == 0 <==> forall|k: int|
            0 <= k < services.len() ==> service_admitted(
                (#[trigger] services[k]).node,
                deployment,
                registry,
            ),
    decreases services.len(),
{
    if services.len() > 0 {
        let fewer = services.drop_last();
        assert forall|k: int| 0 <= k < fewer.len() implies (
        #[trigger] fewer[k]).node.attrs.node is Mapping by {
            assert(fewer[k] == services[k]);
        }
        lemma_services(fewer, deployment, registry);
        assert(services[services.len() - 1] == services.last());
        lemma_service(services.last().node, deployment, registry);
        if services_faults(services, deployment, registry).len() == 0 {
            assert forall|k: int| 0 <= k < services.len() implies service_admitted(
                (#[trigger] services[k]).node,
                deployment,
                registry,
            ) by {
                if k < fewer.len() {
                    assert(fewer[k] == services[k]);
                }
            }
        }
        if forall|k: int|
            0 <= k < services.len() ==> service_admitted(
                (#[trigger] services[k]).node,
                deployment,
                registry,
            ) {
            assert forall|k: int| 0 <= k < fewer.len() implies service_admitted(
                (#[trigger] fewer[k]).node,
                deployment,
                registry,
            ) by {
                assert(fewer[k] == services[k]);
            }
        }
    }
}

/// Whether every step and every predicate of a scenario is admitted, and it asks
/// for no more than half a minute to settle.
pub open spec fn scenario_admitted(
    scenario: ScenarioModel,
    services: Services,
    registry: RegistryModel,
) -> bool {
    &&& forall|k: int|
        0 <= k < scenario.steps.len() ==> step_admitted(
            (#[trigger] scenario.steps[k]).node,
            services,
            registry,
        )
    &&& forall|k: int|
        0 <= k < scenario.expect.len() ==> predicate_admitted(
            (#[trigger] scenario.expect[k]).node,
            services,
            registry,
        )
    &&& scenario.consistent_within.node@ <= 30_000_000_000
}

proof fn lemma_steps(
    steps: Seq<At<StepModel>>,
    services: Services,
    registry: RegistryModel,
)
    ensures
        steps_faults(steps, services, registry).len() == 0 <==> forall|k: int|
            0 <= k < steps.len() ==> step_admitted(
                (#[trigger] steps[k]).node,
                services,
                registry,
            ),
    decreases steps.len(),
{
    if steps.len() > 0 {
        let fewer = steps.drop_last();
        lemma_steps(fewer, services, registry);
        assert(steps[steps.len() - 1] == steps.last());
        lemma_step(steps.last(), services, registry);
        if steps_faults(steps, services, registry).len() == 0 {
            assert forall|k: int| 0 <= k < steps.len() implies step_admitted(
                (#[trigger] steps[k]).node,
                services,
                registry,
            ) by {
                if k < fewer.len() {
                    assert(fewer[k] == steps[k]);
                }
            }
        }
        if forall|k: int|
            0 <= k < steps.len() ==> step_admitted((#[trigger] steps[k]).node, services, registry) {
            assert forall|k: int| 0 <= k < fewer.len() implies step_admitted(
                (#[trigger] fewer[k]).node,
                services,
                registry,
            ) by {
                assert(fewer[k] == steps[k]);
            }
        }
    }
}

proof fn lemma_predicates(
    predicates: Seq<At<PredicateModel>>,
    services: Services,
    registry: RegistryModel,
)
    ensures
        predicates_faults(predicates, services, registry).len() == 0 <==> forall|k: int|
            0 <= k < predicates.len() ==> predicate_admitted(
                (#[trigger] predicates[k]).node,
                services,
                registry,
            ),
    decreases predicates.len(),
{
    if predicates.len() > 0 {
        let fewer = predicates.drop_last();
        lemma_predicates(fewer, services, registry);
        assert(predicates[predicates.len() - 1] == predicates.last());
        lemma_predicate(predicates.last().node, services, registry);
        if predicates_faults(predicates, services, registry).len() == 0 {
            assert forall|k: int| 0 <= k < predicates.len() implies predicate_admitted(
                (#[trigger] predicates[k]).node,
                services,
                registry,
            ) by {
                if k < fewer.len() {
                    assert(fewer[k] == predicates[k]);
                }
            }
        }
        if forall|k: int|
            0 <= k < predicates.len() ==> predicate_admitted(
                (#[trigger] predicates[k]).node,
                services,
                registry,
            ) {
            assert forall|k: int| 0 <= k < fewer.len() implies predicate_admitted(
                (#[trigger] fewer[k]).node,
                services,
                registry,
            ) by {
                assert(fewer[k] == predicates[k]);
            }
        }
    }
}

/// A scenario is found wrong exactly where it is not admitted.
pub proof fn lemma_scenario(
    scenario: ScenarioModel,
    services: Services,
    registry: RegistryModel,
)
    ensures
        scenario_faults(scenario, services, registry).len() == 0 <==> scenario_admitted(
            scenario,
            services,
            registry,
        ),
{
    reveal(scenario_faults);
    lemma_steps(scenario.steps, services, registry);
    lemma_predicates(scenario.expect, services, registry);
    crate::time::lemma_spans_made(30);
}

proof fn lemma_scenarios(
    scenarios: Seq<At<ScenarioModel>>,
    services: Services,
    registry: RegistryModel,
)
    ensures
        scenarios_faults(scenarios, services, registry).len() == 0 <==> forall|k: int|
            0 <= k < scenarios.len() ==> scenario_admitted(
                (#[trigger] scenarios[k]).node,
                services,
                registry,
            ),
    decreases scenarios.len(),
{
    if scenarios.len() > 0 {
        let fewer = scenarios.drop_last();
        lemma_scenarios(fewer, services, registry);
        assert(scenarios[scenarios.len() - 1] == scenarios.last());
        lemma_scenario(scenarios.last().node, services, registry);
        if scenarios_faults(scenarios, services, registry).len() == 0 {
            assert forall|k: int| 0 <= k < scenarios.len() implies scenario_admitted(
                (#[trigger] scenarios[k]).node,
                services,
                registry,
            ) by {
                if k < fewer.len() {
                    assert(fewer[k] == scenarios[k]);
                }
            }
        }
        if forall|k: int|
            0 <= k < scenarios.len() ==> scenario_admitted(
                (#[trigger] scenarios[k]).node,
                services,
                registry,
            ) {
            assert forall|k: int| 0 <= k < fewer.len() implies scenario_admitted(
                (#[trigger] fewer[k]).node,
                services,
                registry,
            ) by {
                assert(fewer[k] == scenarios[k]);
            }
        }
    }
}

/// A file lowers exactly where its fleet and every scenario of it is admitted.
/// One that does not is told something.
pub proof fn lemma_file_admitted(file: FileModel, registry: RegistryModel)
    requires
        forall|k: int|
            0 <= k < file.fleet.node.services.len() ==> (
            #[trigger] file.fleet.node.services[k]).node.attrs.node is Mapping,
    ensures
        lowered(file, registry) is Ok <==> {
            &&& fleet_admitted(file.fleet.node, registry)
            &&& forall|k: int|
                0 <= k < file.scenarios.len() ==> scenario_admitted(
                    (#[trigger] file.scenarios[k]).node,
                    services_of(file.fleet.node.services),
                    registry,
                )
        },
        lowered(file, registry) matches Err(diags) ==> diags.len() > 0,
{
    let fleet = file.fleet.node;
    if entry_of(registry.deployments, fleet.deployment.node) is Some {
        lemma_services(fleet.services, fleet.deployment.node, registry);
    }
    lemma_scenarios(file.scenarios, services_of(fleet.services), registry);
}

/// Whether that is the last service of a name.
pub open spec fn last_named(services: Seq<At<ServiceModel>>, name: Seq<char>, k: int) -> bool {
    &&& 0 <= k < services.len()
    &&& services[k].node.name.node == name
    &&& forall|h: int| k < h < services.len() ==> (#[trigger] services[h]).node.name.node != name
}

proof fn lemma_entry_kept(
    services: Services,
    name: Seq<char>,
    other: Seq<char>,
    kinds: Seq<Seq<char>>,
)
    ensures
        entry_of(super::lower::with_service(services, name, kinds), other) == (if other == name {
            Some(kinds)
        } else {
            entry_of(services, other)
        }),
    decreases services.len(),
{
    let keep = super::lower::named_other(name);
    let all = super::lower::with_service(services, name, kinds);
    if services.len() == 0 {
        assert(services.filter(keep) =~= Seq::empty()) by {
            reveal(Seq::filter);
        }
        assert(all =~= seq![(name, kinds)]);
        assert(all[0] == (name, kinds));
        assert(all.skip(1) =~= Seq::empty());
        assert(entry_of(all.skip(1), other) is None);
    } else {
        let rest = services.skip(1);
        lemma_entry_kept(rest, name, other, kinds);
        assert(services =~= seq![services[0]] + rest);
        lemma_filter_first(services, keep);
        let few = super::lower::with_service(rest, name, kinds);
        if keep(services[0]) {
            assert(all =~= seq![services[0]] + few);
            assert(all[0] == services[0]);
            assert(all.skip(1) =~= few);
        } else {
            assert(all =~= few);
        }
    }
}

proof fn lemma_filter_first<T>(s: Seq<T>, keep: spec_fn(T) -> bool)
    requires
        s.len() > 0,
    ensures
        s.filter(keep) == (if keep(s[0]) {
            seq![s[0]] + s.skip(1).filter(keep)
        } else {
            s.skip(1).filter(keep)
        }),
    decreases s.len(),
{
    reveal(Seq::filter);
    if s.len() == 1 {
        assert(s.drop_last() =~= Seq::empty());
        assert(s.skip(1) =~= Seq::empty());
        assert(s.drop_last().filter(keep) =~= Seq::empty());
        assert(s.filter(keep) =~= (if keep(s[0]) {
            seq![s[0]]
        } else {
            Seq::empty()
        }));
    } else {
        let fewer = s.drop_last();
        lemma_filter_first(fewer, keep);
        assert(fewer.skip(1) =~= s.skip(1).drop_last());
        assert(s.skip(1).last() == s.last());
        assert(s.filter(keep) =~= (if keep(s[0]) {
            seq![s[0]] + s.skip(1).filter(keep)
        } else {
            s.skip(1).filter(keep)
        }));
    }
}

/// A service is known by its name, and where two have one, by the last that has
/// it.
pub proof fn lemma_services_by_name(services: Seq<At<ServiceModel>>, name: Seq<char>)
    ensures
        entry_of(services_of(services), name) is Some <==> exists|k: int| #[trigger]
            last_named(services, name, k),
        forall|k: int| #[trigger]
            last_named(services, name, k) ==> entry_of(services_of(services), name) == Some(
                kinds_of(services[k].node.attrs.node),
            ),
    decreases services.len(),
{
    if services.len() > 0 {
        let fewer = services.drop_last();
        let last = services.last().node;
        lemma_services_by_name(fewer, name);
        lemma_entry_kept(
            services_of(fewer),
            last.name.node,
            name,
            kinds_of(last.attrs.node),
        );
        if last.name.node == name {
            assert(last_named(services, name, services.len() - 1));
            assert forall|k: int| #[trigger] last_named(services, name, k) implies k
                == services.len() - 1 by {
                if k < services.len() - 1 {
                    assert(services[services.len() - 1].node.name.node == name);
                }
            }
        } else {
            assert forall|k: int| #[trigger] last_named(services, name, k) implies last_named(
                fewer,
                name,
                k,
            ) by {
                assert(services[services.len() - 1] == services.last());
                assert forall|h: int| k < h < fewer.len() implies (
                #[trigger] fewer[h]).node.name.node != name by {
                    assert(fewer[h] == services[h]);
                }
            }
            if exists|k: int| #[trigger] last_named(fewer, name, k) {
                let k = choose|k: int| #[trigger] last_named(fewer, name, k);
                assert forall|h: int| k < h < services.len() implies (
                #[trigger] services[h]).node.name.node != name by {
                    if h < fewer.len() {
                        assert(fewer[h] == services[h]);
                    }
                }
                assert(last_named(services, name, k));
            }
        }
    }
}

/// What a service is given besides the plugins it speaks is what it states of
/// everything else, in order.
pub proof fn lemma_attributes(entries: Seq<(At<Seq<char>>, At<Stated>)>)
    ensures
        ({
            let stated = entries.filter(
                |entry: (At<Seq<char>>, At<Stated>)| entry.0.node != "kinds"@,
            );
            let given = super::lower::besides_kinds(entries);
            &&& given.len() == stated.len()
            &&& forall|k: int|
                0 <= k < given.len() ==> (#[trigger] given[k]).0 == stated[k].0.node && given[k].1
                    == super::lower::meant(stated[k].1.node)
        }),
    decreases entries.len(),
{
    reveal(Seq::filter);
    if entries.len() > 0 {
        lemma_attributes(entries.drop_last());
    }
}

} // verus!
