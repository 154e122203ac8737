//! Lowering a parsed file to a [`plan::Plan`], resolving plugins and validating
//! service attributes and operation signatures as it goes.

use vstd::prelude::*;

use vstd::string::*;

use super::ast;
use super::ast::{
    lemma_list_stated, lemma_map_stated, Clause, ClauseModel, OpCall, OpCallModel, PredicateModel,
    Stated, Value,
};
use super::diagnostics::{Diag, DiagModel};
use super::registry::{
    entry_names, find_entry, names_of, read_as, ReadModel, Registry, RegistryModel, ServiceSchema,
};
use super::span::{At, Span, Spanned};
use crate::plan;
use crate::plan::{
    entry_of, lemma_list_literal, lemma_map_literal, longest_settling, max_consistent_within,
    CheckModel, Literal,
};
use crate::schema::{
    ClauseModel as ClauseDeclModel, CmpOp, HeadModel, HeadPattern, OpSig, OpSigModel, Param,
    ParamModel, ParamType, ValueType,
};
use crate::sorting::{lemma_sorted_map, sort_stable, stable_sorted};
use crate::text::{Order, around, clone_texts, decimal, join, joined, order_texts, same, spell, text_order};

verus! {

/// A service of the fleet, by name, and the plugins it speaks.
pub type Services = Seq<(Seq<char>, Seq<Seq<char>>)>;

/// Whether one name comes before another.
pub open spec fn name_before() -> spec_fn(Seq<char>, Seq<char>) -> bool {
    |a: Seq<char>, b: Seq<char>| text_order(a, b) == Order::Less
}

/// Names in the order a reader expects them.
pub open spec fn sorted(names: Seq<Seq<char>>) -> Seq<Seq<char>> {
    stable_sorted(names, name_before())
}

/// That this is wrong there, with the alternatives as a help note where there
/// are any.
pub open spec fn suggesting(
    span: Span,
    message: Seq<char>,
    lead: Seq<char>,
    suggestions: Seq<Seq<char>>,
) -> DiagModel {
    if suggestions.len() == 0 {
        DiagModel::of(span, message)
    } else {
        DiagModel::of(span, message).helped(lead, suggestions)
    }
}

/// That this is wrong there, with the options as a help note, or, when there are
/// none, the note as prose.
pub open spec fn optioned(
    span: Span,
    message: Seq<char>,
    lead: Seq<char>,
    options: Seq<Seq<char>>,
    empty_note: Seq<char>,
) -> DiagModel {
    if options.len() == 0 {
        DiagModel::of(span, message).helped(empty_note, Seq::empty())
    } else {
        DiagModel::of(span, message).helped(lead, options)
    }
}

/// What a type is called.
pub open spec fn type_named(ty: ValueType) -> Seq<char> {
    match ty {
        ValueType::Str => "a string"@,
        ValueType::Int => "an integer"@,
        ValueType::Bool => "a boolean"@,
        ValueType::Duration => "a duration"@,
        ValueType::Scalar => "a single value"@,
        ValueType::List(_) => "a list"@,
        ValueType::MapOf(_) => "a map"@,
        ValueType::Mapping => "a map"@,
        ValueType::ServiceRef => "a service name"@,
    }
}

/// Whether a value is of a type that holds no other.
pub open spec fn plainly(value: Stated, ty: ValueType) -> bool {
    match ty {
        ValueType::Str => value is Str,
        ValueType::Int => value is Int,
        ValueType::Bool => value is Bool,
        ValueType::Duration => value is Duration,
        ValueType::Scalar => !(value is List) && !(value is Mapping) && !(value is Ident),
        ValueType::Mapping => value is Mapping,
        ValueType::ServiceRef => value is Ident,
        ValueType::List(_) => false,
        ValueType::MapOf(_) => false,
    }
}

/// What is wrong with a value that should be of a type.
pub open spec fn type_faults(value: At<Stated>, ty: ValueType) -> Seq<DiagModel>
    decreases ty, 0nat,
{
    match ty {
        ValueType::List(inner) => match value.node {
            Stated::List(items) => item_faults(items, *inner),
            _ => seq![DiagModel::of(value.span, "expected a list"@)],
        },
        ValueType::MapOf(inner) => match value.node {
            Stated::Mapping(entries) => entry_faults(entries, *inner),
            _ => seq![DiagModel::of(value.span, "expected a map"@)],
        },
        _ => if plainly(value.node, ty) {
            Seq::empty()
        } else {
            seq![DiagModel::of(value.span, "expected "@ + type_named(ty))]
        },
    }
}

/// What is wrong with items that should be of a type.
pub open spec fn item_faults(items: Seq<At<Stated>>, ty: ValueType) -> Seq<DiagModel>
    decreases ty, items.len() + 1,
{
    if items.len() == 0 {
        Seq::empty()
    } else {
        item_faults(items.drop_last(), ty) + type_faults(items.last(), ty)
    }
}

/// What is wrong with entries whose values should be of a type.
pub open spec fn entry_faults(entries: Seq<(At<Seq<char>>, At<Stated>)>, ty: ValueType) -> Seq<
    DiagModel,
>
    decreases ty, entries.len() + 1,
{
    if entries.len() == 0 {
        Seq::empty()
    } else {
        entry_faults(entries.drop_last(), ty) + type_faults(entries.last().1, ty)
    }
}

/// The literal a value lowers to.
pub open spec fn meant(value: Stated) -> Literal
    decreases value,
{
    match value {
        Stated::Null => Literal::Null,
        Stated::Str(s) => Literal::Str(s),
        Stated::Int(n) => Literal::Int(n),
        Stated::Bool(b) => Literal::Bool(b),
        Stated::Duration(d) => Literal::Duration(d),
        Stated::Ident(s) => Literal::Ident(s),
        Stated::List(items) => Literal::List(all_meant(items)),
        Stated::Mapping(entries) => Literal::Mapping(entries_meant(entries)),
    }
}

/// The literals values lower to.
pub open spec fn all_meant(items: Seq<At<Stated>>) -> Seq<Literal>
    decreases items,
{
    Seq::new(
        items.len(),
        |i: int|
            if 0 <= i < items.len() {
                meant(items[i].node)
            } else {
                Literal::Null
            },
    )
}

/// The entries a map lowers to.
pub open spec fn entries_meant(entries: Seq<(At<Seq<char>>, At<Stated>)>) -> Seq<
    (Seq<char>, Literal),
>
    decreases entries,
{
    Seq::new(
        entries.len(),
        |i: int|
            if 0 <= i < entries.len() {
                (entries[i].0.node, meant(entries[i].1.node))
            } else {
                (Seq::empty(), Literal::Null)
            },
    )
}

/// The entries of a map, and none of anything else.
pub open spec fn entries_in(value: Stated) -> Seq<(At<Seq<char>>, At<Stated>)> {
    match value {
        Stated::Mapping(entries) => entries,
        _ => Seq::empty(),
    }
}

/// What a map first says under a name.
pub open spec fn said_of(entries: Seq<(At<Seq<char>>, At<Stated>)>, name: Seq<char>) -> Option<
    At<Stated>,
>
    decreases entries.len(),
{
    if entries.len() == 0 {
        None
    } else if entries[0].0.node == name {
        Some(entries[0].1)
    } else {
        said_of(entries.skip(1), name)
    }
}

/// The entries of a service besides the reserved `kinds`.
pub open spec fn besides_kinds(entries: Seq<(At<Seq<char>>, At<Stated>)>) -> Seq<
    (Seq<char>, Literal),
>
    decreases entries.len(),
{
    if entries.len() == 0 {
        Seq::empty()
    } else {
        let rest = besides_kinds(entries.drop_last());
        let (key, value) = entries.last();
        if key.node == "kinds"@ {
            rest
        } else {
            rest.push((key.node, meant(value.node)))
        }
    }
}

/// The plugin names among items.
pub open spec fn plugin_names(items: Seq<At<Stated>>) -> Seq<Seq<char>>
    decreases items.len(),
{
    if items.len() == 0 {
        Seq::empty()
    } else {
        let rest = plugin_names(items.drop_last());
        match items.last().node {
            Stated::Ident(name) => rest.push(name),
            _ => rest,
        }
    }
}

/// What is wrong with items that should be plugin names.
pub open spec fn plugin_faults(items: Seq<At<Stated>>) -> Seq<DiagModel>
    decreases items.len(),
{
    if items.len() == 0 {
        Seq::empty()
    } else {
        let rest = plugin_faults(items.drop_last());
        match items.last().node {
            Stated::Ident(_) => rest,
            _ => rest.push(DiagModel::of(items.last().span, "a kind must be a plugin name"@)),
        }
    }
}

/// The plugins a service speaks.
pub open spec fn kinds_of(attrs: Stated) -> Seq<Seq<char>> {
    match said_of(entries_in(attrs), "kinds"@) {
        Some(value) => match value.node {
            Stated::List(items) => plugin_names(items),
            _ => Seq::empty(),
        },
        None => Seq::empty(),
    }
}

/// What is wrong with what a service says it speaks.
pub open spec fn kinds_faults(attrs: Stated) -> Seq<DiagModel> {
    match said_of(entries_in(attrs), "kinds"@) {
        Some(value) => match value.node {
            Stated::List(items) => plugin_faults(items),
            _ => seq![DiagModel::of(value.span, "`kinds` must be a list of plugin names"@)],
        },
        None => Seq::empty(),
    }
}

/// The names of the attributes read of a service.
pub open spec fn read_names(schema: Seq<ReadModel>) -> Seq<Seq<char>> {
    Seq::new(schema.len(), |i: int| schema[i].decl.name)
}

/// What is wrong with the attributes a service states.
pub open spec fn stated_faults(
    entries: Seq<(At<Seq<char>>, At<Stated>)>,
    schema: Seq<ReadModel>,
) -> Seq<DiagModel>
    decreases entries.len(),
{
    if entries.len() == 0 {
        Seq::empty()
    } else {
        let rest = stated_faults(entries.drop_last(), schema);
        let (key, value) = entries.last();
        if key.node == "kinds"@ {
            rest
        } else {
            match read_as(schema, key.node) {
                Some(read) => rest + type_faults(value, read.decl.ty),
                None => rest.push(
                    suggesting(
                        key.span,
                        "unknown attribute `"@ + key.node + "`"@,
                        "known attributes:"@,
                        sorted(read_names(schema)),
                    ),
                ),
            }
        }
    }
}

/// That a service does not state what a plugin reads of it.
pub open spec fn missing(name: At<Seq<char>>, read: ReadModel) -> DiagModel {
    DiagModel::of(
        name.span,
        "service `"@ + name.node + "` is missing `"@ + read.decl.name + "`, which `"@
            + read.reader + "` reads"@,
    )
}

/// What of that a plugin must read a service does not state. Naming the plugin
/// that reads it says where the requirement came from, which matters once
/// several plugins read a service's attributes.
pub open spec fn missing_faults(
    name: At<Seq<char>>,
    entries: Seq<(At<Seq<char>>, At<Stated>)>,
    schema: Seq<ReadModel>,
) -> Seq<DiagModel>
    decreases schema.len(),
{
    if schema.len() == 0 {
        Seq::empty()
    } else {
        let rest = missing_faults(name, entries, schema.drop_last());
        let read = schema.last();
        if read.decl.required && said_of(entries, read.decl.name) is None {
            rest.push(missing(name, read))
        } else {
            rest
        }
    }
}

/// What is wrong with a service, given the deployment that brings it up.
pub open spec fn service_faults(
    service: ast::ServiceModel,
    deployment: Seq<char>,
    registry: RegistryModel,
) -> Seq<DiagModel> {
    let entries = entries_in(service.attrs.node);
    let states = service.attrs.node is Mapping;
    kinds_faults(service.attrs.node) + match registry.service_schema(
        deployment,
        kinds_of(service.attrs.node),
    ) {
        Ok(schema) => if states {
            stated_faults(entries, schema) + missing_faults(service.name, entries, schema)
        } else {
            Seq::empty()
        },
        // The unknown deployment is already reported; anything else is the
        // plugins disagreeing with each other.
        Err(why) => if entry_of(registry.deployments, deployment) is Some {
            seq![DiagModel::of(service.name.span, why)]
        } else {
            Seq::empty()
        },
    }
}

/// What is wrong with services, one after another.
pub open spec fn services_faults(
    services: Seq<At<ast::ServiceModel>>,
    deployment: Seq<char>,
    registry: RegistryModel,
) -> Seq<DiagModel>
    decreases services.len(),
{
    if services.len() == 0 {
        Seq::empty()
    } else {
        services_faults(services.drop_last(), deployment, registry) + service_faults(
            services.last().node,
            deployment,
            registry,
        )
    }
}

/// What is wrong with a fleet.
pub open spec fn fleet_faults(fleet: ast::FleetModel, registry: RegistryModel) -> Seq<DiagModel> {
    (if entry_of(registry.deployments, fleet.deployment.node) is None {
        seq![
            suggesting(
                fleet.deployment.span,
                "unknown deployment plugin `"@ + fleet.deployment.node + "`"@,
                "known deployments:"@,
                sorted(names_of(registry.deployments)),
            ),
        ]
    } else {
        Seq::empty()
    }) + services_faults(fleet.services, fleet.deployment.node, registry)
}

/// The service a declaration lowers to.
pub open spec fn service_of(service: ast::ServiceModel) -> plan::ServiceModel {
    plan::ServiceModel {
        name: service.name.node,
        kinds: kinds_of(service.attrs.node),
        attrs: besides_kinds(entries_in(service.attrs.node)),
    }
}

/// The fleet a declaration lowers to.
pub open spec fn fleet_of(fleet: ast::FleetModel) -> plan::FleetModel {
    plan::FleetModel {
        name: fleet.name.node,
        deployment: fleet.deployment.node,
        services: Seq::new(fleet.services.len(), |i: int| service_of(fleet.services[i].node)),
    }
}

/// Services by name, with one more in place of any of its name.
pub open spec fn with_service(
    services: Services,
    name: Seq<char>,
    kinds: Seq<Seq<char>>,
) -> Services {
    services.filter(named_other(name)).push((name, kinds))
}

/// Whether a service has another name.
pub open spec fn named_other(name: Seq<char>) -> spec_fn((Seq<char>, Seq<Seq<char>>)) -> bool {
    |service: (Seq<char>, Seq<Seq<char>>)| service.0 != name
}

/// The services of a fleet, by name.
pub open spec fn services_of(services: Seq<At<ast::ServiceModel>>) -> Services
    decreases services.len(),
{
    if services.len() == 0 {
        Seq::empty()
    } else {
        let service = services.last().node;
        with_service(
            services_of(services.drop_last()),
            service.name.node,
            kinds_of(service.attrs.node),
        )
    }
}

/// That nothing is called that, and what is.
pub open spec fn unknown_service(span: Span, name: Seq<char>, services: Services) -> DiagModel {
    suggesting(
        span,
        "unknown service `"@ + name + "`"@,
        "defined services:"@,
        sorted(names_of(services)),
    )
}

/// The kinds that are drivers.
pub open spec fn drivers_among(kinds: Seq<Seq<char>>, registry: RegistryModel) -> Seq<Seq<char>>
    decreases kinds.len(),
{
    if kinds.len() == 0 {
        Seq::empty()
    } else {
        let rest = drivers_among(kinds.drop_last(), registry);
        if entry_of(registry.drivers, kinds.last()) is Some {
            rest.push(kinds.last())
        } else {
            rest
        }
    }
}

/// What is wrong with an argument. `kind` is the plugin answering the call,
/// which a service reference is checked against.
pub open spec fn param_faults(
    arg: At<Stated>,
    ty: ParamType,
    kind: Seq<char>,
    services: Services,
    registry: RegistryModel,
) -> Seq<DiagModel> {
    let unless = |right: bool, message: Seq<char>|
        if right {
            Seq::empty()
        } else {
            seq![DiagModel::of(arg.span, message)]
        };
    match ty {
        ParamType::ServiceRef => match arg.node {
            Stated::Ident(name) => match entry_of(services, name) {
                None => seq![unknown_service(arg.span, name, services)],
                Some(kinds) => if kinds.contains(kind) {
                    Seq::empty()
                } else {
                    seq![
                        optioned(
                            arg.span,
                            "service `"@ + name + "` does not speak `"@ + kind + "`"@,
                            "drivers:"@,
                            sorted(drivers_among(kinds, registry)),
                            "no available drivers for `"@ + name + "`"@,
                        ),
                    ]
                },
            },
            _ => seq![DiagModel::of(arg.span, "expected a service name"@)],
        },
        ParamType::Path => unless(arg.node is Str, "expected a string"@),
        ParamType::Str => unless(arg.node is Str, "expected a string"@),
        ParamType::Int => unless(arg.node is Int, "expected an integer"@),
        ParamType::Ident => unless(arg.node is Ident, "expected an identifier"@),
        ParamType::Matcher => Seq::empty(),
    }
}

/// How many parameters must be given.
pub open spec fn required_among(params: Seq<ParamModel>) -> nat
    decreases params.len(),
{
    if params.len() == 0 {
        0
    } else {
        required_among(params.drop_last()) + if params.last().required {
            1nat
        } else {
            0
        }
    }
}

/// What is wrong with the first arguments of a call.
pub open spec fn each_faults(
    args: Seq<At<Stated>>,
    params: Seq<ParamModel>,
    kind: Seq<char>,
    services: Services,
    registry: RegistryModel,
) -> Seq<DiagModel>
    decreases args.len(),
{
    if args.len() == 0 {
        Seq::empty()
    } else {
        each_faults(args.drop_last(), params, kind, services, registry) + param_faults(
            args.last(),
            params[args.len() - 1].ty,
            kind,
            services,
            registry,
        )
    }
}

/// What is wrong with the arguments of a call. `label` is what the author wrote.
pub open spec fn args_faults(
    call: At<OpCallModel>,
    sig: OpSigModel,
    label: Seq<char>,
    kind: Seq<char>,
    services: Services,
    registry: RegistryModel,
) -> Seq<DiagModel> {
    let given = call.node.args.len();
    if given < required_among(sig.params) || given > sig.params.len() {
        seq![
            DiagModel::of(
                call.span,
                "`"@ + label + "` takes "@ + decimal(sig.params.len()) + " argument(s), got "@
                    + decimal(given),
            ),
        ]
    } else {
        each_faults(call.node.args, sig.params, kind, services, registry)
    }
}

/// The keyword a clause opens with.
pub open spec fn keyword(clause: ClauseModel) -> Seq<char> {
    match clause {
        ClauseModel::Body(_) => "body"@,
        ClauseModel::Where(_) => "where"@,
    }
}

/// Whether a signature allows a clause of that keyword.
pub open spec fn allows(clauses: Seq<ClauseDeclModel>, keyword: Seq<char>) -> bool {
    exists|i: int| 0 <= i < clauses.len() && (#[trigger] clauses[i]).keyword == keyword
}

/// What is wrong with the clauses of a call, by the keyword the author wrote
/// rather than its shape: two clauses can share a shape and mean different
/// things.
pub open spec fn clause_faults(
    clauses: Seq<At<ClauseModel>>,
    allowed: Seq<ClauseDeclModel>,
) -> Seq<DiagModel>
    decreases clauses.len(),
{
    if clauses.len() == 0 {
        Seq::empty()
    } else {
        let rest = clause_faults(clauses.drop_last(), allowed);
        let clause = clauses.last();
        if allows(allowed, keyword(clause.node)) {
            rest
        } else {
            rest.push(
                DiagModel::of(
                    clause.span,
                    "this operation takes no `"@ + keyword(clause.node) + "`"@,
                ),
            )
        }
    }
}

/// Each segment of a pattern, as a label shows it.
pub open spec fn bracketed(segments: Seq<Seq<char>>) -> Seq<Seq<char>> {
    Seq::new(segments.len(), |i: int| "<"@ + segments[i] + ">"@)
}

/// A readable label for an operation head, e.g. `POST` or `<table>.count`.
pub open spec fn labelled(head: HeadModel) -> Seq<char> {
    match head {
        HeadModel::Exact(name) => name,
        HeadModel::Wildcard { segments, tail } => joined(bracketed(segments).push(tail), "."@),
    }
}

/// A readable label for each operation.
pub open spec fn labels(sigs: Seq<OpSigModel>) -> Seq<Seq<char>> {
    Seq::new(sigs.len(), |i: int| labelled(sigs[i].head))
}

/// The operation of exactly that name.
pub open spec fn exactly(sigs: Seq<OpSigModel>, name: Seq<char>) -> Option<OpSigModel>
    decreases sigs.len(),
{
    if sigs.len() == 0 {
        None
    } else if sigs[0].head == HeadModel::Exact(name) {
        Some(sigs[0])
    } else {
        exactly(sigs.skip(1), name)
    }
}

/// The operation a `do` step calls, or `None` where it calls none there is.
pub open spec fn action_of(call: OpCallModel, registry: RegistryModel) -> Option<OpSigModel> {
    if call.head.len() != 2 {
        None
    } else {
        match entry_of(registry.drivers, call.head[0].node) {
            None => None,
            Some(sigs) => exactly(sigs, call.head[1].node),
        }
    }
}

/// The payload a call carries.
pub open spec fn body_among(clauses: Seq<At<ClauseModel>>) -> Option<Seq<(Seq<char>, Literal)>>
    decreases clauses.len(),
{
    if clauses.len() == 0 {
        None
    } else {
        match clauses[0].node {
            ClauseModel::Body(value) => Some(entries_meant(entries_in(value.node))),
            ClauseModel::Where(_) => body_among(clauses.skip(1)),
        }
    }
}

/// The filter a call carries.
pub open spec fn filter_among(clauses: Seq<At<ClauseModel>>) -> Option<(Seq<char>, Literal)>
    decreases clauses.len(),
{
    if clauses.len() == 0 {
        None
    } else {
        match clauses[0].node {
            ClauseModel::Where(filter) => Some((filter.column.node, meant(filter.value.node))),
            ClauseModel::Body(_) => filter_among(clauses.skip(1)),
        }
    }
}

/// What is wrong with a `do` step.
pub open spec fn step_faults(
    step: At<ast::StepModel>,
    services: Services,
    registry: RegistryModel,
) -> Seq<DiagModel> {
    let call = step.node.action;
    let head = call.node.head;
    if head.len() != 2 {
        seq![DiagModel::of(step.span, "a `do` action names a driver and an operation"@)]
    } else {
        let driver = head[0];
        let operation = head[1];
        match entry_of(registry.drivers, driver.node) {
            None => seq![
                suggesting(
                    driver.span,
                    "unknown driver `"@ + driver.node + "`"@,
                    "known drivers:"@,
                    sorted(names_of(registry.drivers)),
                ),
            ],
            Some(sigs) => match exactly(sigs, operation.node) {
                None => seq![
                    suggesting(
                        operation.span,
                        "`"@ + driver.node + "` has no operation `"@ + operation.node + "`"@,
                        "operations:"@,
                        sorted(labels(sigs)),
                    ),
                ],
                Some(sig) => args_faults(call, sig, driver.node, driver.node, services, registry)
                    + clause_faults(call.node.clauses, sig.clauses) + match (
                    step.node.expect,
                    sig.result,
                ) {
                    (Some(expected), Some(outcome)) => type_faults(expected, outcome),
                    _ => Seq::empty(),
                },
            },
        }
    }
}

/// The step a `do` step lowers to, where it calls an operation there is.
pub open spec fn step_of(step: ast::StepModel, registry: RegistryModel) -> Option<
    plan::StepModel,
> {
    let call = step.action.node;
    match action_of(call, registry) {
        None => None,
        Some(_) => Some(
            plan::StepModel {
                driver: call.head[0].node,
                operation: call.head[1].node,
                args: all_meant(call.args),
                body: body_among(call.clauses),
                expect: match step.expect {
                    Some(expected) => Some(meant(expected.node)),
                    None => None,
                },
            },
        ),
    }
}

/// The names of a path's segments.
pub open spec fn segments(path: Seq<At<Seq<char>>>) -> Seq<Seq<char>> {
    Seq::new(path.len(), |i: int| path[i].node)
}

/// Whether a pattern matches a path.
pub open spec fn matches_path(head: HeadModel, path: Seq<At<Seq<char>>>) -> bool {
    match head {
        HeadModel::Exact(name) => path.len() == 1 && path[0].node == name,
        HeadModel::Wildcard { segments, tail } => path.len() == segments.len() + 1
            && path.last().node == tail,
    }
}

/// The first operation whose pattern matches a path.
pub open spec fn matching(sigs: Seq<OpSigModel>, path: Seq<At<Seq<char>>>) -> Option<OpSigModel>
    decreases sigs.len(),
{
    if sigs.len() == 0 {
        None
    } else if matches_path(sigs[0].head, path) {
        Some(sigs[0])
    } else {
        matching(sigs.skip(1), path)
    }
}

/// The observer among the kinds of a service that answers a path, and the
/// signature it answers with.
pub open spec fn answered(
    kinds: Seq<Seq<char>>,
    path: Seq<At<Seq<char>>>,
    registry: RegistryModel,
) -> Option<(Seq<char>, OpSigModel)>
    decreases kinds.len(),
{
    if kinds.len() == 0 {
        None
    } else {
        let here = match entry_of(registry.observers, kinds[0]) {
            Some(sigs) => matching(sigs, path),
            None => None,
        };
        match here {
            Some(sig) => Some((kinds[0], sig)),
            None => answered(kinds.skip(1), path, registry),
        }
    }
}

/// A readable label for everything the kinds of a service answer.
pub open spec fn observable_labels(kinds: Seq<Seq<char>>, registry: RegistryModel) -> Seq<Seq<char>>
    decreases kinds.len(),
{
    if kinds.len() == 0 {
        Seq::empty()
    } else {
        observable_labels(kinds.drop_last(), registry) + match entry_of(
            registry.observers,
            kinds.last(),
        ) {
            Some(sigs) => labels(sigs),
            None => Seq::empty(),
        }
    }
}

/// The span covering a dotted path's segments, or that of the whole observable
/// where it has none.
pub open spec fn path_span(path: Seq<At<Seq<char>>>, whole: Span) -> Span {
    if path.len() > 0 {
        Span { start: path[0].span.start, end: path.last().span.end }
    } else {
        whole
    }
}

/// The comparison a plugin knows an operator as.
pub open spec fn compared(op: ast::CmpOp) -> CmpOp {
    match op {
        ast::CmpOp::Eq => CmpOp::Eq,
        ast::CmpOp::Ne => CmpOp::Ne,
        ast::CmpOp::Lt => CmpOp::Lt,
        ast::CmpOp::Le => CmpOp::Le,
        ast::CmpOp::Gt => CmpOp::Gt,
        ast::CmpOp::Ge => CmpOp::Ge,
    }
}

/// What is wrong with a comparison.
pub open spec fn comparison_faults(predicate: PredicateModel, sig: OpSigModel) -> Seq<DiagModel> {
    match sig.result {
        None => seq![
            DiagModel::of(predicate.left.span, "this observable has no value to compare"@),
        ],
        Some(result) => (if sig.cmp_ops.contains(compared(predicate.op.node)) {
            Seq::empty()
        } else {
            seq![DiagModel::of(predicate.op.span, "this comparison is not allowed here"@)]
        }) + type_faults(predicate.right, result),
    }
}

/// What is wrong with a predicate.
pub open spec fn predicate_faults(
    predicate: PredicateModel,
    services: Services,
    registry: RegistryModel,
) -> Seq<DiagModel> {
    let left = predicate.left;
    let head = left.node.head;
    if head.len() == 0 {
        seq![DiagModel::of(left.span, "an observable names a service"@)]
    } else {
        let service = head[0];
        let path = head.skip(1);
        match entry_of(services, service.node) {
            None => seq![unknown_service(service.span, service.node, services)],
            Some(kinds) => match answered(kinds, path, registry) {
                None => seq![
                    optioned(
                        path_span(path, left.span),
                        "no observable `"@ + joined(segments(path), "."@) + "` on service `"@
                            + service.node + "`"@,
                        "observables:"@,
                        sorted(observable_labels(kinds, registry)),
                        "no available observables for `"@ + service.node + "`"@,
                    ),
                ],
                Some((observer, sig)) => args_faults(
                    left,
                    sig,
                    joined(segments(path), "."@),
                    observer,
                    services,
                    registry,
                ) + clause_faults(left.node.clauses, sig.clauses) + comparison_faults(
                    predicate,
                    sig,
                ),
            },
        }
    }
}

/// The check a predicate lowers to, where something answers it.
pub open spec fn check_of(
    predicate: PredicateModel,
    services: Services,
    registry: RegistryModel,
) -> Option<CheckModel> {
    let call = predicate.left.node;
    if call.head.len() == 0 {
        None
    } else {
        match entry_of(services, call.head[0].node) {
            None => None,
            Some(kinds) => match answered(kinds, call.head.skip(1), registry) {
                None => None,
                Some((observer, _)) => Some(
                    CheckModel {
                        service: call.head[0].node,
                        observer,
                        observable: segments(call.head.skip(1)),
                        args: all_meant(call.args),
                        filter: filter_among(call.clauses),
                        op: compared(predicate.op.node),
                        value: meant(predicate.right.node),
                    },
                ),
            },
        }
    }
}

/// What is wrong with steps, one after another.
pub open spec fn steps_faults(
    steps: Seq<At<ast::StepModel>>,
    services: Services,
    registry: RegistryModel,
) -> Seq<DiagModel>
    decreases steps.len(),
{
    if steps.len() == 0 {
        Seq::empty()
    } else {
        steps_faults(steps.drop_last(), services, registry) + step_faults(
            steps.last(),
            services,
            registry,
        )
    }
}

/// What is wrong with predicates, one after another.
pub open spec fn predicates_faults(
    predicates: Seq<At<PredicateModel>>,
    services: Services,
    registry: RegistryModel,
) -> Seq<DiagModel>
    decreases predicates.len(),
{
    if predicates.len() == 0 {
        Seq::empty()
    } else {
        predicates_faults(predicates.drop_last(), services, registry) + predicate_faults(
            predicates.last().node,
            services,
            registry,
        )
    }
}

/// The steps that lower.
pub open spec fn steps_of(steps: Seq<At<ast::StepModel>>, registry: RegistryModel) -> Seq<
    plan::StepModel,
>
    decreases steps.len(),
{
    if steps.len() == 0 {
        Seq::empty()
    } else {
        let rest = steps_of(steps.drop_last(), registry);
        match step_of(steps.last().node, registry) {
            Some(step) => rest.push(step),
            None => rest,
        }
    }
}

/// The checks that lower.
pub open spec fn checks_of(
    predicates: Seq<At<PredicateModel>>,
    services: Services,
    registry: RegistryModel,
) -> Seq<CheckModel>
    decreases predicates.len(),
{
    if predicates.len() == 0 {
        Seq::empty()
    } else {
        let rest = checks_of(predicates.drop_last(), services, registry);
        match check_of(predicates.last().node, services, registry) {
            Some(check) => rest.push(check),
            None => rest,
        }
    }
}

/// What is wrong with a scenario. Every schedule waits its deadline out, so one
/// that asks for longer than a campaign can afford is refused rather than
/// silently shortened.
#[verifier::opaque]
pub open spec fn scenario_faults(
    scenario: ast::ScenarioModel,
    services: Services,
    registry: RegistryModel,
) -> Seq<DiagModel> {
    steps_faults(scenario.steps, services, registry) + predicates_faults(
        scenario.expect,
        services,
        registry,
    ) + if scenario.consistent_within.node@ > longest_settling()@ {
        seq![
            DiagModel::of(
                scenario.consistent_within.span,
                "a fleet may be given at most "@ + longest_settling().spelling() + " to settle"@,
            ),
        ]
    } else {
        Seq::empty()
    }
}

/// The scenario a declaration lowers to.
pub open spec fn scenario_of(
    scenario: ast::ScenarioModel,
    services: Services,
    registry: RegistryModel,
) -> plan::ScenarioModel {
    plan::ScenarioModel {
        name: scenario.name.node,
        budget: match scenario.budget {
            Some(budget) => Some(budget.node),
            None => None,
        },
        consistent_within: scenario.consistent_within.node,
        steps: steps_of(scenario.steps, registry),
        checks: checks_of(scenario.expect, services, registry),
    }
}

/// What is wrong with scenarios, one after another.
pub open spec fn scenarios_faults(
    scenarios: Seq<At<ast::ScenarioModel>>,
    services: Services,
    registry: RegistryModel,
) -> Seq<DiagModel>
    decreases scenarios.len(),
{
    if scenarios.len() == 0 {
        Seq::empty()
    } else {
        scenarios_faults(scenarios.drop_last(), services, registry) + scenario_faults(
            scenarios.last().node,
            services,
            registry,
        )
    }
}

/// What is wrong with a file.
pub open spec fn faults(file: ast::FileModel, registry: RegistryModel) -> Seq<DiagModel> {
    fleet_faults(file.fleet.node, registry) + scenarios_faults(
        file.scenarios,
        services_of(file.fleet.node.services),
        registry,
    )
}

/// The plan a file lowers to.
pub open spec fn plan_of(file: ast::FileModel, registry: RegistryModel) -> plan::PlanModel {
    let services = services_of(file.fleet.node.services);
    plan::PlanModel {
        fleet: fleet_of(file.fleet.node),
        scenarios: Seq::new(
            file.scenarios.len(),
            |i: int| scenario_of(file.scenarios[i].node, services, registry),
        ),
    }
}

/// The plan a file lowers to, or everything wrong with it.
pub open spec fn lowered(file: ast::FileModel, registry: RegistryModel) -> Result<
    plan::PlanModel,
    Seq<DiagModel>,
> {
    if faults(file, registry).len() == 0 {
        Ok(plan_of(file, registry))
    } else {
        Err(faults(file, registry))
    }
}

fn is_name_before(a: &String, b: &String) -> (r: bool)
    ensures
        r == name_before()(a@, b@),
{
    match order_texts(a.as_str(), b.as_str()) {
        Order::Less => true,
        _ => false,
    }
}

fn sort_names(names: Vec<String>) -> (r: Vec<String>)
    ensures
        r.deep_view() == sorted(names.deep_view()),
{
    let ghost before = |a: String, b: String| name_before()(a@, b@);
    let ghost read = |s: String| s@;
    let ghost whole = names@;
    assert(whole.map_values(read) =~= names.deep_view());
    let out = sort_stable(names, is_name_before, Ghost(before));
    proof {
        lemma_sorted_map(whole, before, read, name_before());
        assert(out@.map_values(read) =~= out.deep_view());
    }
    out
}

fn report(diags: &mut Vec<Diag>, diag: Diag)
    ensures
        final(diags).deep_view() == old(diags).deep_view().push(diag.deep_view()),
        final(diags).deep_view() == old(diags).deep_view() + seq![diag.deep_view()],
{
    let ghost before = diags.deep_view();
    let ghost added = diag.deep_view();
    diags.push(diag);
    assert(diags.deep_view() =~= before.push(added));
    assert(diags.deep_view() =~= before + seq![added]);
}

fn error(diags: &mut Vec<Diag>, span: Span, message: &str)
    ensures
        final(diags).deep_view() == old(diags).deep_view().push(DiagModel::of(span, message@)),
        final(diags).deep_view() == old(diags).deep_view() + seq![DiagModel::of(span, message@)],
{
    report(diags, Diag::new(span, message));
}

/// Report an error, and if there are alternatives, list them as a help note.
fn error_suggesting(
    diags: &mut Vec<Diag>,
    span: Span,
    message: &str,
    lead: &str,
    suggestions: Vec<String>,
)
    ensures
        final(diags).deep_view() == old(diags).deep_view().push(
            suggesting(span, message@, lead@, suggestions.deep_view()),
        ),
        final(diags).deep_view() == old(diags).deep_view() + seq![
            suggesting(span, message@, lead@, suggestions.deep_view()),
        ],
{
    let diag = Diag::new(span, message);
    if suggestions.len() == 0 {
        report(diags, diag);
    } else {
        report(diags, diag.with_help(lead, suggestions));
    }
}

/// Report an error listing `options`, or, when there are none, the `empty_note`
/// as prose.
fn error_options(
    diags: &mut Vec<Diag>,
    span: Span,
    message: &str,
    lead: &str,
    options: Vec<String>,
    empty_note: &str,
)
    ensures
        final(diags).deep_view() == old(diags).deep_view() + seq![
            optioned(span, message@, lead@, options.deep_view(), empty_note@),
        ],
{
    let diag = Diag::new(span, message);
    if options.len() == 0 {
        let none: Vec<String> = Vec::new();
        assert(none.deep_view() =~= Seq::empty());
        report(diags, diag.with_help(empty_note, none));
    } else {
        report(diags, diag.with_help(lead, options));
    }
}

fn name_of_type(ty: &ValueType) -> (r: &'static str)
    ensures
        r@ == type_named(*ty),
{
    match ty {
        ValueType::Str => "a string",
        ValueType::Int => "an integer",
        ValueType::Bool => "a boolean",
        ValueType::Duration => "a duration",
        ValueType::Scalar => "a single value",
        ValueType::List(_) => "a list",
        ValueType::MapOf(_) => "a map",
        ValueType::Mapping => "a map",
        ValueType::ServiceRef => "a service name",
    }
}

/// Report what is wrong with a value that should be of a type.
fn check_type(diags: &mut Vec<Diag>, value: &Spanned<Value>, ty: &ValueType)
    ensures
        final(diags).deep_view() == old(diags).deep_view() + type_faults(value.deep_view(), *ty),
    decreases ty,
{
    let ghost before = diags.deep_view();
    match ty {
        ValueType::List(inner) => match &value.node {
            Value::List(items) => {
                let ghost model = items.deep_view();
                proof {
                    lemma_list_stated(*items);
                    assert(before + item_faults(model.take(0), **inner) =~= before);
                }
                for i in 0..items.len()
                    invariant
                        model == items.deep_view(),
                        ty is List,
                        *inner == ty->List_0,
                        diags.deep_view() == before + item_faults(
                            model.take(i as int),
                            **inner,
                        ),
                {
                    let ghost so_far = item_faults(model.take(i as int), **inner);
                    check_type(diags, &items[i], &**inner);
                    proof {
                        assert(model[i as int] == items@[i as int].deep_view());
                        assert(model.take(i + 1).drop_last() =~= model.take(i as int));
                        let more = type_faults(model[i as int], **inner);
                        assert(before + so_far + more =~= before + (so_far + more));
                    }
                }
                assert(model.take(model.len() as int) =~= model);
            },
            _ => error(diags, value.span, "expected a list"),
        },
        ValueType::MapOf(inner) => match &value.node {
            Value::Mapping(entries) => {
                let ghost model = entries.deep_view();
                proof {
                    lemma_map_stated(*entries);
                    assert(before + entry_faults(model.take(0), **inner) =~= before);
                }
                for i in 0..entries.len()
                    invariant
                        model == entries.deep_view(),
                        ty is MapOf,
                        *inner == ty->MapOf_0,
                        diags.deep_view() == before + entry_faults(
                            model.take(i as int),
                            **inner,
                        ),
                {
                    let ghost so_far = entry_faults(model.take(i as int), **inner);
                    check_type(diags, &entries[i].1, &**inner);
                    proof {
                        assert(model[i as int] == entries@[i as int].deep_view());
                        assert(model.take(i + 1).drop_last() =~= model.take(i as int));
                        let more = type_faults(model[i as int].1, **inner);
                        assert(before + so_far + more =~= before + (so_far + more));
                    }
                }
                assert(model.take(model.len() as int) =~= model);
            },
            _ => error(diags, value.span, "expected a map"),
        },
        _ => {
            let right = match (ty, &value.node) {
                (ValueType::Str, Value::Str(_)) => true,
                (ValueType::Int, Value::Int(_)) => true,
                (ValueType::Bool, Value::Bool(_)) => true,
                (ValueType::Duration, Value::Duration(_)) => true,
                (ValueType::Mapping, Value::Mapping(_)) => true,
                (ValueType::ServiceRef, Value::Ident(_)) => true,
                (ValueType::Scalar, Value::Null) => true,
                (ValueType::Scalar, Value::Str(_)) => true,
                (ValueType::Scalar, Value::Int(_)) => true,
                (ValueType::Scalar, Value::Bool(_)) => true,
                (ValueType::Scalar, Value::Duration(_)) => true,
                _ => false,
            };
            if right {
                assert(before + Seq::empty() =~= before);
            } else {
                let message = around("expected ", name_of_type(ty), "");
                assert(message@ =~= "expected "@ + type_named(*ty)) by {
                    reveal_strlit("");
                }
                error(diags, value.span, message.as_str());
            }
        },
    }
}

/// The value a stated one lowers to.
pub fn lower_value(value: &Value) -> (r: plan::Value)
    ensures
        r.deep_view() == meant(value.deep_view()),
    decreases value,
{
    match value {
        Value::Null => plan::Value::Null,
        Value::Str(s) => plan::Value::Str(s.clone()),
        Value::Int(n) => plan::Value::Int(*n),
        Value::Bool(b) => plan::Value::Bool(*b),
        Value::Duration(d) => plan::Value::Duration(*d),
        Value::Ident(s) => plan::Value::Ident(s.clone()),
        Value::List(items) => {
            let mut out: Vec<plan::Value> = Vec::new();
            for i in 0..items.len()
                invariant
                    value is List,
                    *items == value->List_0,
                    out@.len() == i,
                    forall|j: int|
                        0 <= j < i ==> (#[trigger] out@[j]).deep_view() == meant(
                            items@[j].node.deep_view(),
                        ),
            {
                out.push(lower_value(&items[i].node));
            }
            proof {
                lemma_list_stated(*items);
                lemma_list_literal(out);
                assert(out.deep_view() =~= all_meant(items.deep_view()));
            }
            plan::Value::List(out)
        },
        Value::Mapping(entries) => {
            let mut out: Vec<(String, plan::Value)> = Vec::new();
            for i in 0..entries.len()
                invariant
                    value is Mapping,
                    *entries == value->Mapping_0,
                    out@.len() == i,
                    forall|j: int|
                        0 <= j < i ==> (#[trigger] out@[j]).deep_view() == (
                            entries@[j].0.node@,
                            meant(entries@[j].1.node.deep_view()),
                        ),
            {
                out.push((entries[i].0.node.clone(), lower_value(&entries[i].1.node)));
            }
            proof {
                lemma_map_stated(*entries);
                lemma_map_literal(out);
                assert(out.deep_view() =~= entries_meant(entries.deep_view()));
            }
            plan::Value::Mapping(out)
        },
    }
}

fn lower_pairs(entries: &Vec<(Spanned<String>, Spanned<Value>)>) -> (r: Vec<(String, plan::Value)>)
    ensures
        r.deep_view() == entries_meant(entries.deep_view()),
{
    let mut out: Vec<(String, plan::Value)> = Vec::new();
    for i in 0..entries.len()
        invariant
            out@.len() == i,
            forall|j: int|
                0 <= j < i ==> (#[trigger] out@[j]).deep_view() == (
                    entries@[j].0.node@,
                    meant(entries@[j].1.node.deep_view()),
                ),
    {
        out.push((entries[i].0.node.clone(), lower_value(&entries[i].1.node)));
    }
    assert(out.deep_view() =~= entries_meant(entries.deep_view()));
    out
}

fn lower_args(args: &Vec<Spanned<Value>>) -> (r: Vec<plan::Value>)
    ensures
        r.deep_view() == all_meant(args.deep_view()),
{
    let mut out: Vec<plan::Value> = Vec::new();
    for i in 0..args.len()
        invariant
            out@.len() == i,
            forall|j: int|
                0 <= j < i ==> (#[trigger] out@[j]).deep_view() == meant(args@[j].node.deep_view()),
    {
        out.push(lower_value(&args[i].node));
    }
    assert(out.deep_view() =~= all_meant(args.deep_view()));
    out
}

/// A service's bring-up attributes, without the reserved `kinds`.
fn lower_attrs(service: &ast::Service) -> (r: Vec<(String, plan::Value)>)
    ensures
        r.deep_view() == besides_kinds(entries_in(service.deep_view().attrs.node)),
{
    let mut out: Vec<(String, plan::Value)> = Vec::new();
    assert(out.deep_view() =~= Seq::empty());
    match &service.attrs.node {
        Value::Mapping(entries) => {
            let ghost model = entries.deep_view();
            proof {
                lemma_map_stated(*entries);
            }
            for i in 0..entries.len()
                invariant
                    model == entries.deep_view(),
                    out.deep_view() == besides_kinds(model.take(i as int)),
            {
                proof {
                    assert(model[i as int] == entries@[i as int].deep_view());
                    assert(model.take(i + 1).drop_last() =~= model.take(i as int));
                }
                if !same(entries[i].0.node.as_str(), "kinds") {
                    let ghost before = out.deep_view();
                    let entry = (entries[i].0.node.clone(), lower_value(&entries[i].1.node));
                    let ghost added = entry.deep_view();
                    out.push(entry);
                    assert(out.deep_view() =~= before.push(added));
                }
            }
            assert(model.take(model.len() as int) =~= model);
        },
        _ => {},
    }
    out
}

/// What a map first says under a name.
fn find_said<'a>(entries: &'a Vec<(Spanned<String>, Spanned<Value>)>, name: &str) -> (r: Option<
    &'a Spanned<Value>,
>)
    ensures
        r.deep_view() == said_of(entries.deep_view(), name@),
{
    let ghost model = entries.deep_view();
    assert(model.skip(0) =~= model);
    for i in 0..entries.len()
        invariant
            model == entries.deep_view(),
            said_of(model, name@) == said_of(model.skip(i as int), name@),
    {
        proof {
            assert(model[i as int] == entries@[i as int].deep_view());
            assert(model.skip(i as int)[0] == model[i as int]);
            assert(model.skip(i as int).skip(1) =~= model.skip(i + 1));
        }
        if same(entries[i].0.node.as_str(), name) {
            return Some(&entries[i].1);
        }
    }
    None
}

/// The plugin names in a service's `kinds` list, reporting a malformed one.
fn service_kinds(diags: &mut Vec<Diag>, service: &ast::Service) -> (r: Vec<String>)
    ensures
        r.deep_view() == kinds_of(service.deep_view().attrs.node),
        final(diags).deep_view() == old(diags).deep_view() + kinds_faults(
            service.deep_view().attrs.node,
        ),
{
    let ghost before = diags.deep_view();
    let mut out: Vec<String> = Vec::new();
    proof {
        assert(out.deep_view() =~= Seq::empty());
        assert(before + Seq::empty() =~= before);
    }
    match &service.attrs.node {
        Value::Mapping(entries) => {
            proof {
                lemma_map_stated(*entries);
            }
            match find_said(entries, "kinds") {
                None => {},
                Some(value) => match &value.node {
                    Value::List(items) => {
                        let ghost model = items.deep_view();
                        proof {
                            lemma_list_stated(*items);
                            assert(before + plugin_faults(model.take(0)) =~= before);
                        }
                        for i in 0..items.len()
                            invariant
                                model == items.deep_view(),
                                out.deep_view() == plugin_names(model.take(i as int)),
                                diags.deep_view() == before + plugin_faults(
                                    model.take(i as int),
                                ),
                        {
                            proof {
                                assert(model[i as int] == items@[i as int].deep_view());
                                assert(model.take(i + 1).drop_last() =~= model.take(i as int));
                            }
                            match &items[i].node {
                                Value::Ident(name) => {
                                    let ghost held = out.deep_view();
                                    out.push(name.clone());
                                    assert(out.deep_view() =~= held.push(name@));
                                },
                                _ => {
                                    let ghost so_far = plugin_faults(model.take(i as int));
                                    error(diags, items[i].span, "a kind must be a plugin name");
                                    proof {
                                        let one = DiagModel::of(
                                            items@[i as int].span,
                                            "a kind must be a plugin name"@,
                                        );
                                        assert((before + so_far).push(one) =~= before
                                            + so_far.push(one));
                                    }
                                },
                            }
                        }
                        assert(model.take(model.len() as int) =~= model);
                    },
                    _ => error(diags, value.span, "`kinds` must be a list of plugin names"),
                },
            }
        },
        _ => {},
    }
    out
}

/// Validate a service's attributes against everything its plugins read,
/// skipping the reserved `kinds`.
fn service_attrs(diags: &mut Vec<Diag>, service: &ast::Service, schema: &ServiceSchema)
    ensures
        final(diags).deep_view() == old(diags).deep_view() + (
        if service.deep_view().attrs.node is Mapping {
            stated_faults(entries_in(service.deep_view().attrs.node), schema.deep_view())
                + missing_faults(
                service.deep_view().name,
                entries_in(service.deep_view().attrs.node),
                schema.deep_view(),
            )
        } else {
            Seq::empty()
        }),
{
    let ghost before = diags.deep_view();
    assert(before + Seq::empty() =~= before);
    let entries = match &service.attrs.node {
        Value::Mapping(entries) => entries,
        _ => {
            return ;
        },
    };
    let ghost model = entries.deep_view();
    let ghost reads = schema.deep_view();
    proof {
        lemma_map_stated(*entries);
        assert(before + stated_faults(model.take(0), reads) =~= before);
    }
    for i in 0..entries.len()
        invariant
            model == entries.deep_view(),
            reads == schema.deep_view(),
            diags.deep_view() == before + stated_faults(model.take(i as int), reads),
    {
        let ghost so_far = stated_faults(model.take(i as int), reads);
        proof {
            assert(model[i as int] == entries@[i as int].deep_view());
            assert(model.take(i + 1).drop_last() =~= model.take(i as int));
        }
        let key = &entries[i].0;
        if !same(key.node.as_str(), "kinds") {
            match schema.attr(key.node.as_str()) {
                Some(read) => {
                    check_type(diags, &entries[i].1, &read.decl.ty);
                    proof {
                        let more = type_faults(model[i as int].1, read.decl.ty);
                        assert(before + so_far + more =~= before + (so_far + more));
                    }
                },
                None => {
                    let mut known: Vec<String> = Vec::new();
                    for k in 0..schema.reads.len()
                        invariant
                            known@.len() == k,
                            forall|j: int|
                                0 <= j < k ==> (#[trigger] known@[j])@ == schema.reads@[j].decl.name@,
                    {
                        known.push(schema.reads[k].decl.name.clone());
                    }
                    assert(known.deep_view() =~= read_names(reads));
                    let message = around("unknown attribute `", key.node.as_str(), "`");
                    error_suggesting(
                        diags,
                        key.span,
                        message.as_str(),
                        "known attributes:",
                        sort_names(known),
                    );
                    proof {
                        let one = suggesting(
                            key.span,
                            message@,
                            "known attributes:"@,
                            sorted(read_names(reads)),
                        );
                        assert((before + so_far).push(one) =~= before + so_far.push(one));
                    }
                },
            }
        }
    }
    assert(model.take(model.len() as int) =~= model);
    let ghost first = stated_faults(model, reads);
    let ghost name = service.name.deep_view();
    assert(before + first + missing_faults(name, model, reads.take(0)) =~= before + first);
    for k in 0..schema.reads.len()
        invariant
            model == entries.deep_view(),
            reads == schema.reads.deep_view(),
            name == service.name.deep_view(),
            diags.deep_view() == before + first + missing_faults(
                name,
                model,
                reads.take(k as int),
            ),
    {
        let read = &schema.reads[k];
        let ghost so_far = missing_faults(name, model, reads.take(k as int));
        proof {
            assert(reads[k as int] == read.deep_view());
            assert(reads.take(k + 1).drop_last() =~= reads.take(k as int));
        }
        if read.decl.required && find_said(entries, read.decl.name.as_str()).is_none() {
            let mut message = around("service `", service.name.node.as_str(), "` is missing `");
            message.append(read.decl.name.as_str());
            message.append("`, which `");
            message.append(read.reader.as_str());
            message.append("` reads");
            error(diags, service.name.span, message.as_str());
            proof {
                let one = missing(name, reads[k as int]);
                assert((before + first + so_far).push(one) =~= before + first + so_far.push(one));
            }
        }
    }
    proof {
        assert(reads.take(reads.len() as int) =~= reads);
        let second = missing_faults(name, model, reads);
        assert(before + first + second =~= before + (first + second));
    }
}

/// Services by name, with one more in place of any of its name.
fn define(services: Vec<(String, Vec<String>)>, name: &str, kinds: Vec<String>) -> (r: Vec<
    (String, Vec<String>),
>)
    ensures
        r.deep_view() == with_service(services.deep_view(), name@, kinds.deep_view()),
{
    let ghost model = services.deep_view();
    let ghost all = services@;
    let ghost other = named_other(name@);
    let mut out: Vec<(String, Vec<String>)> = Vec::new();
    assert(out.deep_view() =~= model.take(0).filter(other)) by {
        reveal(Seq::filter);
    }
    for service in it: services
        invariant
            it.seq() == all,
            model.len() == all.len(),
            forall|k: int| 0 <= k < all.len() ==> (#[trigger] all[k]).deep_view() == model[k],
            other == named_other(name@),
            out.deep_view() == model.take(it.index() as int).filter(other),
    {
        let ghost n = it.index() as int;
        proof {
            reveal(Seq::filter);
            assert(all[n].deep_view() == model[n]);
            assert(model.take(n + 1).drop_last() =~= model.take(n));
        }
        if !same(service.0.as_str(), name) {
            let ghost before = out.deep_view();
            let ghost added = service.deep_view();
            out.push(service);
            assert(out.deep_view() =~= before.push(added));
        }
    }
    assert(model.take(model.len() as int) =~= model);
    let ghost before = out.deep_view();
    let ghost last = (name@, kinds.deep_view());
    out.push((name.to_owned(), kinds));
    assert(out.deep_view() =~= before.push(last));
    out
}

/// Resolve the deployment plugin, lower each service, and return the plan
/// fleet alongside the services by name.
fn lower_fleet(diags: &mut Vec<Diag>, fleet: &ast::Fleet, registry: &Registry) -> (r: (
    plan::Fleet,
    Vec<(String, Vec<String>)>,
))
    ensures
        r.0.deep_view() == fleet_of(fleet.deep_view()),
        r.1.deep_view() == services_of(fleet.deep_view().services),
        final(diags).deep_view() == old(diags).deep_view() + fleet_faults(
            fleet.deep_view(),
            registry.deep_view(),
        ),
{
    let ghost start = diags.deep_view();
    let ghost known = registry.deep_view();
    let deployment = fleet.deployment.node.as_str();
    let resolved = registry.deployment(deployment).is_some();
    if !resolved {
        let message = around("unknown deployment plugin `", deployment, "`");
        error_suggesting(
            diags,
            fleet.deployment.span,
            message.as_str(),
            "known deployments:",
            sort_names(registry.deployment_names()),
        );
    }
    let ghost before = diags.deep_view();
    let ghost model = fleet.services.deep_view();
    let ghost target = fleet_of(fleet.deep_view()).services;
    let mut services: Vec<(String, Vec<String>)> = Vec::new();
    let mut plan_services: Vec<plan::Service> = Vec::new();
    proof {
        assert(start + Seq::empty() =~= start);
        assert(services.deep_view() =~= services_of(model.take(0)));
        assert(plan_services.deep_view() =~= target.take(0));
        assert(before + services_faults(model.take(0), deployment@, known) =~= before);
    }
    for i in 0..fleet.services.len()
        invariant
            model == fleet.services.deep_view(),
            model == fleet.deep_view().services,
            deployment@ == fleet.deep_view().deployment.node,
            known == registry.deep_view(),
            resolved == (entry_of(known.deployments, deployment@) is Some),
            target == fleet_of(fleet.deep_view()).services,
            services.deep_view() == services_of(model.take(i as int)),
            plan_services.deep_view() == target.take(i as int),
            diags.deep_view() == before + services_faults(
                model.take(i as int),
                deployment@,
                known,
            ),
    {
        let service = &fleet.services[i].node;
        let ghost so_far = services_faults(model.take(i as int), deployment@, known);
        let ghost held = diags.deep_view();
        proof {
            assert(model[i as int] == fleet.services@[i as int].deep_view());
            assert(model.take(i + 1).drop_last() =~= model.take(i as int));
        }
        let kinds = service_kinds(diags, service);
        let ghost kinded = diags.deep_view();
        // Each plugin the service speaks reads attributes of its own, so a
        // service is checked against all of them together.
        match registry.service_schema(deployment, &kinds) {
            Ok(schema) => service_attrs(diags, service, &schema),
            // The unknown deployment is already reported above; anything
            // else is the plugins disagreeing with each other.
            Err(why) => {
                if resolved {
                    error(diags, service.name.span, why.as_str());
                } else {
                    assert(kinded + Seq::empty() =~= kinded);
                }
            },
        }
        proof {
            let told = service_faults(model[i as int].node, deployment@, known);
            let first = kinds_faults(model[i as int].node.attrs.node);
            let then = told.skip(first.len() as int);
            assert(told =~= first + then);
            assert(diags.deep_view() =~= held + told);
            assert(before + so_far + told =~= before + (so_far + told));
        }
        let one = plan::Service {
            name: service.name.node.clone(),
            kinds: clone_texts(kinds.as_slice()),
            attrs: lower_attrs(service),
        };
        let ghost listed = plan_services.deep_view();
        let ghost added = one.deep_view();
        plan_services.push(one);
        proof {
            assert(plan_services.deep_view() =~= listed.push(added));
            assert(added =~= target[i as int]);
            assert(target.take(i + 1) =~= listed.push(added));
        }
        services = define(services, service.name.node.as_str(), kinds);
    }
    proof {
        assert(model.take(model.len() as int) =~= model);
        assert(target.take(target.len() as int) =~= target);
        let told = services_faults(model, deployment@, known);
        let first = before.skip(start.len() as int);
        assert(before =~= start + first);
        assert(start + first + told =~= start + (first + told));
    }
    let plan_fleet = plan::Fleet {
        name: fleet.name.node.clone(),
        deployment: fleet.deployment.node.clone(),
        services: plan_services,
    };
    (plan_fleet, services)
}

/// Report a reference to an undefined service, suggesting the defined ones.
fn report_unknown_service(
    diags: &mut Vec<Diag>,
    span: Span,
    name: &str,
    services: &Vec<(String, Vec<String>)>,
)
    ensures
        final(diags).deep_view() == old(diags).deep_view() + seq![
            unknown_service(span, name@, services.deep_view()),
        ],
{
    let message = around("unknown service `", name, "`");
    error_suggesting(
        diags,
        span,
        message.as_str(),
        "defined services:",
        sort_names(entry_names(services)),
    );
}

/// Whether a name is among names.
fn names(list: &Vec<String>, name: &str) -> (r: bool)
    ensures
        r == list.deep_view().contains(name@),
{
    let ghost model = list.deep_view();
    for i in 0..list.len()
        invariant
            model == list.deep_view(),
            forall|j: int| 0 <= j < i ==> model[j] != name@,
    {
        if same(list[i].as_str(), name) {
            assert(model[i as int] == name@);
            return true;
        }
    }
    false
}

fn check_param(
    diags: &mut Vec<Diag>,
    arg: &Spanned<Value>,
    param: &Param,
    kind: &str,
    services: &Vec<(String, Vec<String>)>,
    registry: &Registry,
)
    ensures
        final(diags).deep_view() == old(diags).deep_view() + param_faults(
            arg.deep_view(),
            param.ty,
            kind@,
            services.deep_view(),
            registry.deep_view(),
        ),
{
    let ghost before = diags.deep_view();
    assert(before + Seq::empty() =~= before);
    match param.ty {
        ParamType::ServiceRef => match &arg.node {
            Value::Ident(name) => match find_entry(services, name.as_str()) {
                None => report_unknown_service(diags, arg.span, name.as_str(), services),
                Some(kinds) => {
                    if !names(kinds, kind) {
                        let ghost model = kinds.deep_view();
                        let ghost known = registry.deep_view();
                        let mut drivers: Vec<String> = Vec::new();
                        assert(drivers.deep_view() =~= Seq::empty());
                        for i in 0..kinds.len()
                            invariant
                                model == kinds.deep_view(),
                                known == registry.deep_view(),
                                drivers.deep_view() == drivers_among(model.take(i as int), known),
                        {
                            proof {
                                assert(model[i as int] == kinds@[i as int]@);
                                assert(model.take(i + 1).drop_last() =~= model.take(i as int));
                            }
                            if registry.driver(kinds[i].as_str()).is_some() {
                                let ghost held = drivers.deep_view();
                                drivers.push(kinds[i].clone());
                                assert(drivers.deep_view() =~= held.push(model[i as int]));
                            }
                        }
                        assert(model.take(model.len() as int) =~= model);
                        let mut message = around(
                            "service `",
                            name.as_str(),
                            "` does not speak `",
                        );
                        message.append(kind);
                        message.append("`");
                        let note = around("no available drivers for `", name.as_str(), "`");
                        error_options(
                            diags,
                            arg.span,
                            message.as_str(),
                            "drivers:",
                            sort_names(drivers),
                            note.as_str(),
                        );
                    }
                },
            },
            _ => error(diags, arg.span, "expected a service name"),
        },
        ParamType::Path => match &arg.node {
            Value::Str(_) => {},
            _ => error(diags, arg.span, "expected a string"),
        },
        ParamType::Str => match &arg.node {
            Value::Str(_) => {},
            _ => error(diags, arg.span, "expected a string"),
        },
        ParamType::Int => match &arg.node {
            Value::Int(_) => {},
            _ => error(diags, arg.span, "expected an integer"),
        },
        ParamType::Ident => match &arg.node {
            Value::Ident(_) => {},
            _ => error(diags, arg.span, "expected an identifier"),
        },
        ParamType::Matcher => {},
    }
}

/// Validate an operation's positional arguments against its parameters.
/// `label` is what the author wrote, for the message; `kind` is the plugin
/// answering it, which a service reference is checked against.
fn check_args(
    diags: &mut Vec<Diag>,
    call: &Spanned<OpCall>,
    sig: &OpSig,
    label: &str,
    kind: &str,
    services: &Vec<(String, Vec<String>)>,
    registry: &Registry,
)
    ensures
        final(diags).deep_view() == old(diags).deep_view() + args_faults(
            call.deep_view(),
            sig.deep_view(),
            label@,
            kind@,
            services.deep_view(),
            registry.deep_view(),
        ),
{
    let ghost before = diags.deep_view();
    let ghost params = sig.params.deep_view();
    let mut required: usize = 0;
    for i in 0..sig.params.len()
        invariant
            params == sig.params.deep_view(),
            required == required_among(params.take(i as int)),
            required <= i,
    {
        proof {
            assert(params[i as int] == sig.params@[i as int].deep_view());
            assert(params.take(i + 1).drop_last() =~= params.take(i as int));
        }
        if sig.params[i].required {
            required += 1;
        }
    }
    assert(params.take(params.len() as int) =~= params);
    let given = call.node.args.len();
    if given < required || given > sig.params.len() {
        let mut message = around("`", label, "` takes ");
        let takes = spell(sig.params.len() as u128);
        message.append(takes.as_str());
        message.append(" argument(s), got ");
        let got = spell(given as u128);
        message.append(got.as_str());
        error(diags, call.span, message.as_str());
        return ;
    }
    let ghost args = call.node.args.deep_view();
    let ghost known = registry.deep_view();
    let ghost defined = services.deep_view();
    assert(before + each_faults(args.take(0), params, kind@, defined, known) =~= before);
    for i in 0..call.node.args.len()
        invariant
            args == call.node.args.deep_view(),
            params == sig.params.deep_view(),
            args.len() <= params.len(),
            known == registry.deep_view(),
            defined == services.deep_view(),
            diags.deep_view() == before + each_faults(
                args.take(i as int),
                params,
                kind@,
                defined,
                known,
            ),
    {
        let ghost so_far = each_faults(args.take(i as int), params, kind@, defined, known);
        check_param(diags, &call.node.args[i], &sig.params[i], kind, services, registry);
        proof {
            assert(args[i as int] == call.node.args@[i as int].deep_view());
            assert(params[i as int] == sig.params@[i as int].deep_view());
            assert(args.take(i + 1).drop_last() =~= args.take(i as int));
            let more = param_faults(args[i as int], params[i as int].ty, kind@, defined, known);
            assert(before + so_far + more =~= before + (so_far + more));
        }
    }
    assert(args.take(args.len() as int) =~= args);
}

/// Validate the clauses on an operation against the ones its signature
/// allows, by the keyword the author wrote rather than its shape: two
/// clauses can share a shape and mean different things.
fn check_clauses(diags: &mut Vec<Diag>, op: &OpCall, sig: &OpSig)
    ensures
        final(diags).deep_view() == old(diags).deep_view() + clause_faults(
            op.deep_view().clauses,
            sig.deep_view().clauses,
        ),
{
    let ghost before = diags.deep_view();
    let ghost model = op.clauses.deep_view();
    let ghost allowed = sig.clauses.deep_view();
    assert(before + clause_faults(model.take(0), allowed) =~= before);
    for i in 0..op.clauses.len()
        invariant
            model == op.clauses.deep_view(),
            allowed == sig.clauses.deep_view(),
            diags.deep_view() == before + clause_faults(model.take(i as int), allowed),
    {
        let ghost so_far = clause_faults(model.take(i as int), allowed);
        proof {
            assert(model[i as int] == op.clauses@[i as int].deep_view());
            assert(model.take(i + 1).drop_last() =~= model.take(i as int));
        }
        let word = match &op.clauses[i].node {
            Clause::Body(_) => "body",
            Clause::Where(_) => "where",
        };
        let mut found = false;
        for k in 0..sig.clauses.len()
            invariant
                allowed == sig.clauses.deep_view(),
                found == exists|j: int|
                    0 <= j < k && (#[trigger] allowed[j]).keyword == word@,
        {
            assert(allowed[k as int] == sig.clauses@[k as int].deep_view());
            if same(sig.clauses[k].keyword.as_str(), word) {
                assert(allowed[k as int].keyword == word@);
                found = true;
            }
        }
        assert(found == allows(allowed, word@));
        if !found {
            let message = around("this operation takes no `", word, "`");
            error(diags, op.clauses[i].span, message.as_str());
            proof {
                let one = DiagModel::of(model[i as int].span, message@);
                assert((before + so_far).push(one) =~= before + so_far.push(one));
            }
        }
    }
    assert(model.take(model.len() as int) =~= model);
}

/// A readable label for an operation head, e.g. `POST` or `<table>.count`.
fn head_label(head: &HeadPattern) -> (r: String)
    ensures
        r@ == labelled(head.deep_view()),
{
    match head {
        HeadPattern::Exact(name) => name.clone(),
        HeadPattern::Wildcard { segments, tail } => {
            let mut parts: Vec<String> = Vec::new();
            for i in 0..segments.len()
                invariant
                    parts@.len() == i,
                    forall|j: int|
                        0 <= j < i ==> (#[trigger] parts@[j])@ == "<"@ + segments@[j]@ + ">"@,
            {
                parts.push(around("<", segments[i].as_str(), ">"));
            }
            let ghost shown = parts.deep_view();
            assert(shown =~= bracketed(segments.deep_view()));
            parts.push(tail.clone());
            assert(parts.deep_view() =~= shown.push(tail@));
            join(parts.as_slice(), ".")
        },
    }
}

/// A readable label for each operation.
fn head_labels(sigs: &Vec<OpSig>) -> (r: Vec<String>)
    ensures
        r.deep_view() == labels(sigs.deep_view()),
{
    let mut out: Vec<String> = Vec::new();
    for i in 0..sigs.len()
        invariant
            out@.len() == i,
            forall|j: int|
                0 <= j < i ==> (#[trigger] out@[j])@ == labelled(sigs@[j].head.deep_view()),
    {
        out.push(head_label(&sigs[i].head));
    }
    assert(out.deep_view() =~= labels(sigs.deep_view()));
    out
}

/// The operation of exactly that name.
fn find_exactly<'a>(sigs: &'a Vec<OpSig>, name: &str) -> (r: Option<&'a OpSig>)
    ensures
        r.deep_view() == exactly(sigs.deep_view(), name@),
{
    let ghost model = sigs.deep_view();
    assert(model.skip(0) =~= model);
    for i in 0..sigs.len()
        invariant
            model == sigs.deep_view(),
            exactly(model, name@) == exactly(model.skip(i as int), name@),
    {
        proof {
            assert(model[i as int] == sigs@[i as int].deep_view());
            assert(model.skip(i as int)[0] == model[i as int]);
            assert(model.skip(i as int).skip(1) =~= model.skip(i + 1));
        }
        let hit = match &sigs[i].head {
            HeadPattern::Exact(own) => same(own.as_str(), name),
            _ => false,
        };
        if hit {
            return Some(&sigs[i]);
        }
    }
    None
}

/// The payload a call carries.
fn body_of(op: &OpCall) -> (r: Option<Vec<(String, plan::Value)>>)
    ensures
        r.deep_view() == body_among(op.deep_view().clauses),
{
    let ghost model = op.clauses.deep_view();
    assert(model.skip(0) =~= model);
    for i in 0..op.clauses.len()
        invariant
            model == op.clauses.deep_view(),
            model == op.deep_view().clauses,
            body_among(model) == body_among(model.skip(i as int)),
    {
        proof {
            assert(model[i as int] == op.clauses@[i as int].deep_view());
            assert(model.skip(i as int)[0] == model[i as int]);
            assert(model.skip(i as int).skip(1) =~= model.skip(i + 1));
        }
        if let Clause::Body(value) = &op.clauses[i].node {
            let entries = match &value.node {
                Value::Mapping(entries) => {
                    proof {
                        lemma_map_stated(*entries);
                    }
                    lower_pairs(entries)
                },
                _ => Vec::new(),
            };
            assert(entries.deep_view() =~= entries_meant(entries_in(value.deep_view().node)));
            return Some(entries);
        }
    }
    None
}

/// The filter a call carries.
fn where_of(op: &OpCall) -> (r: Option<(String, plan::Value)>)
    ensures
        r.deep_view() == filter_among(op.deep_view().clauses),
{
    let ghost model = op.clauses.deep_view();
    assert(model.skip(0) =~= model);
    for i in 0..op.clauses.len()
        invariant
            model == op.clauses.deep_view(),
            model == op.deep_view().clauses,
            filter_among(model) == filter_among(model.skip(i as int)),
    {
        proof {
            assert(model[i as int] == op.clauses@[i as int].deep_view());
            assert(model.skip(i as int)[0] == model[i as int]);
            assert(model.skip(i as int).skip(1) =~= model.skip(i + 1));
        }
        if let Clause::Where(filter) = &op.clauses[i].node {
            return Some((filter.column.node.clone(), lower_value(&filter.value.node)));
        }
    }
    None
}

/// Lower a `do` action against its driver's signature.
fn do_step(
    diags: &mut Vec<Diag>,
    step: &Spanned<ast::Step>,
    services: &Vec<(String, Vec<String>)>,
    registry: &Registry,
) -> (r: Option<plan::Step>)
    ensures
        r.deep_view() == step_of(step.deep_view().node, registry.deep_view()),
        final(diags).deep_view() == old(diags).deep_view() + step_faults(
            step.deep_view(),
            services.deep_view(),
            registry.deep_view(),
        ),
{
    let ghost before = diags.deep_view();
    let action = &step.node.action;
    let op = &action.node;
    let ghost head = op.head.deep_view();
    if op.head.len() != 2 {
        error(diags, step.span, "a `do` action names a driver and an operation");
        return None;
    }
    let driver = &op.head[0];
    let operation = &op.head[1];
    assert(head[0] == driver.deep_view() && head[1] == operation.deep_view());
    let signatures = match registry.driver(driver.node.as_str()) {
        Some(signatures) => signatures,
        None => {
            let message = around("unknown driver `", driver.node.as_str(), "`");
            error_suggesting(
                diags,
                driver.span,
                message.as_str(),
                "known drivers:",
                sort_names(registry.driver_names()),
            );
            return None;
        },
    };
    let sig = match find_exactly(signatures, operation.node.as_str()) {
        Some(sig) => sig,
        None => {
            let mut message = around("`", driver.node.as_str(), "` has no operation `");
            message.append(operation.node.as_str());
            message.append("`");
            error_suggesting(
                diags,
                operation.span,
                message.as_str(),
                "operations:",
                sort_names(head_labels(signatures)),
            );
            return None;
        },
    };
    check_args(
        diags,
        action,
        sig,
        driver.node.as_str(),
        driver.node.as_str(),
        services,
        registry,
    );
    let ghost argued = diags.deep_view();
    check_clauses(diags, op, sig);
    let ghost claused = diags.deep_view();
    if let Some(expected) = &step.node.expect {
        if let Some(outcome) = &sig.result {
            check_type(diags, expected, outcome);
        } else {
            assert(claused + Seq::empty() =~= claused);
        }
    } else {
        assert(claused + Seq::empty() =~= claused);
    }
    proof {
        let a = argued.skip(before.len() as int);
        let b = claused.skip(argued.len() as int);
        let c = diags.deep_view().skip(claused.len() as int);
        assert(argued =~= before + a);
        assert(claused =~= argued + b);
        assert(diags.deep_view() =~= claused + c);
        assert(before + a + b + c =~= before + (a + b + c));
        assert(a =~= args_faults(
            action.deep_view(),
            sig.deep_view(),
            driver.node@,
            driver.node@,
            services.deep_view(),
            registry.deep_view(),
        ));
        assert(b =~= clause_faults(op.deep_view().clauses, sig.deep_view().clauses));
        assert(c =~= (match (step.deep_view().node.expect, sig.deep_view().result) {
            (Some(expected), Some(outcome)) => type_faults(expected, outcome),
            _ => Seq::empty(),
        }));
    }
    Some(
        plan::Step {
            driver: driver.node.clone(),
            operation: operation.node.clone(),
            args: lower_args(&op.args),
            body: body_of(op),
            expect: match &step.node.expect {
                Some(expected) => Some(lower_value(&expected.node)),
                None => None,
            },
        },
    )
}

fn head_matches(pattern: &HeadPattern, path: &Vec<Spanned<String>>) -> (r: bool)
    requires
        path@.len() > 0,
    ensures
        r == matches_path(pattern.deep_view(), path.deep_view().skip(1)),
{
    let ghost model = path.deep_view();
    let n: usize = path.len() - 1;
    match pattern {
        HeadPattern::Exact(name) => {
            if n == 1 {
                assert(model.skip(1)[0] == path@[1].deep_view());
                same(path[1].node.as_str(), name.as_str())
            } else {
                false
            }
        },
        HeadPattern::Wildcard { segments, tail } => {
            if n > 0 && n - 1 == segments.len() {
                assert(model.skip(1).last() == path@[n as int].deep_view());
                same(path[n].node.as_str(), tail.as_str())
            } else {
                false
            }
        },
    }
}

/// The first operation whose pattern matches the path behind the service a head
/// names.
fn find_matching<'a>(sigs: &'a Vec<OpSig>, head: &Vec<Spanned<String>>) -> (r: Option<&'a OpSig>)
    requires
        head@.len() > 0,
    ensures
        r.deep_view() == matching(sigs.deep_view(), head.deep_view().skip(1)),
{
    let ghost model = sigs.deep_view();
    let ghost path = head.deep_view().skip(1);
    assert(model.skip(0) =~= model);
    for i in 0..sigs.len()
        invariant
            head@.len() > 0,
            model == sigs.deep_view(),
            path == head.deep_view().skip(1),
            matching(model, path) == matching(model.skip(i as int), path),
    {
        proof {
            assert(model[i as int] == sigs@[i as int].deep_view());
            assert(model.skip(i as int)[0] == model[i as int]);
            assert(model.skip(i as int).skip(1) =~= model.skip(i + 1));
        }
        if head_matches(&sigs[i].head, head) {
            return Some(&sigs[i]);
        }
    }
    None
}

/// Which of the kinds of a service answers the path behind the service a head
/// names.
fn match_observable<'a>(
    kinds: &Vec<String>,
    head: &Vec<Spanned<String>>,
    registry: &'a Registry,
) -> (r: Option<(String, &'a OpSig)>)
    requires
        head@.len() > 0,
    ensures
        r.deep_view() == answered(
            kinds.deep_view(),
            head.deep_view().skip(1),
            registry.deep_view(),
        ),
{
    let ghost model = kinds.deep_view();
    let ghost path = head.deep_view().skip(1);
    let ghost known = registry.deep_view();
    assert(model.skip(0) =~= model);
    for i in 0..kinds.len()
        invariant
            head@.len() > 0,
            model == kinds.deep_view(),
            path == head.deep_view().skip(1),
            known == registry.deep_view(),
            answered(model, path, known) == answered(model.skip(i as int), path, known),
    {
        proof {
            assert(model[i as int] == kinds@[i as int]@);
            assert(model.skip(i as int)[0] == model[i as int]);
            assert(model.skip(i as int).skip(1) =~= model.skip(i + 1));
        }
        if let Some(sigs) = registry.observer(kinds[i].as_str()) {
            if let Some(sig) = find_matching(sigs, head) {
                return Some((kinds[i].clone(), sig));
            }
        }
    }
    None
}

/// A readable label for everything the kinds of a service answer.
fn list_observables(kinds: &Vec<String>, registry: &Registry) -> (r: Vec<String>)
    ensures
        r.deep_view() == observable_labels(kinds.deep_view(), registry.deep_view()),
{
    let ghost model = kinds.deep_view();
    let ghost known = registry.deep_view();
    let mut out: Vec<String> = Vec::new();
    assert(out.deep_view() =~= Seq::empty());
    for i in 0..kinds.len()
        invariant
            model == kinds.deep_view(),
            known == registry.deep_view(),
            out.deep_view() == observable_labels(model.take(i as int), known),
    {
        let ghost so_far = out.deep_view();
        proof {
            assert(model[i as int] == kinds@[i as int]@);
            assert(model.take(i + 1).drop_last() =~= model.take(i as int));
            assert(so_far + Seq::empty() =~= so_far);
        }
        if let Some(sigs) = registry.observer(kinds[i].as_str()) {
            let mut more = head_labels(sigs);
            let ghost added = more.deep_view();
            out.append(&mut more);
            assert(out.deep_view() =~= so_far + added);
        }
    }
    assert(model.take(model.len() as int) =~= model);
    out
}

/// The names of the segments behind the service a head names.
fn path_names(head: &Vec<Spanned<String>>) -> (r: Vec<String>)
    requires
        head@.len() > 0,
    ensures
        r.deep_view() == segments(head.deep_view().skip(1)),
{
    let mut out: Vec<String> = Vec::new();
    for i in 1..head.len()
        invariant
            out@.len() == i - 1,
            forall|j: int| 0 <= j < i - 1 ==> (#[trigger] out@[j])@ == head@[j + 1].node@,
    {
        out.push(head[i].node.clone());
    }
    assert(out.deep_view() =~= segments(head.deep_view().skip(1)));
    out
}

fn plugin_cmp(op: ast::CmpOp) -> (r: CmpOp)
    ensures
        r == compared(op),
{
    match op {
        ast::CmpOp::Eq => CmpOp::Eq,
        ast::CmpOp::Ne => CmpOp::Ne,
        ast::CmpOp::Lt => CmpOp::Lt,
        ast::CmpOp::Le => CmpOp::Le,
        ast::CmpOp::Gt => CmpOp::Gt,
        ast::CmpOp::Ge => CmpOp::Ge,
    }
}

fn check_comparison(diags: &mut Vec<Diag>, predicate: &ast::Predicate, sig: &OpSig)
    ensures
        final(diags).deep_view() == old(diags).deep_view() + comparison_faults(
            predicate.deep_view(),
            sig.deep_view(),
        ),
{
    let ghost before = diags.deep_view();
    match &sig.result {
        None => error(diags, predicate.left.span, "this observable has no value to compare"),
        Some(result) => {
            let op = plugin_cmp(predicate.op.node);
            let mut allowed = false;
            for i in 0..sig.cmp_ops.len()
                invariant
                    allowed == exists|j: int| 0 <= j < i && #[trigger] sig.cmp_ops@[j] == op,
            {
                if sig.cmp_ops[i] == op {
                    allowed = true;
                }
            }
            assert(allowed == sig.cmp_ops@.contains(op));
            if !allowed {
                error(diags, predicate.op.span, "this comparison is not allowed here");
            }
            let ghost listed = diags.deep_view();
            check_type(diags, &predicate.right, result);
            proof {
                let a = if allowed {
                    Seq::<DiagModel>::empty()
                } else {
                    seq![
                        DiagModel::of(
                            predicate.op.span,
                            "this comparison is not allowed here"@,
                        ),
                    ]
                };
                let b = type_faults(predicate.right.deep_view(), *result);
                assert(listed =~= before + a);
                assert(before + a + b =~= before + (a + b));
            }
        },
    }
}

/// Lower an `expect` predicate: resolve the observable, check the comparison,
/// and bind the observer that answers it.
fn lower_predicate(
    diags: &mut Vec<Diag>,
    predicate: &ast::Predicate,
    services: &Vec<(String, Vec<String>)>,
    registry: &Registry,
) -> (r: Option<plan::Check>)
    ensures
        r.deep_view() == check_of(
            predicate.deep_view(),
            services.deep_view(),
            registry.deep_view(),
        ),
        final(diags).deep_view() == old(diags).deep_view() + predicate_faults(
            predicate.deep_view(),
            services.deep_view(),
            registry.deep_view(),
        ),
{
    let ghost before = diags.deep_view();
    let left = &predicate.left;
    let call = &left.node;
    let ghost head = call.head.deep_view();
    if call.head.len() == 0 {
        error(diags, left.span, "an observable names a service");
        return None;
    }
    let service = &call.head[0];
    assert(head[0] == service.deep_view());
    let kinds = match find_entry(services, service.node.as_str()) {
        Some(kinds) => kinds,
        None => {
            report_unknown_service(diags, service.span, service.node.as_str(), services);
            return None;
        },
    };
    let path = path_names(&call.head);
    let name = join(path.as_slice(), ".");
    let (observer, sig) = match match_observable(kinds, &call.head, registry) {
        Some(found) => found,
        None => {
            let n = call.head.len();
            let span = if n > 1 {
                assert(head.skip(1)[0] == call.head@[1].deep_view());
                assert(head.skip(1).last() == call.head@[n - 1].deep_view());
                Span::new(call.head[1].span.start, call.head[n - 1].span.end)
            } else {
                left.span
            };
            let mut message = around("no observable `", name.as_str(), "` on service `");
            message.append(service.node.as_str());
            message.append("`");
            let note = around("no available observables for `", service.node.as_str(), "`");
            error_options(
                diags,
                span,
                message.as_str(),
                "observables:",
                sort_names(list_observables(kinds, registry)),
                note.as_str(),
            );
            return None;
        },
    };
    check_args(diags, left, sig, name.as_str(), observer.as_str(), services, registry);
    let ghost argued = diags.deep_view();
    check_clauses(diags, call, sig);
    let ghost claused = diags.deep_view();
    check_comparison(diags, predicate, sig);
    proof {
        let a = args_faults(
            left.deep_view(),
            sig.deep_view(),
            name@,
            observer@,
            services.deep_view(),
            registry.deep_view(),
        );
        let b = clause_faults(call.deep_view().clauses, sig.deep_view().clauses);
        let c = comparison_faults(predicate.deep_view(), sig.deep_view());
        assert(before + a + b + c =~= before + (a + b + c));
    }
    Some(
        plan::Check {
            service: service.node.clone(),
            observer,
            observable: path,
            args: lower_args(&call.args),
            filter: where_of(call),
            op: plugin_cmp(predicate.op.node),
            value: lower_value(&predicate.right.node),
        },
    )
}

fn lower_scenario(
    diags: &mut Vec<Diag>,
    scenario: &ast::Scenario,
    services: &Vec<(String, Vec<String>)>,
    registry: &Registry,
) -> (r: plan::Scenario)
    ensures
        r.deep_view() == scenario_of(
            scenario.deep_view(),
            services.deep_view(),
            registry.deep_view(),
        ),
        final(diags).deep_view() == old(diags).deep_view() + scenario_faults(
            scenario.deep_view(),
            services.deep_view(),
            registry.deep_view(),
        ),
{
    let ghost before = diags.deep_view();
    let ghost defined = services.deep_view();
    let ghost known = registry.deep_view();
    let ghost do_steps = scenario.steps.deep_view();
    let mut steps: Vec<plan::Step> = Vec::new();
    proof {
        assert(steps.deep_view() =~= Seq::empty());
        assert(before + steps_faults(do_steps.take(0), defined, known) =~= before);
    }
    for i in 0..scenario.steps.len()
        invariant
            do_steps == scenario.steps.deep_view(),
            defined == services.deep_view(),
            known == registry.deep_view(),
            steps.deep_view() == steps_of(do_steps.take(i as int), known),
            diags.deep_view() == before + steps_faults(do_steps.take(i as int), defined, known),
    {
        let ghost so_far = steps_faults(do_steps.take(i as int), defined, known);
        proof {
            assert(do_steps[i as int] == scenario.steps@[i as int].deep_view());
            assert(do_steps.take(i + 1).drop_last() =~= do_steps.take(i as int));
        }
        if let Some(step) = do_step(diags, &scenario.steps[i], services, registry) {
            let ghost held = steps.deep_view();
            let ghost added = step.deep_view();
            steps.push(step);
            assert(steps.deep_view() =~= held.push(added));
        }
        proof {
            let more = step_faults(do_steps[i as int], defined, known);
            assert(before + so_far + more =~= before + (so_far + more));
        }
    }
    assert(do_steps.take(do_steps.len() as int) =~= do_steps);
    let ghost stepped = steps_faults(do_steps, defined, known);
    let ghost middle = diags.deep_view();
    let ghost predicates = scenario.expect.deep_view();
    let mut checks: Vec<plan::Check> = Vec::new();
    proof {
        assert(checks.deep_view() =~= Seq::empty());
        assert(middle + predicates_faults(predicates.take(0), defined, known) =~= middle);
    }
    for i in 0..scenario.expect.len()
        invariant
            predicates == scenario.expect.deep_view(),
            defined == services.deep_view(),
            known == registry.deep_view(),
            checks.deep_view() == checks_of(predicates.take(i as int), defined, known),
            diags.deep_view() == middle + predicates_faults(
                predicates.take(i as int),
                defined,
                known,
            ),
    {
        let ghost so_far = predicates_faults(predicates.take(i as int), defined, known);
        proof {
            assert(predicates[i as int] == scenario.expect@[i as int].deep_view());
            assert(predicates.take(i + 1).drop_last() =~= predicates.take(i as int));
        }
        if let Some(check) = lower_predicate(diags, &scenario.expect[i].node, services, registry) {
            let ghost held = checks.deep_view();
            let ghost added = check.deep_view();
            checks.push(check);
            assert(checks.deep_view() =~= held.push(added));
        }
        proof {
            let more = predicate_faults(predicates[i as int].node, defined, known);
            assert(middle + so_far + more =~= middle + (so_far + more));
        }
    }
    assert(predicates.take(predicates.len() as int) =~= predicates);
    let ghost checked = predicates_faults(predicates, defined, known);
    let ghost late = diags.deep_view();
    // Every schedule waits this out, so a scenario that asks for longer than
    // a campaign can afford is refused rather than silently shortened.
    let limit = max_consistent_within();
    if limit.shorter(&scenario.consistent_within.node) {
        let spelled = limit.spell();
        let message = around("a fleet may be given at most ", spelled.as_str(), " to settle");
        error(diags, scenario.consistent_within.span, message.as_str());
    }
    proof {
        reveal(scenario_faults);
        let tail = diags.deep_view().skip(late.len() as int);
        assert(diags.deep_view() =~= late + tail);
        assert(before + stepped + checked + tail =~= before + (stepped + checked + tail));
        assert(diags.deep_view() =~= before + scenario_faults(
            scenario.deep_view(),
            defined,
            known,
        ));
    }
    let budget = match &scenario.budget {
        Some(budget) => Some(budget.node),
        None => None,
    };
    plan::Scenario {
        name: scenario.name.node.clone(),
        budget,
        consistent_within: scenario.consistent_within.node,
        steps,
        checks,
    }
}

/// Lower `file` to a [`plan::Plan`], or the diagnostics that prevent it: one
/// per semantic error.
pub fn lower(file: &ast::File, registry: &Registry) -> (r: Result<plan::Plan, Vec<Diag>>)
    ensures
        match r {
            Ok(plan) => lowered(file.deep_view(), registry.deep_view()) == Ok::<
                plan::PlanModel,
                Seq<DiagModel>,
            >(plan.deep_view()),
            Err(diags) => lowered(file.deep_view(), registry.deep_view()) == Err::<
                plan::PlanModel,
                Seq<DiagModel>,
            >(diags.deep_view()),
        },
{
    let mut diags: Vec<Diag> = Vec::new();
    assert(diags.deep_view() =~= Seq::empty());
    let (fleet, services) = lower_fleet(&mut diags, &file.fleet.node, registry);
    let ghost known = registry.deep_view();
    let ghost first = diags.deep_view();
    let ghost defined = services_of(file.fleet.node.deep_view().services);
    let ghost model = file.scenarios.deep_view();
    let ghost target = plan_of(file.deep_view(), known).scenarios;
    let mut scenarios: Vec<plan::Scenario> = Vec::new();
    proof {
        assert(first =~= fleet_faults(file.fleet.node.deep_view(), known));
        assert(scenarios.deep_view() =~= target.take(0));
        assert(first + scenarios_faults(model.take(0), defined, known) =~= first);
    }
    for i in 0..file.scenarios.len()
        invariant
            model == file.scenarios.deep_view(),
            known == registry.deep_view(),
            defined == services.deep_view(),
            defined == services_of(file.fleet.node.deep_view().services),
            target == plan_of(file.deep_view(), known).scenarios,
            scenarios.deep_view() == target.take(i as int),
            diags.deep_view() == first + scenarios_faults(model.take(i as int), defined, known),
    {
        let ghost so_far = scenarios_faults(model.take(i as int), defined, known);
        proof {
            assert(model[i as int] == file.scenarios@[i as int].deep_view());
            assert(model.take(i + 1).drop_last() =~= model.take(i as int));
        }
        let scenario = lower_scenario(&mut diags, &file.scenarios[i].node, &services, registry);
        let ghost held = scenarios.deep_view();
        let ghost added = scenario.deep_view();
        scenarios.push(scenario);
        proof {
            assert(scenarios.deep_view() =~= held.push(added));
            assert(added == target[i as int]);
            assert(target.take(i + 1) =~= held.push(added));
            let more = scenario_faults(model[i as int].node, defined, known);
            assert(first + so_far + more =~= first + (so_far + more));
        }
    }
    proof {
        assert(model.take(model.len() as int) =~= model);
        assert(target.take(target.len() as int) =~= target);
    }
    if diags.len() == 0 {
        Ok(plan::Plan { fleet, scenarios })
    } else {
        Err(diags)
    }
}

/// Check `file` against `registry`, returning one diagnostic per semantic error.
pub fn validate(file: &ast::File, registry: &Registry) -> (r: Vec<Diag>)
    ensures
        r.deep_view() == faults(file.deep_view(), registry.deep_view()),
{
    match lower(file, registry) {
        Ok(_) => {
            let none: Vec<Diag> = Vec::new();
            assert(none.deep_view() =~= faults(file.deep_view(), registry.deep_view()));
            none
        },
        Err(diags) => diags,
    }
}

} // verus!
