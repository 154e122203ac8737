//! The parsed form of a `.cru` file.

use vstd::prelude::*;

use super::span::{At, Span, Spanned};
use crate::time::Duration;

verus! {

/// A parsed `.cru` file: one fleet and its scenarios.
#[derive(Debug, PartialEq)]
pub struct File {
    pub fleet: Spanned<Fleet>,
    pub scenarios: Vec<Spanned<Scenario>>,
}

/// What a [`File`] holds.
#[verifier::ext_equal]
pub struct FileModel {
    pub fleet: At<FleetModel>,
    pub scenarios: Seq<At<ScenarioModel>>,
}

impl DeepView for File {
    type V = FileModel;

    open spec fn deep_view(&self) -> FileModel {
        FileModel { fleet: self.fleet.deep_view(), scenarios: self.scenarios.deep_view() }
    }
}

/// A fleet: its name, the plugin that brings its services up, and those services.
#[derive(Debug, PartialEq)]
pub struct Fleet {
    pub name: Spanned<String>,
    pub deployment: Spanned<String>,
    pub services: Vec<Spanned<Service>>,
}

/// What a [`Fleet`] holds.
#[verifier::ext_equal]
pub struct FleetModel {
    pub name: At<Seq<char>>,
    pub deployment: At<Seq<char>>,
    pub services: Seq<At<ServiceModel>>,
}

impl DeepView for Fleet {
    type V = FleetModel;

    open spec fn deep_view(&self) -> FleetModel {
        FleetModel {
            name: self.name.deep_view(),
            deployment: self.deployment.deep_view(),
            services: self.services.deep_view(),
        }
    }
}

/// A service: its name and its bring-up attributes, a map the deployment plugin
/// interprets.
#[derive(Debug, PartialEq)]
pub struct Service {
    pub name: Spanned<String>,
    pub attrs: Spanned<Value>,
}

/// What a [`Service`] holds.
#[verifier::ext_equal]
pub struct ServiceModel {
    pub name: At<Seq<char>>,
    pub attrs: At<Stated>,
}

impl DeepView for Service {
    type V = ServiceModel;

    open spec fn deep_view(&self) -> ServiceModel {
        ServiceModel { name: self.name.deep_view(), attrs: self.attrs.deep_view() }
    }
}

/// A scenario: a name, a heal-phase deadline, the driver steps to run, and the
/// settled-state expectation.
#[derive(Debug, PartialEq)]
pub struct Scenario {
    pub name: Spanned<String>,
    /// How long the campaign may run. Absent is unbounded: every schedule runs.
    pub budget: Option<Spanned<Duration>>,
    pub consistent_within: Spanned<Duration>,
    pub steps: Vec<Spanned<Step>>,
    pub expect: Vec<Spanned<Predicate>>,
}

/// What a [`Scenario`] holds.
#[verifier::ext_equal]
pub struct ScenarioModel {
    pub name: At<Seq<char>>,
    pub budget: Option<At<Duration>>,
    pub consistent_within: At<Duration>,
    pub steps: Seq<At<StepModel>>,
    pub expect: Seq<At<PredicateModel>>,
}

impl DeepView for Scenario {
    type V = ScenarioModel;

    open spec fn deep_view(&self) -> ScenarioModel {
        ScenarioModel {
            name: self.name.deep_view(),
            budget: self.budget.deep_view(),
            consistent_within: self.consistent_within.deep_view(),
            steps: self.steps.deep_view(),
            expect: self.expect.deep_view(),
        }
    }
}

/// One `do` step: an action, and what its author says it produces. Without a
/// stated outcome the driver's own default for the operation stands.
#[derive(Debug, PartialEq)]
pub struct Step {
    pub action: Spanned<OpCall>,
    pub expect: Option<Spanned<Value>>,
}

/// What a [`Step`] holds.
#[verifier::ext_equal]
pub struct StepModel {
    pub action: At<OpCallModel>,
    pub expect: Option<At<Stated>>,
}

impl DeepView for Step {
    type V = StepModel;

    open spec fn deep_view(&self) -> StepModel {
        StepModel { action: self.action.deep_view(), expect: self.expect.deep_view() }
    }
}

/// An operation call: a head (`http POST`, `db.orders.count`), positional
/// arguments, and clauses.
#[derive(Debug, PartialEq)]
pub struct OpCall {
    pub head: Vec<Spanned<String>>,
    pub args: Vec<Spanned<Value>>,
    pub clauses: Vec<Spanned<Clause>>,
}

/// What an [`OpCall`] holds.
#[verifier::ext_equal]
pub struct OpCallModel {
    pub head: Seq<At<Seq<char>>>,
    pub args: Seq<At<Stated>>,
    pub clauses: Seq<At<ClauseModel>>,
}

impl DeepView for OpCall {
    type V = OpCallModel;

    open spec fn deep_view(&self) -> OpCallModel {
        OpCallModel {
            head: self.head.deep_view(),
            args: self.args.deep_view(),
            clauses: self.clauses.deep_view(),
        }
    }
}

/// A clause attached to an operation call.
#[derive(Debug, PartialEq)]
pub enum Clause {
    /// A `body { ... }` payload.
    Body(Spanned<Value>),
    /// A `where <column> = <value>` filter.
    Where(Filter),
}

/// What a [`Clause`] holds.
pub enum ClauseModel {
    Body(At<Stated>),
    Where(FilterModel),
}

impl DeepView for Clause {
    type V = ClauseModel;

    open spec fn deep_view(&self) -> ClauseModel {
        match self {
            Clause::Body(value) => ClauseModel::Body(value.deep_view()),
            Clause::Where(filter) => ClauseModel::Where(filter.deep_view()),
        }
    }
}

/// A single-column equality filter.
#[derive(Debug, PartialEq)]
pub struct Filter {
    pub column: Spanned<String>,
    pub value: Spanned<Value>,
}

/// What a [`Filter`] holds.
#[verifier::ext_equal]
pub struct FilterModel {
    pub column: At<Seq<char>>,
    pub value: At<Stated>,
}

impl DeepView for Filter {
    type V = FilterModel;

    open spec fn deep_view(&self) -> FilterModel {
        FilterModel { column: self.column.deep_view(), value: self.value.deep_view() }
    }
}

/// A scenario-level expectation: an observable compared against a value.
#[derive(Debug, PartialEq)]
pub struct Predicate {
    pub left: Spanned<OpCall>,
    pub op: Spanned<CmpOp>,
    pub right: Spanned<Value>,
}

/// What a [`Predicate`] holds.
#[verifier::ext_equal]
pub struct PredicateModel {
    pub left: At<OpCallModel>,
    pub op: At<CmpOp>,
    pub right: At<Stated>,
}

impl DeepView for Predicate {
    type V = PredicateModel;

    open spec fn deep_view(&self) -> PredicateModel {
        PredicateModel {
            left: self.left.deep_view(),
            op: self.op.deep_view(),
            right: self.right.deep_view(),
        }
    }
}

/// A comparison operator.
#[derive(Clone, Copy, Debug, PartialEq, Eq, Structural)]
pub enum CmpOp {
    Eq,
    Ne,
    Lt,
    Le,
    Gt,
    Ge,
}

impl DeepView for CmpOp {
    type V = CmpOp;

    open spec fn deep_view(&self) -> CmpOp {
        *self
    }
}

/// A literal or composite value.
#[derive(Debug, PartialEq)]
pub enum Value {
    /// Stated, and stated to be absent.
    Null,
    Str(String),
    Int(i64),
    Bool(bool),
    Duration(Duration),
    Ident(String),
    List(Vec<Spanned<Value>>),
    Mapping(Vec<(Spanned<String>, Spanned<Value>)>),
}

/// What a value states, and where each part of it stands.
pub enum Stated {
    Null,
    Str(Seq<char>),
    Int(i64),
    Bool(bool),
    Duration(Duration),
    Ident(Seq<char>),
    List(Seq<At<Stated>>),
    Mapping(Seq<(At<Seq<char>>, At<Stated>)>),
}

/// What a value states.
pub open spec fn stated(v: Value) -> Stated
    decreases v,
{
    match v {
        Value::Null => Stated::Null,
        Value::Str(s) => Stated::Str(s@),
        Value::Int(n) => Stated::Int(n),
        Value::Bool(b) => Stated::Bool(b),
        Value::Duration(d) => Stated::Duration(d),
        Value::Ident(s) => Stated::Ident(s@),
        Value::List(items) => Stated::List(
            Seq::new(
                items@.len(),
                |i: int|
                    if 0 <= i < items@.len() {
                        At { node: stated(items@[i].node), span: items@[i].span }
                    } else {
                        At { node: Stated::Null, span: Span { start: 0, end: 0 } }
                    },
            ),
        ),
        Value::Mapping(entries) => Stated::Mapping(
            Seq::new(
                entries@.len(),
                |i: int|
                    if 0 <= i < entries@.len() {
                        (
                            At { node: entries@[i].0.node@, span: entries@[i].0.span },
                            At { node: stated(entries@[i].1.node), span: entries@[i].1.span },
                        )
                    } else {
                        (
                            At { node: Seq::empty(), span: Span { start: 0, end: 0 } },
                            At { node: Stated::Null, span: Span { start: 0, end: 0 } },
                        )
                    },
            ),
        ),
    }
}

impl DeepView for Value {
    type V = Stated;

    open spec fn deep_view(&self) -> Stated {
        stated(*self)
    }
}

/// A list states its items, in order.
pub proof fn lemma_list_stated(items: Vec<Spanned<Value>>)
    ensures
        stated(Value::List(items)) == Stated::List(items.deep_view()),
{
    assert(stated(Value::List(items))->List_0 =~= items.deep_view());
}

/// A map states its entries, in the order they are written.
pub proof fn lemma_map_stated(entries: Vec<(Spanned<String>, Spanned<Value>)>)
    ensures
        stated(Value::Mapping(entries)) == Stated::Mapping(entries.deep_view()),
{
    assert(stated(Value::Mapping(entries))->Mapping_0 =~= entries.deep_view());
}

} // verus!
