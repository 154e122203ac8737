//! The lowered form of a `.cru` file: the runtime's input.

use vstd::prelude::*;

use vstd::string::*;

use crate::schema::CmpOp;
use crate::text::{clone_texts, join, joined, quote, quoted, same, signed_decimal, spell_signed};
use crate::time::Duration;

verus! {

/// A literal value carried by a plan.
///
/// The `as_*` accessors mirror [`crate::schema::ValueType`], one per shape a
/// plugin can declare. The check pass has already validated a value against the
/// schema, so a `None` means the plugin asked for a shape it never declared.
#[derive(Debug, PartialEq, Eq, Hash)]
pub enum Value {
    /// Stated, and stated to be absent.
    Null,
    Str(String),
    Int(i64),
    Bool(bool),
    Duration(Duration),
    Ident(String),
    List(Vec<Value>),
    Mapping(Vec<(String, Value)>),
}

/// What a value means, apart from where its parts are kept.
pub enum Literal {
    Null,
    Str(Seq<char>),
    Int(i64),
    Bool(bool),
    Duration(Duration),
    Ident(Seq<char>),
    List(Seq<Literal>),
    Mapping(Seq<(Seq<char>, Literal)>),
}

/// The literal a value stands for.
pub open spec fn literal(v: Value) -> Literal
    decreases v,
{
    match v {
        Value::Null => Literal::Null,
        Value::Str(s) => Literal::Str(s@),
        Value::Int(n) => Literal::Int(n),
        Value::Bool(b) => Literal::Bool(b),
        Value::Duration(d) => Literal::Duration(d),
        Value::Ident(s) => Literal::Ident(s@),
        Value::List(items) => Literal::List(
            Seq::new(
                items@.len(),
                |i: int|
                    if 0 <= i < items@.len() {
                        literal(items@[i])
                    } else {
                        Literal::Null
                    },
            ),
        ),
        Value::Mapping(entries) => Literal::Mapping(
            Seq::new(
                entries@.len(),
                |i: int|
                    if 0 <= i < entries@.len() {
                        (entries@[i].0@, literal(entries@[i].1))
                    } else {
                        (Seq::empty(), Literal::Null)
                    },
            ),
        ),
    }
}

impl DeepView for Value {
    type V = Literal;

    open spec fn deep_view(&self) -> Literal {
        literal(*self)
    }
}

/// A list stands for its items, in order.
pub proof fn lemma_list_literal(items: Vec<Value>)
    ensures
        literal(Value::List(items)) == Literal::List(items.deep_view()),
{
    assert(literal(Value::List(items))->List_0 =~= items.deep_view());
}

/// A map stands for its entries, in the order they are written.
pub proof fn lemma_map_literal(entries: Vec<(String, Value)>)
    ensures
        literal(Value::Mapping(entries)) == Literal::Mapping(entries.deep_view()),
{
    assert(literal(Value::Mapping(entries))->Mapping_0 =~= entries.deep_view());
}

impl Clone for Value {
    fn clone(&self) -> (r: Value)
        ensures
            r.deep_view() == self.deep_view(),
        decreases self,
    {
        match self {
            Value::Null => Value::Null,
            Value::Str(s) => Value::Str(s.clone()),
            Value::Int(n) => Value::Int(*n),
            Value::Bool(b) => Value::Bool(*b),
            Value::Duration(d) => Value::Duration(*d),
            Value::Ident(s) => Value::Ident(s.clone()),
            Value::List(items) => {
                let mut out: Vec<Value> = Vec::new();
                for i in 0..items.len()
                    invariant
                        self is List,
                        *items == self->List_0,
                        out.len() == i,
                        forall|j: int| 0 <= j < i ==> (#[trigger] out@[j]).deep_view() == items@[j].deep_view(),
                {
                    out.push(items[i].clone());
                }
                proof {
                    lemma_list_literal(out);
                    lemma_list_literal(*items);
                    assert(out.deep_view() =~= items.deep_view());
                }
                Value::List(out)
            },
            Value::Mapping(entries) => {
                let mut out: Vec<(String, Value)> = Vec::new();
                for i in 0..entries.len()
                    invariant
                        self is Mapping,
                        *entries == self->Mapping_0,
                        out.len() == i,
                        forall|j: int| 0 <= j < i ==> (#[trigger] out@[j]).deep_view() == entries@[j].deep_view(),
                {
                    out.push((entries[i].0.clone(), entries[i].1.clone()));
                }
                proof {
                    lemma_map_literal(out);
                    lemma_map_literal(*entries);
                    assert(out.deep_view() =~= entries.deep_view());
                }
                Value::Mapping(out)
            },
        }
    }
}

/// A literal as an author would have written it.
pub open spec fn spelling(v: Literal) -> Seq<char>
    decreases v,
{
    match v {
        Literal::Null => "null"@,
        Literal::Str(s) => quoted(s),
        Literal::Int(n) => signed_decimal(n as int),
        Literal::Bool(b) => if b {
            "true"@
        } else {
            "false"@
        },
        Literal::Duration(d) => d.spelling(),
        Literal::Ident(name) => name,
        Literal::List(items) => "["@ + joined(spellings(items), ", "@) + "]"@,
        Literal::Mapping(entries) => "{ "@ + joined(entry_spellings(entries), ", "@) + " }"@,
    }
}

/// Each of a list's items as an author would have written it.
pub open spec fn spellings(items: Seq<Literal>) -> Seq<Seq<char>>
    decreases items,
{
    Seq::new(
        items.len(),
        |i: int|
            if 0 <= i < items.len() {
                spelling(items[i])
            } else {
                Seq::empty()
            },
    )
}

/// Each of a map's entries as an author would have written it.
pub open spec fn entry_spellings(entries: Seq<(Seq<char>, Literal)>) -> Seq<Seq<char>>
    decreases entries,
{
    Seq::new(
        entries.len(),
        |i: int|
            if 0 <= i < entries.len() {
                entries[i].0 + ": "@ + spelling(entries[i].1)
            } else {
                Seq::empty()
            },
    )
}

impl Value {
    /// The value as an author would have written it, so a verdict can quote a
    /// reading back in the terms of the scenario it came from.
    pub fn spell(&self) -> (r: String)
        ensures
            r@ == spelling(self.deep_view()),
        decreases self,
    {
        match self {
            Value::Null => "null".to_owned(),
            Value::Str(s) => quote(s.as_str()),
            Value::Int(n) => spell_signed(*n),
            Value::Bool(b) => if *b {
                "true".to_owned()
            } else {
                "false".to_owned()
            },
            Value::Duration(d) => d.spell(),
            Value::Ident(name) => name.clone(),
            Value::List(items) => {
                let mut parts: Vec<String> = Vec::new();
                for i in 0..items.len()
                    invariant
                        self is List,
                        *items == self->List_0,
                        parts.len() == i,
                        forall|j: int| 0 <= j < i ==> (#[trigger] parts@[j])@ == spelling(items@[j].deep_view()),
                {
                    parts.push(items[i].spell());
                }
                let mut out = "[".to_owned();
                out.append(join(parts.as_slice(), ", ").as_str());
                out.append("]");
                proof {
                    lemma_list_literal(*items);
                    assert(parts.deep_view() =~= spellings(items.deep_view()));
                }
                out
            },
            Value::Mapping(entries) => {
                let mut parts: Vec<String> = Vec::new();
                for i in 0..entries.len()
                    invariant
                        self is Mapping,
                        *entries == self->Mapping_0,
                        parts.len() == i,
                        forall|j: int|
                            0 <= j < i ==> (#[trigger] parts@[j])@ == entries@[j].0@ + ": "@ + spelling(
                                entries@[j].1.deep_view(),
                            ),
                {
                    let mut part = entries[i].0.clone();
                    part.append(": ");
                    part.append(entries[i].1.spell().as_str());
                    parts.push(part);
                }
                let mut out = "{ ".to_owned();
                out.append(join(parts.as_slice(), ", ").as_str());
                out.append(" }");
                proof {
                    lemma_map_literal(*entries);
                    assert(parts.deep_view() =~= entry_spellings(entries.deep_view()));
                }
                out
            },
        }
    }

    /// Whether two values are the same literal.
    pub fn same(&self, other: &Value) -> (r: bool)
        ensures
            r == (self.deep_view() == other.deep_view()),
        decreases self,
    {
        match (self, other) {
            (Value::Null, Value::Null) => true,
            (Value::Str(a), Value::Str(b)) => *a == *b,
            (Value::Int(a), Value::Int(b)) => *a == *b,
            (Value::Bool(a), Value::Bool(b)) => *a == *b,
            (Value::Duration(a), Value::Duration(b)) => a.same(b),
            (Value::Ident(a), Value::Ident(b)) => *a == *b,
            (Value::List(a), Value::List(b)) => {
                proof {
                    lemma_list_literal(*a);
                    lemma_list_literal(*b);
                }
                if a.len() != b.len() {
                    assert(a.deep_view().len() != b.deep_view().len());
                    return false;
                }
                for i in 0..a.len()
                    invariant
                        self is List,
                        *a == self->List_0,
                        a@.len() == b@.len(),
                        forall|j: int| 0 <= j < i ==> (#[trigger] a@[j]).deep_view() == b@[j].deep_view(),
                        self.deep_view() == Literal::List(a.deep_view()),
                        other.deep_view() == Literal::List(b.deep_view()),
                {
                    if !a[i].same(&b[i]) {
                        assert(a.deep_view()[i as int] != b.deep_view()[i as int]);
                        return false;
                    }
                }
                assert(a.deep_view() =~= b.deep_view());
                true
            },
            (Value::Mapping(a), Value::Mapping(b)) => {
                proof {
                    lemma_map_literal(*a);
                    lemma_map_literal(*b);
                }
                if a.len() != b.len() {
                    assert(a.deep_view().len() != b.deep_view().len());
                    return false;
                }
                for i in 0..a.len()
                    invariant
                        self is Mapping,
                        *a == self->Mapping_0,
                        a@.len() == b@.len(),
                        forall|j: int| 0 <= j < i ==> (#[trigger] a@[j]).deep_view() == b@[j].deep_view(),
                        self.deep_view() == Literal::Mapping(a.deep_view()),
                        other.deep_view() == Literal::Mapping(b.deep_view()),
                {
                    if a[i].0 != b[i].0 || !a[i].1.same(&b[i].1) {
                        assert(a.deep_view()[i as int] != b.deep_view()[i as int]);
                        return false;
                    }
                }
                assert(a.deep_view() =~= b.deep_view());
                true
            },
            _ => false,
        }
    }
}

/// A copy of each value, in order.
pub fn clone_values(values: &[Value]) -> (r: Vec<Value>)
    ensures
        r.deep_view() == values.deep_view(),
{
    let mut out: Vec<Value> = Vec::new();
    for i in 0..values.len()
        invariant
            out.len() == i,
            forall|j: int| 0 <= j < i ==> (#[trigger] out@[j]).deep_view() == values@[j].deep_view(),
    {
        out.push(values[i].clone());
    }
    assert(out.deep_view() =~= values.deep_view());
    out
}

/// A copy of each named value, in order.
pub fn clone_entries(entries: &[(String, Value)]) -> (r: Vec<(String, Value)>)
    ensures
        r.deep_view() == entries.deep_view(),
{
    let mut out: Vec<(String, Value)> = Vec::new();
    for i in 0..entries.len()
        invariant
            out.len() == i,
            forall|j: int| 0 <= j < i ==> (#[trigger] out@[j]).deep_view() == entries@[j].deep_view(),
    {
        out.push((entries[i].0.clone(), entries[i].1.clone()));
    }
    assert(out.deep_view() =~= entries.deep_view());
    out
}

/// A validated `.cru` file lowered to a fleet and its scenarios, with every
/// service, action, and observable carrying the plugin that serves it.
#[derive(Debug, PartialEq, Eq, Hash)]
pub struct Plan {
    pub fleet: Fleet,
    pub scenarios: Vec<Scenario>,
}

/// What a [`Plan`] holds.
#[verifier::ext_equal]
pub struct PlanModel {
    pub fleet: FleetModel,
    pub scenarios: Seq<ScenarioModel>,
}

impl DeepView for Plan {
    type V = PlanModel;

    open spec fn deep_view(&self) -> PlanModel {
        PlanModel { fleet: self.fleet.deep_view(), scenarios: self.scenarios.deep_view() }
    }
}

/// A content hash of a [`Plan`].
#[derive(Clone, Copy, Debug, PartialEq, Eq, Hash, Structural)]
pub struct SpecHash(pub u64);

/// A fleet: the deployment plugin that brings it up and the services it runs.
#[derive(Debug, PartialEq, Eq, Hash)]
pub struct Fleet {
    pub name: String,
    pub deployment: String,
    pub services: Vec<Service>,
}

/// What a [`Fleet`] holds.
#[verifier::ext_equal]
pub struct FleetModel {
    pub name: Seq<char>,
    pub deployment: Seq<char>,
    pub services: Seq<ServiceModel>,
}

impl DeepView for Fleet {
    type V = FleetModel;

    open spec fn deep_view(&self) -> FleetModel {
        FleetModel {
            name: self.name@,
            deployment: self.deployment@,
            services: self.services.deep_view(),
        }
    }
}

/// A service: the plugins it speaks and its bring-up attributes.
#[derive(Debug, PartialEq, Eq, Hash)]
pub struct Service {
    pub name: String,
    pub kinds: Vec<String>,
    pub attrs: Vec<(String, Value)>,
}

/// What a [`Service`] holds.
#[verifier::ext_equal]
pub struct ServiceModel {
    pub name: Seq<char>,
    pub kinds: Seq<Seq<char>>,
    pub attrs: Seq<(Seq<char>, Literal)>,
}

impl DeepView for Service {
    type V = ServiceModel;

    open spec fn deep_view(&self) -> ServiceModel {
        ServiceModel {
            name: self.name@,
            kinds: self.kinds.deep_view(),
            attrs: self.attrs.deep_view(),
        }
    }
}

impl Clone for Service {
    fn clone(&self) -> (r: Service)
        ensures
            r.deep_view() == self.deep_view(),
    {
        Service {
            name: self.name.clone(),
            kinds: clone_texts(self.kinds.as_slice()),
            attrs: clone_entries(self.attrs.as_slice()),
        }
    }
}

/// What the first entry under that key holds, or nothing where no entry has it.
pub open spec fn entry_of<K, T>(entries: Seq<(K, T)>, key: K) -> Option<T>
    decreases entries.len(),
{
    if entries.len() == 0 {
        None
    } else if entries[0].0 == key {
        Some(entries[0].1)
    } else {
        entry_of(entries.skip(1), key)
    }
}

/// The named entry of an attribute or body list.
pub fn lookup<'a>(entries: &'a [(String, Value)], name: &str) -> (r: Option<&'a Value>)
    ensures
        r.deep_view() == entry_of(entries.deep_view(), name@),
        r is Some ==> exists|i: int| 0 <= i < entries@.len() && *r->0 == (#[trigger] entries@[i]).1,
{
    let ghost model = entries.deep_view();
    proof {
        assert(model.skip(0) =~= model);
    }
    for i in 0..entries.len()
        invariant
            model == entries.deep_view(),
            entry_of(model, name@) == entry_of(model.skip(i as int), name@),
    {
        if same(entries[i].0.as_str(), name) {
            return Some(&entries[i].1);
        }
        assert(model.skip(i as int).skip(1) =~= model.skip(i + 1));
    }
    None
}

impl Service {
    /// The named bring-up attribute, if the service declares it.
    pub fn attr(&self, name: &str) -> (r: Option<&Value>)
        ensures
            r.deep_view() == entry_of(self.deep_view().attrs, name@),
    {
        lookup(self.attrs.as_slice(), name)
    }
}

/// A scenario: its heal-phase deadline, driver steps, and settled-state checks.
#[derive(Debug, PartialEq, Eq, Hash)]
pub struct Scenario {
    pub name: String,
    /// How long the campaign may run. `None` is unbounded, so every schedule is
    /// run.
    pub budget: Option<Duration>,
    pub consistent_within: Duration,
    pub steps: Vec<Step>,
    pub checks: Vec<Check>,
}

/// What a [`Scenario`] holds.
#[verifier::ext_equal]
pub struct ScenarioModel {
    pub name: Seq<char>,
    pub budget: Option<Duration>,
    pub consistent_within: Duration,
    pub steps: Seq<StepModel>,
    pub checks: Seq<CheckModel>,
}

impl DeepView for Scenario {
    type V = ScenarioModel;

    open spec fn deep_view(&self) -> ScenarioModel {
        ScenarioModel {
            name: self.name@,
            budget: self.budget,
            consistent_within: self.consistent_within,
            steps: self.steps.deep_view(),
            checks: self.checks.deep_view(),
        }
    }
}

/// A driver action, carrying the driver that runs it.
#[derive(Debug, PartialEq, Eq, Hash)]
pub struct Step {
    pub driver: String,
    pub operation: String,
    pub args: Vec<Value>,
    pub body: Option<Vec<(String, Value)>>,
    /// What the author says this produces, in the driver's own terms. None
    /// leaves the driver's default for the operation standing.
    pub expect: Option<Value>,
}

/// What a [`Step`] holds.
#[verifier::ext_equal]
pub struct StepModel {
    pub driver: Seq<char>,
    pub operation: Seq<char>,
    pub args: Seq<Literal>,
    pub body: Option<Seq<(Seq<char>, Literal)>>,
    pub expect: Option<Literal>,
}

impl DeepView for Step {
    type V = StepModel;

    open spec fn deep_view(&self) -> StepModel {
        StepModel {
            driver: self.driver@,
            operation: self.operation@,
            args: self.args.deep_view(),
            body: self.body.deep_view(),
            expect: self.expect.deep_view(),
        }
    }
}

/// A settled-state check, carrying the service and observer that answer it.
#[derive(Debug, PartialEq, Eq, Hash)]
pub struct Check {
    pub service: String,
    pub observer: String,
    pub observable: Vec<String>,
    /// The observable's positional arguments, as its plugin declared them.
    pub args: Vec<Value>,
    pub filter: Option<(String, Value)>,
    pub op: CmpOp,
    pub value: Value,
}

/// What a [`Check`] holds.
#[verifier::ext_equal]
pub struct CheckModel {
    pub service: Seq<char>,
    pub observer: Seq<char>,
    pub observable: Seq<Seq<char>>,
    pub args: Seq<Literal>,
    pub filter: Option<(Seq<char>, Literal)>,
    pub op: CmpOp,
    pub value: Literal,
}

impl DeepView for Check {
    type V = CheckModel;

    open spec fn deep_view(&self) -> CheckModel {
        CheckModel {
            service: self.service@,
            observer: self.observer@,
            observable: self.observable.deep_view(),
            args: self.args.deep_view(),
            filter: self.filter.deep_view(),
            op: self.op,
            value: self.value.deep_view(),
        }
    }
}

impl Clone for Check {
    fn clone(&self) -> (r: Check)
        ensures
            r.deep_view() == self.deep_view(),
    {
        Check {
            service: self.service.clone(),
            observer: self.observer.clone(),
            observable: clone_texts(self.observable.as_slice()),
            args: clone_values(self.args.as_slice()),
            filter: match &self.filter {
                Some(filter) => Some((filter.0.clone(), filter.1.clone())),
                None => None,
            },
            op: self.op,
            value: self.value.clone(),
        }
    }
}

impl CheckModel {
    /// The words of the observable as the scenario spells it.
    pub open spec fn words(self) -> Seq<Seq<char>> {
        seq![joined(self.observable, "."@)] + spellings(self.args) + match self.filter {
            Some((column, value)) => seq!["where "@ + column + " = "@ + spelling(value)],
            None => Seq::empty(),
        }
    }

    /// The observable as the scenario spells it.
    pub open spec fn observed(self) -> Seq<char> {
        joined(self.words(), " "@)
    }

    /// The whole clause as the scenario spells it.
    pub open spec fn clause(self) -> Seq<char> {
        self.observed() + " "@ + self.op.spelling() + " "@ + spelling(self.value)
    }
}

impl Check {
    /// The observable as the scenario spells it, for a verdict to point at.
    pub fn observable(&self) -> (r: String)
        ensures
            r@ == self.deep_view().observed(),
    {
        let mut words: Vec<String> = Vec::new();
        words.push(join(self.observable.as_slice(), "."));
        for i in 0..self.args.len()
            invariant
                words.len() == i + 1,
                words@[0]@ == joined(self.observable.deep_view(), "."@),
                forall|j: int| 0 <= j < i ==> (#[trigger] words@[j + 1])@ == spelling(self.args@[j].deep_view()),
        {
            words.push(self.args[i].spell());
            assert(words@[i + 1]@ == spelling(self.args@[i as int].deep_view()));
        }
        let ghost args = words.deep_view();
        assert(args =~= seq![joined(self.observable.deep_view(), "."@)] + spellings(
            self.args.deep_view(),
        )) by {
            assert forall|k: int| 0 < k < args.len() implies args[k] == spelling(
                self.args@[k - 1].deep_view(),
            ) by {
                assert(words@[(k - 1) + 1]@ == spelling(self.args@[k - 1].deep_view()));
            }
        }
        if let Some(filter) = &self.filter {
            let mut word = "where ".to_owned();
            word.append(filter.0.as_str());
            word.append(" = ");
            word.append(filter.1.spell().as_str());
            words.push(word);
        }
        proof {
            assert(words.deep_view() =~= self.deep_view().words());
        }
        join(words.as_slice(), " ")
    }

    /// The whole clause as the scenario spells it, observable and all.
    pub fn stated(&self) -> (r: String)
        ensures
            r@ == self.deep_view().clause(),
    {
        let mut out = self.observable();
        out.append(" ");
        out.append(self.op.spell());
        out.append(" ");
        out.append(self.value.spell().as_str());
        out
    }
}

impl Literal {
    /// The texts of a list of nothing but texts.
    pub open spec fn texts(self) -> Option<Seq<Seq<char>>> {
        match self {
            Literal::List(items) => if forall|i: int| 0 <= i < items.len() ==> items[i] is Str {
                Some(items.map_values(|item: Literal| item->Str_0))
            } else {
                None
            },
            _ => None,
        }
    }
}

impl Value {
    /// The text, of a value that is one.
    pub fn as_str(&self) -> (r: Option<&str>)
        ensures
            r.deep_view() == (match self.deep_view() {
                Literal::Str(s) => Some(s),
                _ => None,
            }),
    {
        match self {
            Value::Str(s) => Some(s.as_str()),
            _ => None,
        }
    }

    /// The service this value names, for a value declared as a service
    /// reference.
    pub fn as_service_ref(&self) -> (r: Option<&str>)
        ensures
            r.deep_view() == (match self.deep_view() {
                Literal::Ident(s) => Some(s),
                _ => None,
            }),
    {
        match self {
            Value::Ident(s) => Some(s.as_str()),
            _ => None,
        }
    }

    /// The number, of a value that is one.
    pub fn as_int(&self) -> (r: Option<i64>)
        ensures
            r == (match self.deep_view() {
                Literal::Int(n) => Some(n),
                _ => None,
            }),
    {
        match self {
            Value::Int(n) => Some(*n),
            _ => None,
        }
    }

    /// The truth value, of a value that is one.
    pub fn as_bool(&self) -> (r: Option<bool>)
        ensures
            r == (match self.deep_view() {
                Literal::Bool(b) => Some(b),
                _ => None,
            }),
    {
        match self {
            Value::Bool(b) => Some(*b),
            _ => None,
        }
    }

    /// The span of time, of a value that is one.
    pub fn as_duration(&self) -> (r: Option<Duration>)
        ensures
            r == (match self.deep_view() {
                Literal::Duration(d) => Some(d),
                _ => None,
            }),
    {
        match self {
            Value::Duration(d) => Some(*d),
            _ => None,
        }
    }

    /// The items, of a value that is a list.
    pub fn as_list(&self) -> (r: Option<&[Value]>)
        ensures
            r.deep_view() == (match self.deep_view() {
                Literal::List(items) => Some(items),
                _ => None,
            }),
    {
        match self {
            Value::List(items) => {
                proof {
                    lemma_list_literal(*items);
                }
                let r = items.as_slice();
                assert(r.deep_view() =~= items.deep_view());
                Some(r)
            },
            _ => None,
        }
    }

    /// The entries, of a value that is a map.
    pub fn as_map(&self) -> (r: Option<&[(String, Value)]>)
        ensures
            r.deep_view() == (match self.deep_view() {
                Literal::Mapping(entries) => Some(entries),
                _ => None,
            }),
    {
        match self {
            Value::Mapping(entries) => {
                proof {
                    lemma_map_literal(*entries);
                }
                let r = entries.as_slice();
                assert(r.deep_view() =~= entries.deep_view());
                Some(r)
            },
            _ => None,
        }
    }

    /// The strings in a list value, or `None` if any entry is not a string.
    pub fn as_strs(&self) -> (r: Option<Vec<&str>>)
        ensures
            r.deep_view() == self.deep_view().texts(),
    {
        match self {
            Value::List(items) => {
                proof {
                    lemma_list_literal(*items);
                }
                let ghost model = items.deep_view();
                let mut out: Vec<&str> = Vec::new();
                for i in 0..items.len()
                    invariant
                        model == items.deep_view(),
                        self.deep_view() == Literal::List(model),
                        out.len() == i,
                        forall|j: int| 0 <= j < i ==> #[trigger] model[j] is Str && out@[j]@ == model[j]->Str_0,
                {
                    assert(model[i as int] == items@[i as int].deep_view());
                    match items[i].as_str() {
                        Some(s) => out.push(s),
                        None => {
                            assert(!(model[i as int] is Str));
                            return None;
                        },
                    }
                }
                assert(out.deep_view() =~= model.map_values(|item: Literal| item->Str_0));
                Some(out)
            },
            _ => None,
        }
    }
}

impl Clone for Fleet {
    fn clone(&self) -> (r: Fleet)
        ensures
            r.deep_view() == self.deep_view(),
    {
        let mut services: Vec<Service> = Vec::new();
        for i in 0..self.services.len()
            invariant
                services.len() == i,
                forall|j: int|
                    0 <= j < i ==> (#[trigger] services@[j]).deep_view() == self.services@[j].deep_view(),
        {
            services.push(self.services[i].clone());
        }
        assert(services.deep_view() =~= self.services.deep_view());
        Fleet { name: self.name.clone(), deployment: self.deployment.clone(), services }
    }
}

impl Clone for Step {
    fn clone(&self) -> (r: Step)
        ensures
            r.deep_view() == self.deep_view(),
    {
        Step {
            driver: self.driver.clone(),
            operation: self.operation.clone(),
            args: clone_values(self.args.as_slice()),
            body: match &self.body {
                Some(entries) => Some(clone_entries(entries.as_slice())),
                None => None,
            },
            expect: match &self.expect {
                Some(value) => Some(value.clone()),
                None => None,
            },
        }
    }
}

/// A copy of each step, in order.
pub fn clone_steps(steps: &[Step]) -> (r: Vec<Step>)
    ensures
        r.deep_view() == steps.deep_view(),
{
    let mut out: Vec<Step> = Vec::new();
    for i in 0..steps.len()
        invariant
            out.len() == i,
            forall|j: int| 0 <= j < i ==> (#[trigger] out@[j]).deep_view() == steps@[j].deep_view(),
    {
        out.push(steps[i].clone());
    }
    assert(out.deep_view() =~= steps.deep_view());
    out
}

/// A copy of each check, in order.
pub fn clone_checks(checks: &[Check]) -> (r: Vec<Check>)
    ensures
        r.deep_view() == checks.deep_view(),
{
    let mut out: Vec<Check> = Vec::new();
    for i in 0..checks.len()
        invariant
            out.len() == i,
            forall|j: int| 0 <= j < i ==> (#[trigger] out@[j]).deep_view() == checks@[j].deep_view(),
    {
        out.push(checks[i].clone());
    }
    assert(out.deep_view() =~= checks.deep_view());
    out
}

/// The longest a fleet may be given to settle. Every schedule waits this out.
pub open spec fn longest_settling() -> Duration {
    Duration::of_secs(30)
}

/// The longest a fleet may be given to settle.
pub fn max_consistent_within() -> (r: Duration)
    ensures
        r == longest_settling(),
        r@ == 30_000_000_000,
{
    Duration::from_secs(30)
}

} // verus!
