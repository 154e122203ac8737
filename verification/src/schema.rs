//! Schema descriptors: the data a plugin advertises about the attributes,
//! operations, and observables it accepts.

use vstd::prelude::*;

use crate::text::{clone_texts, same};

verus! {

/// A comparison operator an observable's result can be tested with.
#[derive(Clone, Copy, Debug, PartialEq, Eq, Hash, Structural)]
pub enum CmpOp {
    Eq,
    Ne,
    Lt,
    Le,
    Gt,
    Ge,
}

impl DeepView for CmpOp {
    type V = CmpOp;

    open spec fn deep_view(&self) -> CmpOp {
        *self
    }
}

impl CmpOp {
    /// Every comparison operator.
    pub fn all() -> (r: Vec<CmpOp>)
        ensures
            r@ == seq![CmpOp::Eq, CmpOp::Ne, CmpOp::Lt, CmpOp::Le, CmpOp::Gt, CmpOp::Ge],
            forall|op: CmpOp| r@.contains(op),
    {
        let r = vec![CmpOp::Eq, CmpOp::Ne, CmpOp::Lt, CmpOp::Le, CmpOp::Gt, CmpOp::Ge];
        proof {
            assert(r@ =~= seq![CmpOp::Eq, CmpOp::Ne, CmpOp::Lt, CmpOp::Le, CmpOp::Gt, CmpOp::Ge]);
            assert forall|op: CmpOp| r@.contains(op) by {
                match op {
                    CmpOp::Eq => assert(r@[0] == op),
                    CmpOp::Ne => assert(r@[1] == op),
                    CmpOp::Lt => assert(r@[2] == op),
                    CmpOp::Le => assert(r@[3] == op),
                    CmpOp::Gt => assert(r@[4] == op),
                    CmpOp::Ge => assert(r@[5] == op),
                }
            }
        }
        r
    }

    /// The operator as a scenario writes it.
    pub open spec fn spelling(self) -> Seq<char> {
        match self {
            CmpOp::Eq => "=="@,
            CmpOp::Ne => "!="@,
            CmpOp::Lt => "<"@,
            CmpOp::Le => "<="@,
            CmpOp::Gt => ">"@,
            CmpOp::Ge => ">="@,
        }
    }

    /// The operator as a scenario writes it.
    pub fn spell(&self) -> (r: &'static str)
        ensures
            r@ == self.spelling(),
    {
        match self {
            CmpOp::Eq => "==",
            CmpOp::Ne => "!=",
            CmpOp::Lt => "<",
            CmpOp::Le => "<=",
            CmpOp::Gt => ">",
            CmpOp::Ge => ">=",
        }
    }
}

/// The type of a value in a schema.
#[derive(Debug, PartialEq, Eq)]
pub enum ValueType {
    Str,
    Int,
    Bool,
    Duration,
    /// One value, of whichever kind the fleet turns out to hold, ie: a field in a
    /// JSON body. What the scenario compares it against says which kind
    /// was meant.
    Scalar,
    List(Box<ValueType>),
    /// A map whose keys are names and whose values are all of one type.
    MapOf(Box<ValueType>),
    Mapping,
    ServiceRef,
}

impl DeepView for ValueType {
    type V = ValueType;

    open spec fn deep_view(&self) -> ValueType {
        *self
    }
}

impl Clone for ValueType {
    fn clone(&self) -> (r: ValueType)
        ensures
            r == *self,
        decreases self,
    {
        match self {
            ValueType::Str => ValueType::Str,
            ValueType::Int => ValueType::Int,
            ValueType::Bool => ValueType::Bool,
            ValueType::Duration => ValueType::Duration,
            ValueType::Scalar => ValueType::Scalar,
            ValueType::List(of) => ValueType::List(Box::new((&**of).clone())),
            ValueType::MapOf(of) => ValueType::MapOf(Box::new((&**of).clone())),
            ValueType::Mapping => ValueType::Mapping,
            ValueType::ServiceRef => ValueType::ServiceRef,
        }
    }
}

/// One attribute a deployment plugin accepts inside a `service { ... }` body.
#[derive(Debug, PartialEq, Eq)]
pub struct AttrDecl {
    pub name: String,
    pub ty: ValueType,
    pub required: bool,
}

/// What an [`AttrDecl`] declares.
#[verifier::ext_equal]
pub struct AttrDeclModel {
    pub name: Seq<char>,
    pub ty: ValueType,
    pub required: bool,
}

impl DeepView for AttrDecl {
    type V = AttrDeclModel;

    open spec fn deep_view(&self) -> AttrDeclModel {
        AttrDeclModel { name: self.name@, ty: self.ty, required: self.required }
    }
}

impl Clone for AttrDecl {
    fn clone(&self) -> (r: AttrDecl)
        ensures
            r.deep_view() == self.deep_view(),
    {
        AttrDecl { name: self.name.clone(), ty: self.ty.clone(), required: self.required }
    }
}

impl AttrDecl {
    /// An attribute a service must carry.
    pub fn required(name: &str, ty: ValueType) -> (r: AttrDecl)
        ensures
            r.deep_view() == (AttrDeclModel { name: name@, ty, required: true }),
    {
        AttrDecl { name: name.to_owned(), ty, required: true }
    }

    /// An attribute a service may carry.
    pub fn optional(name: &str, ty: ValueType) -> (r: AttrDecl)
        ensures
            r.deep_view() == (AttrDeclModel { name: name@, ty, required: false }),
    {
        AttrDecl { name: name.to_owned(), ty, required: false }
    }
}

/// The attribute schema for a deployment plugin's service body.
#[derive(Debug, PartialEq, Eq)]
pub struct AttrSchema {
    pub attrs: Vec<AttrDecl>,
}

impl DeepView for AttrSchema {
    type V = Seq<AttrDeclModel>;

    open spec fn deep_view(&self) -> Seq<AttrDeclModel> {
        self.attrs.deep_view()
    }
}

/// The first declaration of that name, or nothing where there is none.
pub open spec fn declared(attrs: Seq<AttrDeclModel>, name: Seq<char>) -> Option<AttrDeclModel>
    decreases attrs.len(),
{
    if attrs.len() == 0 {
        None
    } else if attrs[0].name == name {
        Some(attrs[0])
    } else {
        declared(attrs.skip(1), name)
    }
}

impl AttrSchema {
    /// A schema of those attributes.
    pub fn new(attrs: Vec<AttrDecl>) -> (r: AttrSchema)
        ensures
            r.deep_view() == attrs.deep_view(),
    {
        AttrSchema { attrs }
    }

    /// The declaration for `name`, if the schema has one.
    pub fn attr(&self, name: &str) -> (r: Option<&AttrDecl>)
        ensures
            r.deep_view() == declared(self.deep_view(), name@),
    {
        let ghost model = self.attrs.deep_view();
        proof {
            assert(model.skip(0) =~= model);
        }
        for i in 0..self.attrs.len()
            invariant
                model == self.attrs.deep_view(),
                declared(model, name@) == declared(model.skip(i as int), name@),
        {
            if same(self.attrs[i].name.as_str(), name) {
                return Some(&self.attrs[i]);
            }
            assert(model.skip(i as int).skip(1) =~= model.skip(i + 1));
        }
        None
    }
}

/// How an operation's head is matched against a `do` or `expect` head.
#[derive(Debug, PartialEq, Eq)]
pub enum HeadPattern {
    /// A fixed operation name, e.g. `POST`.
    Exact(String),
    /// One name per wildcard segment, then a fixed tail. The plugin parses for
    /// valid segments.
    Wildcard { segments: Vec<String>, tail: String },
}

/// What a [`HeadPattern`] says.
pub enum HeadModel {
    Exact(Seq<char>),
    Wildcard { segments: Seq<Seq<char>>, tail: Seq<char> },
}

impl DeepView for HeadPattern {
    type V = HeadModel;

    open spec fn deep_view(&self) -> HeadModel {
        match self {
            HeadPattern::Exact(name) => HeadModel::Exact(name@),
            HeadPattern::Wildcard { segments, tail } => HeadModel::Wildcard {
                segments: segments.deep_view(),
                tail: tail@,
            },
        }
    }
}

impl Clone for HeadPattern {
    fn clone(&self) -> (r: HeadPattern)
        ensures
            r.deep_view() == self.deep_view(),
    {
        match self {
            HeadPattern::Exact(name) => HeadPattern::Exact(name.clone()),
            HeadPattern::Wildcard { segments, tail } => HeadPattern::Wildcard {
                segments: clone_texts(segments.as_slice()),
                tail: tail.clone(),
            },
        }
    }
}

impl HeadPattern {
    /// A head of exactly that name.
    pub fn exact(name: &str) -> (r: HeadPattern)
        ensures
            r.deep_view() == HeadModel::Exact(name@),
    {
        HeadPattern::Exact(name.to_owned())
    }

    /// A head of one name per segment, then `tail`.
    pub fn wildcard(segments: &[&str], tail: &str) -> (r: HeadPattern)
        ensures
            r.deep_view() == (HeadModel::Wildcard { segments: segments.deep_view(), tail: tail@ }),
    {
        let mut named: Vec<String> = Vec::new();
        for i in 0..segments.len()
            invariant
                named.len() == i,
                forall|j: int| 0 <= j < i ==> (#[trigger] named@[j])@ == segments@[j]@,
        {
            named.push(segments[i].to_owned());
        }
        assert(named.deep_view() =~= segments.deep_view());
        HeadPattern::Wildcard { segments: named, tail: tail.to_owned() }
    }
}

/// The type of a positional operation argument.
#[derive(Clone, Copy, Debug, PartialEq, Eq, Structural)]
pub enum ParamType {
    ServiceRef,
    Str,
    Int,
    Path,
    Ident,
    Matcher,
}

/// One positional parameter of an operation.
#[derive(Debug, PartialEq, Eq)]
pub struct Param {
    pub name: String,
    pub ty: ParamType,
    pub required: bool,
}

/// What a [`Param`] declares.
#[verifier::ext_equal]
pub struct ParamModel {
    pub name: Seq<char>,
    pub ty: ParamType,
    pub required: bool,
}

impl DeepView for Param {
    type V = ParamModel;

    open spec fn deep_view(&self) -> ParamModel {
        ParamModel { name: self.name@, ty: self.ty, required: self.required }
    }
}

impl Param {
    /// A parameter an operation must be given.
    pub fn required(name: &str, ty: ParamType) -> (r: Param)
        ensures
            r.deep_view() == (ParamModel { name: name@, ty, required: true }),
    {
        Param { name: name.to_owned(), ty, required: true }
    }

    /// A parameter an operation may be given.
    pub fn optional(name: &str, ty: ParamType) -> (r: Param)
        ensures
            r.deep_view() == (ParamModel { name: name@, ty, required: false }),
    {
        Param { name: name.to_owned(), ty, required: false }
    }
}

/// The shape of a keyword clause's payload.
#[derive(Debug, PartialEq, Eq)]
pub enum ClauseShape {
    /// A single `<column> = <value>` filter, as in `where`.
    Filter,
    /// A `{ ... }` map payload, as in `body`.
    Block,
    /// One value of the type it names, written `<keyword>: <value>`.
    Value(ValueType),
}

/// An optional keyword clause an operation accepts, e.g. `where` or `body`.
#[derive(Debug, PartialEq, Eq)]
pub struct ClauseDecl {
    pub keyword: String,
    pub shape: ClauseShape,
}

/// What a [`ClauseDecl`] declares.
#[verifier::ext_equal]
pub struct ClauseModel {
    pub keyword: Seq<char>,
    pub shape: ClauseShape,
}

impl DeepView for ClauseDecl {
    type V = ClauseModel;

    open spec fn deep_view(&self) -> ClauseModel {
        ClauseModel { keyword: self.keyword@, shape: self.shape }
    }
}

impl ClauseDecl {
    /// A clause `keyword` opens.
    pub fn new(keyword: &str, shape: ClauseShape) -> (r: ClauseDecl)
        ensures
            r.deep_view() == (ClauseModel { keyword: keyword@, shape }),
    {
        ClauseDecl { keyword: keyword.to_owned(), shape }
    }
}

/// The signature of one operation: a driver action (a `do` step) or an observer
/// observable (an `expect` predicate's left side).
#[derive(Debug, PartialEq, Eq)]
pub struct OpSig {
    pub head: HeadPattern,
    pub params: Vec<Param>,
    pub clauses: Vec<ClauseDecl>,
    /// What this produces: an observable's reading, or the outcome an action
    /// answers with. `None` when the plugin does not say.
    pub result: Option<ValueType>,
    /// The comparisons allowed on an observable's result; empty for an action.
    pub cmp_ops: Vec<CmpOp>,
}

/// What an [`OpSig`] declares.
#[verifier::ext_equal]
pub struct OpSigModel {
    pub head: HeadModel,
    pub params: Seq<ParamModel>,
    pub clauses: Seq<ClauseModel>,
    pub result: Option<ValueType>,
    pub cmp_ops: Seq<CmpOp>,
}

impl DeepView for OpSig {
    type V = OpSigModel;

    open spec fn deep_view(&self) -> OpSigModel {
        OpSigModel {
            head: self.head.deep_view(),
            params: self.params.deep_view(),
            clauses: self.clauses.deep_view(),
            result: self.result,
            cmp_ops: self.cmp_ops@,
        }
    }
}

impl OpSig {
    /// A driver action: positional `params`, answering with `outcome`, which a
    /// step may state to be held to.
    pub fn action(head: HeadPattern, params: Vec<Param>, outcome: ValueType) -> (r: OpSig)
        ensures
            r.deep_view() == (OpSigModel {
                head: head.deep_view(),
                params: params.deep_view(),
                clauses: Seq::empty(),
                result: Some(outcome),
                cmp_ops: Seq::empty(),
            }),
    {
        let r = OpSig {
            head,
            params,
            clauses: Vec::new(),
            result: Some(outcome),
            cmp_ops: Vec::new(),
        };
        assert(r.clauses.deep_view() =~= Seq::empty());
        r
    }

    /// An observer observable: yields `result`, testable with `cmp_ops`.
    pub fn observable(head: HeadPattern, result: ValueType, cmp_ops: Vec<CmpOp>) -> (r: OpSig)
        ensures
            r.deep_view() == (OpSigModel {
                head: head.deep_view(),
                params: Seq::empty(),
                clauses: Seq::empty(),
                result: Some(result),
                cmp_ops: cmp_ops@,
            }),
    {
        let r = OpSig {
            head,
            params: Vec::new(),
            clauses: Vec::new(),
            result: Some(result),
            cmp_ops,
        };
        assert(r.clauses.deep_view() =~= Seq::empty());
        assert(r.params.deep_view() =~= Seq::empty());
        r
    }

    /// The same operation, accepting one more clause.
    pub fn with_clause(self, clause: ClauseDecl) -> (r: OpSig)
        ensures
            r.deep_view() == (OpSigModel {
                clauses: self.deep_view().clauses.push(clause.deep_view()),
                ..self.deep_view()
            }),
    {
        let mut clauses = self.clauses;
        clauses.push(clause);
        assert(clauses.deep_view() =~= self.clauses.deep_view().push(clause.deep_view()));
        OpSig { clauses, ..self }
    }

    /// The same operation, taking one more parameter.
    pub fn with_param(self, param: Param) -> (r: OpSig)
        ensures
            r.deep_view() == (OpSigModel {
                params: self.deep_view().params.push(param.deep_view()),
                ..self.deep_view()
            }),
    {
        let mut params = self.params;
        params.push(param);
        assert(params.deep_view() =~= self.params.deep_view().push(param.deep_view()));
        OpSig { params, ..self }
    }
}

} // verus!
