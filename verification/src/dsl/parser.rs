//! Recursive-descent parser: builds the file AST from a token stream, recovering
//! at statement and block boundaries so one error does not abort the parse.

use vstd::prelude::*;

use vstd::string::*;

use super::ast::{
    lemma_list_stated, lemma_map_stated, Clause, ClauseModel, CmpOp, File, FileModel, Filter,
    FilterModel, Fleet, FleetModel, OpCall, OpCallModel, Predicate, PredicateModel, Scenario,
    ScenarioModel, Service, ServiceModel, Stated, Step, StepModel, Value,
};
use super::diagnostics::{Diag, DiagModel};
use super::lexer::{KindModel, Token, TokenKind, TokenModel};
use super::span::{At, Span, Spanned};
use crate::text::same;
use crate::time::Duration;

verus! {

/// How far a parse has got, and what was wrong with what it passed.
#[verifier::ext_equal]
pub struct Parsing {
    pub pos: int,
    pub errors: Seq<DiagModel>,
}

/// From the start of one span to the end of another.
pub open spec fn across(start: Span, end: Span) -> Span {
    Span { start: start.start, end: end.end }
}

impl Parsing {
    /// What comes next.
    pub open spec fn kind(self, tokens: Seq<TokenModel>) -> KindModel {
        tokens[self.pos].kind
    }

    /// Where what comes next stands.
    pub open spec fn span(self, tokens: Seq<TokenModel>) -> Span {
        tokens[self.pos].span
    }

    /// Whether there is anything to go on with.
    pub open spec fn goes_on(self, tokens: Seq<TokenModel>) -> bool {
        0 <= self.pos < tokens.len() && self.kind(tokens) != KindModel::Eof
    }

    /// Past what comes next.
    pub open spec fn next(self, tokens: Seq<TokenModel>) -> Parsing {
        if self.goes_on(tokens) {
            Parsing { pos: self.pos + 1, ..self }
        } else {
            self
        }
    }

    /// Whether that comes next.
    pub open spec fn at(self, tokens: Seq<TokenModel>, kind: KindModel) -> bool {
        self.kind(tokens) == kind
    }

    /// Whether that word comes next.
    pub open spec fn at_word(self, tokens: Seq<TokenModel>, word: Seq<char>) -> bool {
        self.kind(tokens) == KindModel::Ident(word)
    }

    /// Past what comes next, if that is what it is.
    pub open spec fn eat(self, tokens: Seq<TokenModel>, kind: KindModel) -> Parsing {
        if self.at(tokens, kind) {
            self.next(tokens)
        } else {
            self
        }
    }

    /// Past the word that comes next, if that is what it is.
    pub open spec fn eat_word(self, tokens: Seq<TokenModel>, word: Seq<char>) -> Parsing {
        if self.at_word(tokens, word) {
            self.next(tokens)
        } else {
            self
        }
    }

    /// Having found that wrong there.
    pub open spec fn fault(self, span: Span, message: Seq<char>) -> Parsing {
        Parsing { errors: self.errors.push(DiagModel::of(span, message)), ..self }
    }

    /// Having found that wrong with what comes next.
    pub open spec fn fault_here(self, tokens: Seq<TokenModel>, message: Seq<char>) -> Parsing {
        self.fault(self.span(tokens), message)
    }

    /// Past tokens until `sync`, a closing `}`, or end of input, so the next
    /// well-formed construct can be parsed after an error.
    pub open spec fn recover(self, tokens: Seq<TokenModel>, sync: KindModel) -> Parsing
        decreases tokens.len() - self.pos,
    {
        if self.goes_on(tokens) && !self.at(tokens, KindModel::RBrace) && !self.at(tokens, sync) {
            self.next(tokens).recover(tokens, sync)
        } else {
            self
        }
    }

    /// Past tokens to the end of the statement, and past that end.
    pub open spec fn resync(self, tokens: Seq<TokenModel>, sync: KindModel) -> Parsing {
        self.recover(tokens, sync).eat(tokens, sync)
    }

    /// Past what must come next.
    pub open spec fn expect(
        self,
        tokens: Seq<TokenModel>,
        kind: KindModel,
        what: Seq<char>,
    ) -> Parsing {
        if self.at(tokens, kind) {
            self.next(tokens)
        } else {
            self.fault_here(tokens, "expected "@ + what)
        }
    }

    /// Past the word that must come next.
    pub open spec fn ident(self, tokens: Seq<TokenModel>, what: Seq<char>) -> (
        Parsing,
        Option<At<Seq<char>>>,
    ) {
        match self.kind(tokens) {
            KindModel::Ident(word) => (
                self.next(tokens),
                Some(At { node: word, span: self.span(tokens) }),
            ),
            _ => (self.fault_here(tokens, "expected "@ + what), None),
        }
    }

    /// Past the text that must come next.
    pub open spec fn text(self, tokens: Seq<TokenModel>, what: Seq<char>) -> (
        Parsing,
        Option<At<Seq<char>>>,
    ) {
        match self.kind(tokens) {
            KindModel::Str(text) => (
                self.next(tokens),
                Some(At { node: text, span: self.span(tokens) }),
            ),
            _ => (self.fault_here(tokens, "expected "@ + what), None),
        }
    }

    /// How much is left, for recursion to count down.
    pub open spec fn left(self, tokens: Seq<TokenModel>) -> nat {
        if 0 <= self.pos < tokens.len() {
            (tokens.len() - self.pos) as nat
        } else {
            0
        }
    }

    /// The value a word is.
    pub open spec fn word_value(word: Seq<char>) -> Stated {
        if word == "true"@ {
            Stated::Bool(true)
        } else if word == "false"@ {
            Stated::Bool(false)
        } else if word == "null"@ {
            Stated::Null
        } else {
            Stated::Ident(word)
        }
    }

    /// Past a value.
    pub open spec fn value(self, tokens: Seq<TokenModel>) -> (Parsing, Option<At<Stated>>)
        decreases self.left(tokens), 0nat,
    {
        let span = self.span(tokens);
        let one = |v: Stated| (self.next(tokens), Some(At { node: v, span }));
        if self.left(tokens) == 0 {
            (self, None)
        } else {
            match self.kind(tokens) {
                KindModel::Str(s) => one(Stated::Str(s)),
                KindModel::Int(n) => one(Stated::Int(n)),
                KindModel::Duration(d) => one(Stated::Duration(d)),
                KindModel::Ident(word) => one(Parsing::word_value(word)),
                KindModel::LBracket => {
                    let (then, items) = self.next(tokens).items(tokens, Seq::empty());
                    (
                        then.expect(tokens, KindModel::RBracket, "`]`"@),
                        Some(
                            At {
                                node: Stated::List(items),
                                span: across(span, then.span(tokens)),
                            },
                        ),
                    )
                },
                KindModel::LBrace => {
                    let (then, entries) = self.next(tokens).entries(tokens, Seq::empty());
                    (
                        then.expect(tokens, KindModel::RBrace, "`}`"@),
                        Some(
                            At {
                                node: Stated::Mapping(entries),
                                span: across(span, then.span(tokens)),
                            },
                        ),
                    )
                },
                _ => (self.fault_here(tokens, "expected a value"@), None),
            }
        }
    }

    /// Past the items of a list, up to what closes it.
    pub open spec fn items(self, tokens: Seq<TokenModel>, so_far: Seq<At<Stated>>) -> (
        Parsing,
        Seq<At<Stated>>,
    )
        decreases self.left(tokens), 1nat,
    {
        if !self.goes_on(tokens) || self.at(tokens, KindModel::RBracket) {
            (self, so_far)
        } else {
            match self.value(tokens) {
                (then, None) => (then, so_far),
                (then, Some(item)) => if then.at(tokens, KindModel::Comma) {
                    let on = then.next(tokens);
                    if on.left(tokens) < self.left(tokens) {
                        on.items(tokens, so_far.push(item))
                    } else {
                        (on, so_far.push(item))
                    }
                } else {
                    (then, so_far.push(item))
                },
            }
        }
    }

    /// Past the entries of a map, up to what closes it.
    pub open spec fn entries(
        self,
        tokens: Seq<TokenModel>,
        so_far: Seq<(At<Seq<char>>, At<Stated>)>,
    ) -> (Parsing, Seq<(At<Seq<char>>, At<Stated>)>)
        decreases self.left(tokens), 1nat,
    {
        if !self.goes_on(tokens) || self.at(tokens, KindModel::RBrace) {
            (self, so_far)
        } else {
            match self.ident(tokens, "an attribute name"@) {
                (then, None) => {
                    let on = then.resync(tokens, KindModel::Comma);
                    if on.left(tokens) < self.left(tokens) {
                        on.entries(tokens, so_far)
                    } else {
                        (on, so_far)
                    }
                },
                (then, Some(key)) => {
                    let at = then.expect(tokens, KindModel::Colon, "`:`"@);
                    if at.left(tokens) >= self.left(tokens) {
                        (at, so_far)
                    } else {
                        match at.value(tokens) {
                            (then, None) => {
                                let on = then.resync(tokens, KindModel::Comma);
                                if on.left(tokens) < self.left(tokens) {
                                    on.entries(tokens, so_far)
                                } else {
                                    (on, so_far)
                                }
                            },
                            (then, Some(value)) => if then.at(tokens, KindModel::Comma) {
                                let on = then.next(tokens);
                                if on.left(tokens) < self.left(tokens) {
                                    on.entries(tokens, so_far.push((key, value)))
                                } else {
                                    (on, so_far.push((key, value)))
                                }
                            } else {
                                (then, so_far.push((key, value)))
                            },
                        }
                    }
                },
            }
        }
    }

    /// Past a map.
    pub open spec fn map(self, tokens: Seq<TokenModel>) -> (Parsing, At<Stated>) {
        let (then, entries) = self.expect(tokens, KindModel::LBrace, "`{`"@).entries(
            tokens,
            Seq::empty(),
        );
        (
            then.expect(tokens, KindModel::RBrace, "`}`"@),
            At {
                node: Stated::Mapping(entries),
                span: across(self.span(tokens), then.span(tokens)),
            },
        )
    }

    /// Past a `body { ... }` clause.
    pub open spec fn body_clause(self, tokens: Seq<TokenModel>) -> (Parsing, At<ClauseModel>) {
        let (then, map) = self.eat_word(tokens, "body"@).map(tokens);
        (
            then,
            At { node: ClauseModel::Body(map), span: across(self.span(tokens), map.span) },
        )
    }

    /// Whether what comes next can begin a value (and so a positional argument).
    pub open spec fn value_starts(self, tokens: Seq<TokenModel>) -> bool {
        match self.kind(tokens) {
            KindModel::Str(_) => true,
            KindModel::Int(_) => true,
            KindModel::Duration(_) => true,
            KindModel::Ident(_) => true,
            KindModel::LBracket => true,
            KindModel::LBrace => true,
            _ => false,
        }
    }

    /// Past the arguments and clauses of an action, of which `call` was read and
    /// ends at `end`.
    pub open spec fn arguments(self, tokens: Seq<TokenModel>, call: OpCallModel, end: usize) -> (
        Parsing,
        OpCallModel,
        usize,
    )
        decreases self.left(tokens),
    {
        if self.at_word(tokens, "body"@) {
            let (then, clause) = self.body_clause(tokens);
            let more = OpCallModel { clauses: call.clauses.push(clause), ..call };
            if then.left(tokens) < self.left(tokens) {
                then.arguments(tokens, more, clause.span.end)
            } else {
                (then, more, clause.span.end)
            }
        } else if self.value_starts(tokens) {
            match self.value(tokens) {
                (then, None) => (then, call, end),
                (then, Some(value)) => {
                    let more = OpCallModel { args: call.args.push(value), ..call };
                    if then.left(tokens) < self.left(tokens) {
                        then.arguments(tokens, more, value.span.end)
                    } else {
                        (then, more, value.span.end)
                    }
                },
            }
        } else {
            (self, call, end)
        }
    }

    /// Past an action operation: a `driver op` head, positional arguments, and
    /// clauses (`body { ... }`).
    pub open spec fn op_call(self, tokens: Seq<TokenModel>) -> (Parsing, Option<At<OpCallModel>>) {
        match self.ident(tokens, "a driver name"@) {
            (then, None) => (then, None),
            (then, Some(driver)) => match then.ident(tokens, "an operation"@) {
                (then, None) => (then, None),
                (then, Some(op)) => {
                    let call = OpCallModel {
                        head: seq![driver, op],
                        args: Seq::empty(),
                        clauses: Seq::empty(),
                    };
                    let (then, call, end) = then.arguments(tokens, call, op.span.end);
                    (
                        then,
                        Some(At { node: call, span: Span { start: driver.span.start, end } }),
                    )
                },
            },
        }
    }

    /// Past `do { <operation> };`, one driver step.
    pub open spec fn do_step(self, tokens: Seq<TokenModel>) -> (Parsing, Option<At<StepModel>>) {
        let inside = self.eat_word(tokens, "do"@).expect(tokens, KindModel::LBrace, "`{`"@);
        match inside.op_call(tokens) {
            (then, None) => (then, None),
            (then, Some(action)) => (
                then.expect(tokens, KindModel::RBrace, "`}`"@).eat(tokens, KindModel::Semi),
                Some(
                    At {
                        node: StepModel { action, expect: None },
                        span: across(self.span(tokens), then.span(tokens)),
                    },
                ),
            ),
        }
    }

    /// Past a comparison.
    pub open spec fn cmp_op(self, tokens: Seq<TokenModel>) -> (Parsing, Option<At<CmpOp>>) {
        let span = self.span(tokens);
        let one = |op: CmpOp| (self.next(tokens), Some(At { node: op, span }));
        match self.kind(tokens) {
            KindModel::EqEq => one(CmpOp::Eq),
            KindModel::Ne => one(CmpOp::Ne),
            KindModel::Lt => one(CmpOp::Lt),
            KindModel::Le => one(CmpOp::Le),
            KindModel::Gt => one(CmpOp::Gt),
            KindModel::Ge => one(CmpOp::Ge),
            _ => (
                self.fault_here(
                    tokens,
                    "expected a comparison (`==`, `!=`, `<`, `<=`, `>`, `>=`)"@,
                ),
                None,
            ),
        }
    }

    /// Past a `where <column> = <value>` clause.
    pub open spec fn where_clause(self, tokens: Seq<TokenModel>) -> (
        Parsing,
        Option<At<ClauseModel>>,
    ) {
        match self.eat_word(tokens, "where"@).ident(tokens, "a column name"@) {
            (then, None) => (then, None),
            (then, Some(column)) => match then.expect(tokens, KindModel::Eq, "`=`"@).value(tokens) {
                (then, None) => (then, None),
                (then, Some(value)) => (
                    then,
                    Some(
                        At {
                            node: ClauseModel::Where(FilterModel { column, value }),
                            span: across(self.span(tokens), value.span),
                        },
                    ),
                ),
            },
        }
    }

    /// Past the rest of a dotted path, of which `head` was read.
    pub open spec fn path(self, tokens: Seq<TokenModel>, head: Seq<At<Seq<char>>>) -> (
        Parsing,
        Option<Seq<At<Seq<char>>>>,
    )
        decreases self.left(tokens),
    {
        if self.at(tokens, KindModel::Dot) {
            match self.next(tokens).ident(tokens, "an observable path segment"@) {
                (then, None) => (then, None),
                (then, Some(segment)) => if then.left(tokens) < self.left(tokens) {
                    then.path(tokens, head.push(segment))
                } else {
                    (then, Some(head.push(segment)))
                },
            }
        } else {
            (self, Some(head))
        }
    }

    /// Past the arguments of an observable. `where` is an identifier like any
    /// other, so it is excluded by name or it reads as an argument.
    pub open spec fn values(self, tokens: Seq<TokenModel>, so_far: Seq<At<Stated>>) -> (
        Parsing,
        Seq<At<Stated>>,
    )
        decreases self.left(tokens),
    {
        if !self.at_word(tokens, "where"@) && self.value_starts(tokens) {
            match self.value(tokens) {
                (then, None) => (then, so_far),
                (then, Some(value)) => if then.left(tokens) < self.left(tokens) {
                    then.values(tokens, so_far.push(value))
                } else {
                    (then, so_far.push(value))
                },
            }
        } else {
            (self, so_far)
        }
    }

    /// Past a dotted observable path, its arguments, and an optional `where`
    /// filter, e.g. `db.orders.count where name = "www"`.
    pub open spec fn observable(self, tokens: Seq<TokenModel>) -> (
        Parsing,
        Option<At<OpCallModel>>,
    ) {
        match self.ident(tokens, "an observable"@) {
            (then, None) => (then, None),
            (then, Some(first)) => match then.path(tokens, seq![first]) {
                (then, None) => (then, None),
                (then, Some(head)) => {
                    let (then, args) = then.values(tokens, Seq::empty());
                    let read = if args.len() > 0 {
                        args.last().span.end
                    } else {
                        head.last().span.end
                    };
                    let call = |clauses: Seq<At<ClauseModel>>, end: usize|
                        Some(
                            At {
                                node: OpCallModel { head, args, clauses },
                                span: Span { start: first.span.start, end },
                            },
                        );
                    if then.at_word(tokens, "where"@) {
                        match then.where_clause(tokens) {
                            (then, Some(clause)) => (
                                then,
                                call(seq![clause], clause.span.end),
                            ),
                            (then, None) => (then, call(Seq::empty(), read)),
                        }
                    } else {
                        (then, call(Seq::empty(), read))
                    }
                },
            },
        }
    }

    /// Past `<observable> <cmp> <value>`, e.g. `db.orders.count == 3`.
    pub open spec fn predicate(self, tokens: Seq<TokenModel>) -> (
        Parsing,
        Option<At<PredicateModel>>,
    ) {
        match self.observable(tokens) {
            (then, None) => (then, None),
            (then, Some(left)) => match then.cmp_op(tokens) {
                (then, None) => (then, None),
                (then, Some(op)) => match then.value(tokens) {
                    (then, None) => (then, None),
                    (then, Some(right)) => (
                        then,
                        Some(
                            At {
                                node: PredicateModel { left, op, right },
                                span: across(left.span, right.span),
                            },
                        ),
                    ),
                },
            },
        }
    }

    /// Past the predicates of an `expect` block, up to what closes it.
    pub open spec fn predicates(
        self,
        tokens: Seq<TokenModel>,
        so_far: Seq<At<PredicateModel>>,
    ) -> (Parsing, Seq<At<PredicateModel>>)
        decreases self.left(tokens),
    {
        if !self.goes_on(tokens) || self.at(tokens, KindModel::RBrace) {
            (self, so_far)
        } else {
            let (on, more) = match self.predicate(tokens) {
                (then, Some(predicate)) => (
                    then.eat(tokens, KindModel::Semi),
                    so_far.push(predicate),
                ),
                (then, None) => (then.resync(tokens, KindModel::Semi), so_far),
            };
            if on.left(tokens) < self.left(tokens) {
                on.predicates(tokens, more)
            } else {
                (on, more)
            }
        }
    }

    /// Past `expect { <predicate>; ... }`, the settled-state expectation.
    pub open spec fn expect_block(self, tokens: Seq<TokenModel>) -> (
        Parsing,
        Seq<At<PredicateModel>>,
    ) {
        let inside = self.eat_word(tokens, "expect"@).expect(tokens, KindModel::LBrace, "`{`"@);
        let (then, predicates) = inside.predicates(tokens, Seq::empty());
        (
            then.expect(tokens, KindModel::RBrace, "`}`"@).eat(tokens, KindModel::Semi),
            predicates,
        )
    }

    /// Past `consistent_within: <duration>;`, the scenario's heal-phase deadline.
    pub open spec fn consistent_within(self, tokens: Seq<TokenModel>) -> (
        Parsing,
        Option<At<Duration>>,
    ) {
        let at = self.eat_word(tokens, "consistent_within"@).expect(
            tokens,
            KindModel::Colon,
            "`:`"@,
        );
        match at.value(tokens) {
            (then, None) => (then, None),
            (then, Some(value)) => {
                let on = then.eat(tokens, KindModel::Semi);
                match value.node {
                    Stated::Duration(d) => (on, Some(At { node: d, span: value.span })),
                    _ => (
                        on.fault(
                            value.span,
                            "`consistent_within` expects a duration like `30s`"@,
                        ),
                        None,
                    ),
                }
            },
        }
    }

    /// Past the statements of a scenario, up to what closes it.
    pub open spec fn scenario_body(self, tokens: Seq<TokenModel>, so_far: Body) -> (Parsing, Body)
        decreases self.left(tokens),
    {
        if !self.goes_on(tokens) || self.at(tokens, KindModel::RBrace) {
            (self, so_far)
        } else {
            let (on, more) = if self.at_word(tokens, "consistent_within"@) {
                match self.consistent_within(tokens) {
                    (then, Some(deadline)) => (
                        then,
                        Body { consistent_within: Some(deadline), ..so_far },
                    ),
                    (then, None) => (then, so_far),
                }
            } else if self.at_word(tokens, "do"@) {
                match self.do_step(tokens) {
                    (then, Some(step)) => (
                        then,
                        Body { steps: so_far.steps.push(step), ..so_far },
                    ),
                    (then, None) => (then.resync(tokens, KindModel::Semi), so_far),
                }
            } else if self.at_word(tokens, "expect"@) {
                let (then, predicates) = self.expect_block(tokens);
                (then, Body { expect: so_far.expect + predicates, ..so_far })
            } else {
                (
                    self.fault_here(
                        tokens,
                        "expected `consistent_within`, `do`, or `expect`"@,
                    ).resync(tokens, KindModel::Semi),
                    so_far,
                )
            };
            if on.left(tokens) < self.left(tokens) {
                on.scenario_body(tokens, more)
            } else {
                (on, more)
            }
        }
    }

    /// Past a scenario.
    pub open spec fn scenario(self, tokens: Seq<TokenModel>) -> (
        Parsing,
        Option<At<ScenarioModel>>,
    ) {
        match self.eat_word(tokens, "scenario"@).text(tokens, "a scenario name"@) {
            (then, None) => (then, None),
            (then, Some(name)) => {
                let (then, body) = then.expect(tokens, KindModel::LBrace, "`{`"@).scenario_body(
                    tokens,
                    Body::empty(),
                );
                let on = then.expect(tokens, KindModel::RBrace, "`}`"@);
                match body.consistent_within {
                    None => (
                        on.fault(name.span, "scenario is missing `consistent_within`"@),
                        None,
                    ),
                    Some(consistent_within) => (
                        on,
                        Some(
                            At {
                                node: ScenarioModel {
                                    name,
                                    budget: None,
                                    consistent_within,
                                    steps: body.steps,
                                    expect: body.expect,
                                },
                                span: across(self.span(tokens), then.span(tokens)),
                            },
                        ),
                    ),
                }
            },
        }
    }

    /// Past `deployment: <plugin>;`, the plugin that brings the fleet up.
    pub open spec fn deployment(self, tokens: Seq<TokenModel>) -> (
        Parsing,
        Option<At<Seq<char>>>,
    ) {
        let at = self.eat_word(tokens, "deployment"@).expect(tokens, KindModel::Colon, "`:`"@);
        match at.ident(tokens, "a deployment plugin name"@) {
            (then, None) => (then, None),
            (then, Some(plugin)) => (then.eat(tokens, KindModel::Semi), Some(plugin)),
        }
    }

    /// Past a service.
    pub open spec fn service(self, tokens: Seq<TokenModel>) -> (Parsing, Option<At<ServiceModel>>) {
        if !self.at_word(tokens, "service"@) {
            (self.fault_here(tokens, "expected `service`"@), None)
        } else {
            match self.next(tokens).ident(tokens, "a service name"@) {
                (then, None) => (then, None),
                (then, Some(name)) => {
                    let (then, attrs) = then.map(tokens);
                    (
                        then.eat(tokens, KindModel::Semi),
                        Some(
                            At {
                                node: ServiceModel { name, attrs },
                                span: across(self.span(tokens), attrs.span),
                            },
                        ),
                    )
                },
            }
        }
    }

    /// Past the statements of a fleet, up to what closes it.
    pub open spec fn fleet_body(
        self,
        tokens: Seq<TokenModel>,
        deployment: Option<At<Seq<char>>>,
        services: Seq<At<ServiceModel>>,
    ) -> (Parsing, Option<At<Seq<char>>>, Seq<At<ServiceModel>>)
        decreases self.left(tokens),
    {
        if !self.goes_on(tokens) || self.at(tokens, KindModel::RBrace) {
            (self, deployment, services)
        } else {
            let (on, plugin, more) = if self.at_word(tokens, "deployment"@) {
                match self.deployment(tokens) {
                    (then, Some(plugin)) => (then, Some(plugin), services),
                    (then, None) => (then, deployment, services),
                }
            } else if self.at_word(tokens, "service"@) {
                match self.service(tokens) {
                    (then, Some(service)) => (then, deployment, services.push(service)),
                    (then, None) => (
                        then.resync(tokens, KindModel::Semi),
                        deployment,
                        services,
                    ),
                }
            } else {
                (
                    self.fault_here(tokens, "expected `deployment` or `service`"@).resync(
                        tokens,
                        KindModel::Semi,
                    ),
                    deployment,
                    services,
                )
            };
            if on.left(tokens) < self.left(tokens) {
                on.fleet_body(tokens, plugin, more)
            } else {
                (on, plugin, more)
            }
        }
    }

    /// Past a fleet.
    pub open spec fn fleet(self, tokens: Seq<TokenModel>) -> (Parsing, Option<At<FleetModel>>) {
        if !self.at_word(tokens, "fleet"@) {
            (self.fault_here(tokens, "expected `fleet`"@), None)
        } else {
            match self.next(tokens).text(tokens, "a fleet name"@) {
                (then, None) => (then, None),
                (then, Some(name)) => {
                    let (then, deployment, services) = then.expect(
                        tokens,
                        KindModel::LBrace,
                        "`{`"@,
                    ).fleet_body(tokens, None, Seq::empty());
                    let on = then.expect(tokens, KindModel::RBrace, "`}`"@);
                    match deployment {
                        None => (
                            on.fault(name.span, "fleet is missing `deployment`"@),
                            None,
                        ),
                        Some(deployment) => (
                            on,
                            Some(
                                At {
                                    node: FleetModel { name, deployment, services },
                                    span: across(self.span(tokens), then.span(tokens)),
                                },
                            ),
                        ),
                    }
                },
            }
        }
    }

    /// Past the scenarios of a file.
    pub open spec fn scenarios(
        self,
        tokens: Seq<TokenModel>,
        so_far: Seq<At<ScenarioModel>>,
    ) -> (Parsing, Seq<At<ScenarioModel>>)
        decreases self.left(tokens),
    {
        if !self.goes_on(tokens) {
            (self, so_far)
        } else if self.at_word(tokens, "scenario"@) {
            match self.scenario(tokens) {
                (then, None) => (then, so_far),
                (then, Some(scenario)) => if then.left(tokens) < self.left(tokens) {
                    then.scenarios(tokens, so_far.push(scenario))
                } else {
                    (then, so_far.push(scenario))
                },
            }
        } else {
            (self.fault_here(tokens, "expected `scenario` or end of file"@), so_far)
        }
    }

    /// Past a whole file.
    ///
    /// A file with nothing to run is not something a campaign can be asked to
    /// run, so it says so here rather than at the point of running it. Only when
    /// nothing else went wrong: a scenario that failed to parse has already said
    /// why it is missing.
    pub open spec fn file(self, tokens: Seq<TokenModel>) -> (Parsing, Option<FileModel>) {
        match self.fleet(tokens) {
            (then, None) => (then, None),
            (then, Some(fleet)) => {
                let (then, scenarios) = then.scenarios(tokens, Seq::empty());
                let on = if scenarios.len() == 0 && then.errors.len() == 0 {
                    then.fault_here(tokens, "expected at least one `scenario`"@)
                } else {
                    then
                };
                (on, Some(FileModel { fleet, scenarios }))
            },
        }
    }
}

/// What the statements of a scenario come to.
#[verifier::ext_equal]
pub struct Body {
    pub consistent_within: Option<At<Duration>>,
    pub steps: Seq<At<StepModel>>,
    pub expect: Seq<At<PredicateModel>>,
}

impl Body {
    /// A scenario that says nothing.
    pub open spec fn empty() -> Body {
        Body { consistent_within: None, steps: Seq::empty(), expect: Seq::empty() }
    }
}

/// What a token stream parses as: a file, or what is wrong with it.
pub open spec fn parsed(tokens: Seq<TokenModel>) -> Result<FileModel, Seq<DiagModel>> {
    match (Parsing { pos: 0, errors: Seq::empty() }).file(tokens) {
        (end, Some(file)) => if end.errors.len() == 0 {
            Ok(file)
        } else {
            Err(end.errors)
        },
        (end, None) => Err(end.errors),
    }
}

struct Parser {
    tokens: Vec<Token>,
    pos: usize,
    errors: Vec<Diag>,
}

impl Parser {
    // Token cursor. `tokens` always ends in `Eof`, and `advance` stops there, so
    // `pos` is always in bounds.
    spec fn wf(&self) -> bool {
        &&& self.pos < self.tokens@.len()
        &&& self.tokens@.last().kind.deep_view() == KindModel::Eof
    }

    spec fn toks(&self) -> Seq<TokenModel> {
        self.tokens.deep_view()
    }

    spec fn state(&self) -> Parsing {
        Parsing { pos: self.pos as int, errors: self.errors.deep_view() }
    }

    /// Whether this is `before`, further on.
    spec fn after(&self, before: Parser) -> bool {
        &&& self.wf()
        &&& self.tokens@ == before.tokens@
        &&& self.pos >= before.pos
    }

    /// How much is left.
    spec fn left(&self) -> int {
        self.tokens@.len() - self.pos
    }

    fn peek(&self) -> (r: &TokenKind)
        requires
            self.wf(),
        ensures
            r.deep_view() == self.state().kind(self.toks()),
    {
        &self.tokens[self.pos].kind
    }

    fn peek_span(&self) -> (r: Span)
        requires
            self.wf(),
        ensures
            r == self.state().span(self.toks()),
    {
        self.tokens[self.pos].span
    }

    fn at_eof(&self) -> (r: bool)
        requires
            self.wf(),
        ensures
            r == !self.state().goes_on(self.toks()),
    {
        match self.peek() {
            TokenKind::Eof => true,
            _ => false,
        }
    }

    fn advance(&mut self)
        requires
            old(self).wf(),
        ensures
            final(self).after(*old(self)),
            final(self).state() == old(self).state().next(old(self).toks()),
    {
        if !self.at_eof() {
            let n: usize = self.tokens.len();
            assert(self.pos + 1 < n);
            self.pos = self.pos + 1;
        }
    }

    fn at(&self, kind: &TokenKind) -> (r: bool)
        requires
            self.wf(),
        ensures
            r == self.state().at(self.toks(), kind.deep_view()),
    {
        self.peek().same(kind)
    }

    fn at_kw(&self, kw: &str) -> (r: bool)
        requires
            self.wf(),
        ensures
            r == self.state().at_word(self.toks(), kw@),
    {
        match self.peek() {
            TokenKind::Ident(word) => same(word.as_str(), kw),
            _ => false,
        }
    }

    fn consume(&mut self, kind: &TokenKind) -> (r: bool)
        requires
            old(self).wf(),
        ensures
            final(self).after(*old(self)),
            final(self).state() == old(self).state().eat(old(self).toks(), kind.deep_view()),
            r == old(self).state().at(old(self).toks(), kind.deep_view()),
    {
        let hit = self.at(kind);
        if hit {
            self.advance();
        }
        hit
    }

    fn consume_kw(&mut self, kw: &str) -> (r: bool)
        requires
            old(self).wf(),
        ensures
            final(self).after(*old(self)),
            final(self).state() == old(self).state().eat_word(old(self).toks(), kw@),
            r == old(self).state().at_word(old(self).toks(), kw@),
            r ==> final(self).pos > old(self).pos,
    {
        let hit = self.at_kw(kw);
        if hit {
            self.advance();
        }
        hit
    }

    // Diagnostics and recovery.
    fn error(&mut self, span: Span, message: &str)
        requires
            old(self).wf(),
        ensures
            final(self).after(*old(self)),
            final(self).state() == old(self).state().fault(span, message@),
    {
        let ghost before = self.errors.deep_view();
        let diag = Diag::new(span, message);
        let ghost added = diag.deep_view();
        self.errors.push(diag);
        assert(self.errors.deep_view() =~= before.push(added));
    }

    fn error_here(&mut self, message: &str)
        requires
            old(self).wf(),
        ensures
            final(self).after(*old(self)),
            final(self).state() == old(self).state().fault_here(old(self).toks(), message@),
    {
        let span = self.peek_span();
        self.error(span, message);
    }

    fn expected(&mut self, what: &str)
        requires
            old(self).wf(),
        ensures
            final(self).after(*old(self)),
            final(self).state() == old(self).state().fault_here(
                old(self).toks(),
                "expected "@ + what@,
            ),
    {
        let mut message = "expected ".to_owned();
        message.append(what);
        self.error_here(message.as_str());
    }

    /// Skip tokens until `sync`, a closing `}`, or end of input, so the next
    /// well-formed construct can be parsed after an error, and the `sync` too.
    fn recover_past(&mut self, sync: &TokenKind)
        requires
            old(self).wf(),
        ensures
            final(self).after(*old(self)),
            final(self).state() == old(self).state().resync(old(self).toks(), sync.deep_view()),
            old(self).state().goes_on(old(self).toks()) && !old(self).state().at(
                old(self).toks(),
                KindModel::RBrace,
            ) ==> final(self).pos > old(self).pos,
    {
        let ghost tokens = self.toks();
        let ghost goal = self.state().recover(tokens, sync.deep_view());
        while !self.at_eof() && !self.at(&TokenKind::RBrace) && !self.at(sync)
            invariant
                self.after(*old(self)),
                self.toks() == tokens,
                self.state().recover(tokens, sync.deep_view()) == goal,
                self.pos == old(self).pos ==> self.state() == old(self).state(),
            decreases self.left(),
        {
            self.advance();
        }
        self.consume(sync);
    }

    fn expect(&mut self, kind: &TokenKind, what: &str) -> (r: bool)
        requires
            old(self).wf(),
        ensures
            final(self).after(*old(self)),
            final(self).state() == old(self).state().expect(
                old(self).toks(),
                kind.deep_view(),
                what@,
            ),
            r == old(self).state().at(old(self).toks(), kind.deep_view()),
    {
        let hit = self.consume(kind);
        if !hit {
            self.expected(what);
        }
        hit
    }

    fn expect_ident(&mut self, what: &str) -> (r: Option<Spanned<String>>)
        requires
            old(self).wf(),
        ensures
            final(self).after(*old(self)),
            (final(self).state(), r.deep_view()) == old(self).state().ident(
                old(self).toks(),
                what@,
            ),
            r is Some ==> final(self).pos > old(self).pos,
    {
        let span = self.peek_span();
        let word = match self.peek() {
            TokenKind::Ident(word) => Some(word.clone()),
            _ => None,
        };
        match word {
            Some(word) => {
                self.advance();
                Some(Spanned::new(word, span))
            },
            None => {
                self.expected(what);
                None
            },
        }
    }

    fn expect_str(&mut self, what: &str) -> (r: Option<Spanned<String>>)
        requires
            old(self).wf(),
        ensures
            final(self).after(*old(self)),
            (final(self).state(), r.deep_view()) == old(self).state().text(
                old(self).toks(),
                what@,
            ),
            r is Some ==> final(self).pos > old(self).pos,
    {
        let span = self.peek_span();
        let text = match self.peek() {
            TokenKind::Str(text) => Some(text.clone()),
            _ => None,
        };
        match text {
            Some(text) => {
                self.advance();
                Some(Spanned::new(text, span))
            },
            None => {
                self.expected(what);
                None
            },
        }
    }

    // Grammar.
    fn value(&mut self) -> (r: Option<Spanned<Value>>)
        requires
            old(self).wf(),
        ensures
            final(self).after(*old(self)),
            (final(self).state(), r.deep_view()) == old(self).state().value(old(self).toks()),
            r is Some ==> final(self).pos > old(self).pos,
        decreases old(self).left(), 1nat,
    {
        let span = self.peek_span();
        let ghost tokens = self.toks();
        assert(self.state().left(tokens) > 0);
        let value = match self.peek() {
            TokenKind::Str(s) => Some(Value::Str(s.clone())),
            TokenKind::Int(n) => Some(Value::Int(*n)),
            TokenKind::Duration(d) => Some(Value::Duration(*d)),
            TokenKind::Ident(s) => if same(s.as_str(), "true") {
                Some(Value::Bool(true))
            } else if same(s.as_str(), "false") {
                Some(Value::Bool(false))
            } else if same(s.as_str(), "null") {
                Some(Value::Null)
            } else {
                Some(Value::Ident(s.clone()))
            },
            _ => None,
        };
        match value {
            Some(value) => {
                self.advance();
                Some(Spanned::new(value, span))
            },
            None => {
                if self.at(&TokenKind::LBracket) {
                    Some(self.list())
                } else if self.at(&TokenKind::LBrace) {
                    Some(self.inner_map())
                } else {
                    self.error_here("expected a value");
                    None
                }
            },
        }
    }

    /// A list, whose opening `[` comes next.
    fn list(&mut self) -> (r: Spanned<Value>)
        requires
            old(self).wf(),
            old(self).state().at(old(self).toks(), KindModel::LBracket),
        ensures
            final(self).after(*old(self)),
            final(self).pos > old(self).pos,
            (final(self).state(), Some(r.deep_view())) == old(self).state().value(old(self).toks()),
        decreases old(self).left(), 0nat,
    {
        let start = self.peek_span();
        let ghost tokens = self.toks();
        let ghost began = self.pos;
        self.advance();
        let ghost goal = self.state().items(tokens, Seq::empty());
        let mut items: Vec<Spanned<Value>> = Vec::new();
        assert(items.deep_view() =~= Seq::empty());
        loop
            invariant_except_break
                self.state().items(tokens, items.deep_view()) == goal,
            invariant
                self.after(*old(self)),
                self.toks() == tokens,
                self.pos > began,
                began == old(self).pos,
            ensures
                (self.state(), items.deep_view()) == goal,
            decreases self.left(),
        {
            if self.at_eof() || self.at(&TokenKind::RBracket) {
                break;
            }
            let ghost here = self.state();
            match self.value() {
                None => {
                    break;
                },
                Some(item) => {
                    let ghost before = items.deep_view();
                    let ghost added = item.deep_view();
                    items.push(item);
                    assert(items.deep_view() =~= before.push(added));
                    if !self.consume(&TokenKind::Comma) {
                        break;
                    }
                },
            }
        }
        let end = self.peek_span();
        self.expect(&TokenKind::RBracket, "`]`");
        proof {
            lemma_list_stated(items);
        }
        Spanned::new(Value::List(items), Span::new(start.start, end.end))
    }

    /// The entries of a map, up to what closes it.
    fn map_entries(&mut self) -> (r: Vec<(Spanned<String>, Spanned<Value>)>)
        requires
            old(self).wf(),
        ensures
            final(self).after(*old(self)),
            (final(self).state(), r.deep_view()) == old(self).state().entries(
                old(self).toks(),
                Seq::empty(),
            ),
        decreases old(self).left(), 1nat,
    {
        let ghost tokens = self.toks();
        let ghost goal = self.state().entries(tokens, Seq::empty());
        let mut entries: Vec<(Spanned<String>, Spanned<Value>)> = Vec::new();
        assert(entries.deep_view() =~= Seq::empty());
        loop
            invariant_except_break
                self.state().entries(tokens, entries.deep_view()) == goal,
            invariant
                self.after(*old(self)),
                self.toks() == tokens,
            ensures
                (self.state(), entries.deep_view()) == goal,
            decreases self.left(),
        {
            if self.at_eof() || self.at(&TokenKind::RBrace) {
                break;
            }
            match self.expect_ident("an attribute name") {
                None => {
                    self.recover_past(&TokenKind::Comma);
                },
                Some(key) => {
                    self.expect(&TokenKind::Colon, "`:`");
                    match self.value() {
                        None => {
                            self.recover_past(&TokenKind::Comma);
                        },
                        Some(value) => {
                            let ghost before = entries.deep_view();
                            let entry = (key, value);
                            let ghost added = entry.deep_view();
                            entries.push(entry);
                            assert(entries.deep_view() =~= before.push(added));
                            if !self.consume(&TokenKind::Comma) {
                                break;
                            }
                        },
                    }
                },
            }
        }
        entries
    }

    /// A map, whose opening `{` comes next.
    fn inner_map(&mut self) -> (r: Spanned<Value>)
        requires
            old(self).wf(),
            old(self).state().at(old(self).toks(), KindModel::LBrace),
        ensures
            final(self).after(*old(self)),
            final(self).pos > old(self).pos,
            (final(self).state(), Some(r.deep_view())) == old(self).state().value(old(self).toks()),
        decreases old(self).left(), 0nat,
    {
        let start = self.peek_span();
        self.advance();
        let entries = self.map_entries();
        let end = self.peek_span();
        self.expect(&TokenKind::RBrace, "`}`");
        proof {
            lemma_map_stated(entries);
        }
        Spanned::new(Value::Mapping(entries), Span::new(start.start, end.end))
    }

    fn map(&mut self) -> (r: Spanned<Value>)
        requires
            old(self).wf(),
        ensures
            final(self).after(*old(self)),
            (final(self).state(), r.deep_view()) == old(self).state().map(old(self).toks()),
    {
        let start = self.peek_span();
        self.expect(&TokenKind::LBrace, "`{`");
        let entries = self.map_entries();
        let end = self.peek_span();
        self.expect(&TokenKind::RBrace, "`}`");
        proof {
            lemma_map_stated(entries);
        }
        Spanned::new(Value::Mapping(entries), Span::new(start.start, end.end))
    }

    fn body_clause(&mut self) -> (r: Spanned<Clause>)
        requires
            old(self).wf(),
            old(self).state().at_word(old(self).toks(), "body"@),
        ensures
            final(self).after(*old(self)),
            final(self).pos > old(self).pos,
            (final(self).state(), r.deep_view()) == old(self).state().body_clause(old(self).toks()),
    {
        let start = self.peek_span();
        self.consume_kw("body");
        let map = self.map();
        let span = Span::new(start.start, map.span.end);
        Spanned::new(Clause::Body(map), span)
    }

    /// Whether the next token can begin a value (and so a positional argument).
    fn is_value_start(&self) -> (r: bool)
        requires
            self.wf(),
        ensures
            r == self.state().value_starts(self.toks()),
    {
        match self.peek() {
            TokenKind::Str(_) => true,
            TokenKind::Int(_) => true,
            TokenKind::Duration(_) => true,
            TokenKind::Ident(_) => true,
            TokenKind::LBracket => true,
            TokenKind::LBrace => true,
            _ => false,
        }
    }

    /// Parse an action operation: a `driver op` head, positional arguments, and
    /// clauses (`body { ... }`).
    fn op_call(&mut self) -> (r: Option<Spanned<OpCall>>)
        requires
            old(self).wf(),
        ensures
            final(self).after(*old(self)),
            (final(self).state(), r.deep_view()) == old(self).state().op_call(old(self).toks()),
    {
        let ghost tokens = self.toks();
        let driver = match self.expect_ident("a driver name") {
            Some(driver) => driver,
            None => {
                return None;
            },
        };
        let op = match self.expect_ident("an operation") {
            Some(op) => op,
            None => {
                return None;
            },
        };
        let start = driver.span.start;
        let mut end = op.span.end;
        let ghost named = seq![driver.deep_view(), op.deep_view()];
        let mut head: Vec<Spanned<String>> = Vec::new();
        head.push(driver);
        head.push(op);
        let mut args: Vec<Spanned<Value>> = Vec::new();
        let mut clauses: Vec<Spanned<Clause>> = Vec::new();
        proof {
            assert(head.deep_view() =~= named);
            assert(args.deep_view() =~= Seq::empty());
            assert(clauses.deep_view() =~= Seq::empty());
        }
        let ghost goal = self.state().arguments(
            tokens,
            OpCallModel { head: named, args: Seq::empty(), clauses: Seq::empty() },
            end,
        );
        loop
            invariant_except_break
                self.state().arguments(
                    tokens,
                    OpCallModel {
                        head: named,
                        args: args.deep_view(),
                        clauses: clauses.deep_view(),
                    },
                    end,
                ) == goal,
            invariant
                self.after(*old(self)),
                self.toks() == tokens,
            ensures
                goal == (
                    self.state(),
                    OpCallModel {
                        head: named,
                        args: args.deep_view(),
                        clauses: clauses.deep_view(),
                    },
                    end,
                ),
            decreases self.left(),
        {
            if self.at_kw("body") {
                let clause = self.body_clause();
                end = clause.span.end;
                let ghost before = clauses.deep_view();
                let ghost added = clause.deep_view();
                clauses.push(clause);
                assert(clauses.deep_view() =~= before.push(added));
            } else if self.is_value_start() {
                match self.value() {
                    None => {
                        break;
                    },
                    Some(value) => {
                        end = value.span.end;
                        let ghost before = args.deep_view();
                        let ghost added = value.deep_view();
                        args.push(value);
                        assert(args.deep_view() =~= before.push(added));
                    },
                }
            } else {
                break;
            }
        }
        Some(Spanned::new(OpCall { head, args, clauses }, Span::new(start, end)))
    }

    /// Parse `do { <operation> };`, one driver step.
    fn do_step(&mut self) -> (r: Option<Spanned<Step>>)
        requires
            old(self).wf(),
            old(self).state().at_word(old(self).toks(), "do"@),
        ensures
            final(self).after(*old(self)),
            final(self).pos > old(self).pos,
            (final(self).state(), r.deep_view()) == old(self).state().do_step(old(self).toks()),
    {
        let start = self.peek_span();
        self.consume_kw("do");
        self.expect(&TokenKind::LBrace, "`{`");
        let action = match self.op_call() {
            Some(action) => action,
            None => {
                return None;
            },
        };
        let end = self.peek_span();
        self.expect(&TokenKind::RBrace, "`}`");
        self.consume(&TokenKind::Semi);
        Some(Spanned::new(Step { action, expect: None }, Span::new(start.start, end.end)))
    }

    fn cmp_op(&mut self) -> (r: Option<Spanned<CmpOp>>)
        requires
            old(self).wf(),
        ensures
            final(self).after(*old(self)),
            (final(self).state(), r.deep_view()) == old(self).state().cmp_op(old(self).toks()),
    {
        let span = self.peek_span();
        let op = match self.peek() {
            TokenKind::EqEq => Some(CmpOp::Eq),
            TokenKind::Ne => Some(CmpOp::Ne),
            TokenKind::Lt => Some(CmpOp::Lt),
            TokenKind::Le => Some(CmpOp::Le),
            TokenKind::Gt => Some(CmpOp::Gt),
            TokenKind::Ge => Some(CmpOp::Ge),
            _ => None,
        };
        match op {
            Some(op) => {
                self.advance();
                Some(Spanned::new(op, span))
            },
            None => {
                self.error_here("expected a comparison (`==`, `!=`, `<`, `<=`, `>`, `>=`)");
                None
            },
        }
    }

    fn where_clause(&mut self) -> (r: Option<Spanned<Clause>>)
        requires
            old(self).wf(),
        ensures
            final(self).after(*old(self)),
            (final(self).state(), r.deep_view()) == old(self).state().where_clause(
                old(self).toks(),
            ),
    {
        let start = self.peek_span();
        self.consume_kw("where");
        let column = match self.expect_ident("a column name") {
            Some(column) => column,
            None => {
                return None;
            },
        };
        self.expect(&TokenKind::Eq, "`=`");
        let value = match self.value() {
            Some(value) => value,
            None => {
                return None;
            },
        };
        let span = Span::new(start.start, value.span.end);
        Some(Spanned::new(Clause::Where(Filter { column, value }), span))
    }

    /// Parse a dotted observable path, its arguments, and an optional `where`
    /// filter, e.g. `db.orders.count where name = "www"`.
    fn observable(&mut self) -> (r: Option<Spanned<OpCall>>)
        requires
            old(self).wf(),
        ensures
            final(self).after(*old(self)),
            (final(self).state(), r.deep_view()) == old(self).state().observable(old(self).toks()),
            r is Some ==> final(self).pos > old(self).pos,
    {
        let ghost tokens = self.toks();
        let first = match self.expect_ident("an observable") {
            Some(first) => first,
            None => {
                return None;
            },
        };
        let start = first.span.start;
        let mut end = first.span.end;
        let ghost began = self.state();
        let ghost named = first.deep_view();
        let mut head: Vec<Spanned<String>> = Vec::new();
        head.push(first);
        assert(head.deep_view() =~= seq![named]);
        let ghost goal = began.path(tokens, seq![named]);
        while self.at(&TokenKind::Dot)
            invariant
                self.after(*old(self)),
                self.toks() == tokens,
                self.pos > old(self).pos,
                head@.len() > 0,
                end == head@.last().span.end,
                began.path(tokens, seq![named]) == goal,
                old(self).state().ident(tokens, "an observable"@) == (began, Some(named)),
                old(self).toks() == tokens,
                self.state().path(tokens, head.deep_view()) == goal,
            decreases self.left(),
        {
            self.advance();
            match self.expect_ident("an observable path segment") {
                Some(segment) => {
                    end = segment.span.end;
                    let ghost before = head.deep_view();
                    let ghost added = segment.deep_view();
                    head.push(segment);
                    assert(head.deep_view() =~= before.push(added));
                },
                None => {
                    return None;
                },
            }
        }
        let ghost whole = head.deep_view();
        let ghost along = self.state();
        assert(goal == (along, Some(whole)));
        assert(whole.last() == head@.last().deep_view());
        let mut args: Vec<Spanned<Value>> = Vec::new();
        assert(args.deep_view() =~= Seq::empty());
        let ghost values = along.values(tokens, Seq::empty());
        loop
            invariant_except_break
                self.state().values(tokens, args.deep_view()) == values,
            invariant
                self.after(*old(self)),
                self.toks() == tokens,
                self.pos > old(self).pos,
                head@.len() > 0,
                head.deep_view() == whole,
                end == (if args@.len() > 0 {
                    args@.last().span.end
                } else {
                    head@.last().span.end
                }),
            ensures
                (self.state(), args.deep_view()) == values,
            decreases self.left(),
        {
            if self.at_kw("where") || !self.is_value_start() {
                break;
            }
            match self.value() {
                None => {
                    break;
                },
                Some(value) => {
                    end = value.span.end;
                    let ghost before = args.deep_view();
                    let ghost added = value.deep_view();
                    args.push(value);
                    assert(args.deep_view() =~= before.push(added));
                },
            }
        }
        proof {
            if args@.len() > 0 {
                assert(args.deep_view().last() == args@.last().deep_view());
            }
        }
        let mut clauses: Vec<Spanned<Clause>> = Vec::new();
        assert(clauses.deep_view() =~= Seq::empty());
        if self.at_kw("where") {
            if let Some(clause) = self.where_clause() {
                end = clause.span.end;
                let ghost added = clause.deep_view();
                clauses.push(clause);
                assert(clauses.deep_view() =~= seq![added]);
            }
        }
        Some(Spanned::new(OpCall { head, args, clauses }, Span::new(start, end)))
    }

    /// Parse `<observable> <cmp> <value>`, e.g. `db.orders.count == 3`.
    fn predicate(&mut self) -> (r: Option<Spanned<Predicate>>)
        requires
            old(self).wf(),
        ensures
            final(self).after(*old(self)),
            (final(self).state(), r.deep_view()) == old(self).state().predicate(old(self).toks()),
            r is Some ==> final(self).pos > old(self).pos,
    {
        let left = match self.observable() {
            Some(left) => left,
            None => {
                return None;
            },
        };
        let op = match self.cmp_op() {
            Some(op) => op,
            None => {
                return None;
            },
        };
        let right = match self.value() {
            Some(right) => right,
            None => {
                return None;
            },
        };
        let span = Span::new(left.span.start, right.span.end);
        Some(Spanned::new(Predicate { left, op, right }, span))
    }

    /// Parse `expect { <predicate>; ... }`, the settled-state expectation.
    fn expect_block(&mut self) -> (r: Vec<Spanned<Predicate>>)
        requires
            old(self).wf(),
            old(self).state().at_word(old(self).toks(), "expect"@),
        ensures
            final(self).after(*old(self)),
            final(self).pos > old(self).pos,
            (final(self).state(), r.deep_view()) == old(self).state().expect_block(
                old(self).toks(),
            ),
    {
        let ghost tokens = self.toks();
        self.consume_kw("expect");
        self.expect(&TokenKind::LBrace, "`{`");
        let ghost goal = self.state().predicates(tokens, Seq::empty());
        let mut predicates: Vec<Spanned<Predicate>> = Vec::new();
        assert(predicates.deep_view() =~= Seq::empty());
        while !self.at_eof() && !self.at(&TokenKind::RBrace)
            invariant
                self.after(*old(self)),
                self.toks() == tokens,
                self.pos > old(self).pos,
                self.state().predicates(tokens, predicates.deep_view()) == goal,
            decreases self.left(),
        {
            if let Some(predicate) = self.predicate() {
                let ghost before = predicates.deep_view();
                let ghost added = predicate.deep_view();
                predicates.push(predicate);
                assert(predicates.deep_view() =~= before.push(added));
                self.consume(&TokenKind::Semi);
            } else {
                self.recover_past(&TokenKind::Semi);
            }
        }
        self.expect(&TokenKind::RBrace, "`}`");
        self.consume(&TokenKind::Semi);
        predicates
    }

    /// Parse `consistent_within: <duration>;`, the scenario's heal-phase deadline.
    fn consistent_within_stmt(&mut self) -> (r: Option<Spanned<Duration>>)
        requires
            old(self).wf(),
            old(self).state().at_word(old(self).toks(), "consistent_within"@),
        ensures
            final(self).after(*old(self)),
            final(self).pos > old(self).pos,
            (final(self).state(), r.deep_view()) == old(self).state().consistent_within(
                old(self).toks(),
            ),
    {
        self.consume_kw("consistent_within");
        self.expect(&TokenKind::Colon, "`:`");
        let value = match self.value() {
            Some(value) => value,
            None => {
                return None;
            },
        };
        self.consume(&TokenKind::Semi);
        match value.node {
            Value::Duration(d) => Some(Spanned::new(d, value.span)),
            _ => {
                self.error(value.span, "`consistent_within` expects a duration like `30s`");
                None
            },
        }
    }

    fn scenario(&mut self) -> (r: Option<Spanned<Scenario>>)
        requires
            old(self).wf(),
            old(self).state().at_word(old(self).toks(), "scenario"@),
        ensures
            final(self).after(*old(self)),
            final(self).pos > old(self).pos,
            (final(self).state(), r.deep_view()) == old(self).state().scenario(old(self).toks()),
    {
        let ghost tokens = self.toks();
        let start = self.peek_span();
        self.consume_kw("scenario");
        let name = match self.expect_str("a scenario name") {
            Some(name) => name,
            None => {
                return None;
            },
        };
        self.expect(&TokenKind::LBrace, "`{`");
        let ghost goal = self.state().scenario_body(tokens, Body::empty());
        let mut consistent_within: Option<Spanned<Duration>> = None;
        let mut steps: Vec<Spanned<Step>> = Vec::new();
        let mut expect: Vec<Spanned<Predicate>> = Vec::new();
        proof {
            assert(steps.deep_view() =~= Seq::empty());
            assert(expect.deep_view() =~= Seq::empty());
        }
        while !self.at_eof() && !self.at(&TokenKind::RBrace)
            invariant
                self.after(*old(self)),
                self.toks() == tokens,
                self.pos > old(self).pos,
                self.state().scenario_body(
                    tokens,
                    Body {
                        consistent_within: consistent_within.deep_view(),
                        steps: steps.deep_view(),
                        expect: expect.deep_view(),
                    },
                ) == goal,
            decreases self.left(),
        {
            if self.at_kw("consistent_within") {
                if let Some(deadline) = self.consistent_within_stmt() {
                    consistent_within = Some(deadline);
                }
            } else if self.at_kw("do") {
                if let Some(step) = self.do_step() {
                    let ghost before = steps.deep_view();
                    let ghost added = step.deep_view();
                    steps.push(step);
                    assert(steps.deep_view() =~= before.push(added));
                } else {
                    self.recover_past(&TokenKind::Semi);
                }
            } else if self.at_kw("expect") {
                let mut more = self.expect_block();
                let ghost before = expect.deep_view();
                let ghost added = more.deep_view();
                expect.append(&mut more);
                assert(expect.deep_view() =~= before + added);
            } else {
                self.error_here("expected `consistent_within`, `do`, or `expect`");
                self.recover_past(&TokenKind::Semi);
            }
        }
        let end = self.peek_span();
        self.expect(&TokenKind::RBrace, "`}`");
        match consistent_within {
            Some(consistent_within) => Some(
                Spanned::new(
                    Scenario { name, budget: None, consistent_within, steps, expect },
                    Span::new(start.start, end.end),
                ),
            ),
            None => {
                self.error(name.span, "scenario is missing `consistent_within`");
                None
            },
        }
    }

    /// Parse `deployment: <plugin>;`, the plugin that brings the fleet up.
    fn deployment_stmt(&mut self) -> (r: Option<Spanned<String>>)
        requires
            old(self).wf(),
            old(self).state().at_word(old(self).toks(), "deployment"@),
        ensures
            final(self).after(*old(self)),
            final(self).pos > old(self).pos,
            (final(self).state(), r.deep_view()) == old(self).state().deployment(old(self).toks()),
    {
        self.consume_kw("deployment");
        self.expect(&TokenKind::Colon, "`:`");
        let plugin = match self.expect_ident("a deployment plugin name") {
            Some(plugin) => plugin,
            None => {
                return None;
            },
        };
        self.consume(&TokenKind::Semi);
        Some(plugin)
    }

    fn service(&mut self) -> (r: Option<Spanned<Service>>)
        requires
            old(self).wf(),
            old(self).state().at_word(old(self).toks(), "service"@),
        ensures
            final(self).after(*old(self)),
            final(self).pos > old(self).pos,
            (final(self).state(), r.deep_view()) == old(self).state().service(old(self).toks()),
    {
        let start = self.peek_span();
        self.consume_kw("service");
        let name = match self.expect_ident("a service name") {
            Some(name) => name,
            None => {
                return None;
            },
        };
        let attrs = self.map();
        let span = Span::new(start.start, attrs.span.end);
        self.consume(&TokenKind::Semi);
        Some(Spanned::new(Service { name, attrs }, span))
    }

    fn fleet(&mut self) -> (r: Option<Spanned<Fleet>>)
        requires
            old(self).wf(),
        ensures
            final(self).after(*old(self)),
            (final(self).state(), r.deep_view()) == old(self).state().fleet(old(self).toks()),
    {
        let ghost tokens = self.toks();
        let start = self.peek_span();
        if !self.consume_kw("fleet") {
            self.error(start, "expected `fleet`");
            return None;
        }
        let name = match self.expect_str("a fleet name") {
            Some(name) => name,
            None => {
                return None;
            },
        };
        self.expect(&TokenKind::LBrace, "`{`");
        let ghost goal = self.state().fleet_body(tokens, None, Seq::empty());
        let mut deployment: Option<Spanned<String>> = None;
        let mut services: Vec<Spanned<Service>> = Vec::new();
        assert(services.deep_view() =~= Seq::empty());
        while !self.at_eof() && !self.at(&TokenKind::RBrace)
            invariant
                self.after(*old(self)),
                self.toks() == tokens,
                self.state().fleet_body(tokens, deployment.deep_view(), services.deep_view())
                    == goal,
            decreases self.left(),
        {
            if self.at_kw("deployment") {
                if let Some(plugin) = self.deployment_stmt() {
                    deployment = Some(plugin);
                }
            } else if self.at_kw("service") {
                if let Some(service) = self.service() {
                    let ghost before = services.deep_view();
                    let ghost added = service.deep_view();
                    services.push(service);
                    assert(services.deep_view() =~= before.push(added));
                } else {
                    self.recover_past(&TokenKind::Semi);
                }
            } else {
                self.error_here("expected `deployment` or `service`");
                self.recover_past(&TokenKind::Semi);
            }
        }
        let end = self.peek_span();
        self.expect(&TokenKind::RBrace, "`}`");
        match deployment {
            Some(deployment) => Some(
                Spanned::new(
                    Fleet { name, deployment, services },
                    Span::new(start.start, end.end),
                ),
            ),
            None => {
                self.error(name.span, "fleet is missing `deployment`");
                None
            },
        }
    }

    fn file(&mut self) -> (r: Option<File>)
        requires
            old(self).wf(),
        ensures
            final(self).after(*old(self)),
            (final(self).state(), r.deep_view()) == old(self).state().file(old(self).toks()),
    {
        let ghost tokens = self.toks();
        let fleet = match self.fleet() {
            Some(fleet) => fleet,
            None => {
                return None;
            },
        };
        let ghost goal = self.state().scenarios(tokens, Seq::empty());
        let mut scenarios: Vec<Spanned<Scenario>> = Vec::new();
        assert(scenarios.deep_view() =~= Seq::empty());
        loop
            invariant_except_break
                self.state().scenarios(tokens, scenarios.deep_view()) == goal,
            invariant
                self.after(*old(self)),
                self.toks() == tokens,
            ensures
                (self.state(), scenarios.deep_view()) == goal,
            decreases self.left(),
        {
            if self.at_eof() {
                break;
            }
            if self.at_kw("scenario") {
                match self.scenario() {
                    Some(scenario) => {
                        let ghost before = scenarios.deep_view();
                        let ghost added = scenario.deep_view();
                        scenarios.push(scenario);
                        assert(scenarios.deep_view() =~= before.push(added));
                    },
                    None => {
                        break;
                    },
                }
            } else {
                self.error_here("expected `scenario` or end of file");
                break;
            }
        }
        // A file with nothing to run is not something a campaign can be asked
        // to run, so say so here rather than at the point of running it. Only
        // when nothing else went wrong: a scenario that failed to parse has
        // already said why it is missing.
        if scenarios.len() == 0 && self.errors.len() == 0 {
            self.error_here("expected at least one `scenario`");
        }
        Some(File { fleet, scenarios })
    }
}

/// Parse `tokens` (from a clean lex) into a [`File`], or the diagnostics that
/// prevented it.
pub fn parse(tokens: Vec<Token>) -> (r: Result<File, Vec<Diag>>)
    requires
        tokens@.len() > 0,
        tokens.deep_view().last().kind == KindModel::Eof,
    ensures
        match r {
            Ok(file) => parsed(tokens.deep_view()) == Ok::<FileModel, Seq<DiagModel>>(
                file.deep_view(),
            ),
            Err(errors) => parsed(tokens.deep_view()) == Err::<FileModel, Seq<DiagModel>>(
                errors.deep_view(),
            ),
        },
{
    let ghost model = tokens.deep_view();
    assert(model.last() == tokens@.last().deep_view());
    let mut parser = Parser { tokens, pos: 0, errors: Vec::new() };
    assert(parser.errors.deep_view() =~= Seq::empty());
    match parser.file() {
        Some(file) => if parser.errors.len() == 0 {
            Ok(file)
        } else {
            Err(parser.errors)
        },
        None => Err(parser.errors),
    }
}

/// A parse that fails says what is wrong, and one that succeeds has something
/// to run.
pub proof fn lemma_parse_says_why(tokens: Seq<TokenModel>)
    ensures
        parsed(tokens) matches Err(errors) ==> errors.len() > 0,
        parsed(tokens) matches Ok(file) ==> file.scenarios.len() > 0,
{
}

} // verus!
