//! What a plan says, told from the source it was compiled from.

use vstd::prelude::*;

use super::ast::{
    ClauseModel, FileModel, OpCallModel, PredicateModel, ScenarioModel as Said, ServiceModel,
    Stated, StepModel as SaidStep,
};
use super::grammar::{
    action_part, action_parts, argument, arguments, expectation, expectations, is_comparison, leads,
    lemma_file_is_its_tokens, lemma_kept_all_the_way, one_more, parted, reads_entries, reads_expect,
    reads_file, reads_items, reads_observable_with, reads_predicate, reads_predicate_with,
    reads_scenario, reads_step, reads_step_with, reads_value, scenarios, statement, statements,
    walked, word_at,
};
use super::laws::lemma_plan_says_what_the_file_does;
use super::lexer::{lemma_spans_in_source, lexed, offset, KindModel, TokenModel};
use super::lower::{
    all_meant, body_among, check_of, entries_in, entries_meant, meant, services_of, step_of,
};
use super::parser::{parsed, Body};
use super::registry::RegistryModel;
use super::span::At;
use super::written::{lemma_tokens_say_the_source, said, says, stands_at};
use super::compiled;
use crate::plan::{CheckModel, Literal, ScenarioModel, StepModel};
use crate::schema::CmpOp;

verus! {

/// Whether the tokens from `i` up to `j` are that value.
pub open spec fn means(tokens: Seq<TokenModel>, i: int, j: int, value: Literal) -> bool
    decreases value,
{
    &&& 0 <= i < j < tokens.len()
    &&& match value {
        Literal::Str(text) => j == i + 1 && tokens[i].kind == KindModel::Str(text),
        Literal::Int(n) => j == i + 1 && tokens[i].kind == KindModel::Int(n),
        Literal::Duration(d) => j == i + 1 && tokens[i].kind == KindModel::Duration(d),
        Literal::Null => j == i + 1 && word_at(tokens, i, "null"@),
        Literal::Bool(b) => j == i + 1 && word_at(
            tokens,
            i,
            if b {
                "true"@
            } else {
                "false"@
            },
        ),
        Literal::Ident(word) => {
            &&& j == i + 1
            &&& word_at(tokens, i, word)
            &&& word != "null"@
            &&& word != "true"@
            &&& word != "false"@
        },
        Literal::List(items) => {
            &&& j >= i + 2
            &&& tokens[i].kind == KindModel::LBracket
            &&& tokens[j - 1].kind == KindModel::RBracket
            &&& means_items(tokens, i + 1, j - 1, items)
        },
        Literal::Mapping(entries) => {
            &&& j >= i + 2
            &&& tokens[i].kind == KindModel::LBrace
            &&& tokens[j - 1].kind == KindModel::RBrace
            &&& means_entries(tokens, i + 1, j - 1, entries)
        },
    }
}

/// Whether the tokens from `i` up to `j` are those items, with commas between.
pub open spec fn means_items(tokens: Seq<TokenModel>, i: int, j: int, items: Seq<Literal>) -> bool
    decreases items,
{
    exists|at: Seq<int>| #[trigger]
        parted(tokens, at, i, j, items.len()) && forall|k: int|
            0 <= k < items.len() ==> means(tokens, #[trigger] at[k], at[k + 1] - 1, items[k])
}

/// Whether the tokens from `i` up to `j` are those names, each with its value,
/// with commas between.
pub open spec fn means_entries(
    tokens: Seq<TokenModel>,
    i: int,
    j: int,
    entries: Seq<(Seq<char>, Literal)>,
) -> bool
    decreases entries,
{
    exists|at: Seq<int>| #[trigger]
        parted(tokens, at, i, j, entries.len()) && forall|k: int|
            0 <= k < entries.len() ==> word_at(tokens, #[trigger] at[k], entries[k].0)
                && tokens[at[k] + 1].kind == KindModel::Colon && means(
                tokens,
                at[k] + 2,
                at[k + 1] - 1,
                entries[k].1,
            )
}

proof fn lemma_value_meant(
    tokens: Seq<TokenModel>,
    i: int,
    j: int,
    value: Stated,
    span: super::span::Span,
)
    requires
        reads_value(tokens, i, j, value, span),
    ensures
        means(tokens, i, j, meant(value)),
    decreases value,
{
    match value {
        Stated::List(items) => {
            lemma_items_meant(tokens, i + 1, j - 1, items);
        },
        Stated::Mapping(entries) => {
            lemma_entries_meant(tokens, i + 1, j - 1, entries);
        },
        _ => {},
    }
}

proof fn lemma_items_meant(tokens: Seq<TokenModel>, i: int, j: int, items: Seq<At<Stated>>)
    requires
        reads_items(tokens, i, j, items),
    ensures
        means_items(tokens, i, j, all_meant(items)),
    decreases items,
{
    let at = choose|at: Seq<int>| #[trigger]
        parted(tokens, at, i, j, items.len()) && forall|k: int|
            0 <= k < items.len() ==> reads_value(
                tokens,
                #[trigger] at[k],
                at[k + 1] - 1,
                items[k].node,
                items[k].span,
            );
    let all = all_meant(items);
    assert forall|k: int| 0 <= k < all.len() implies means(
        tokens,
        #[trigger] at[k],
        at[k + 1] - 1,
        all[k],
    ) by {
        lemma_value_meant(tokens, at[k], at[k + 1] - 1, items[k].node, items[k].span);
    }
    assert(parted(tokens, at, i, j, all.len()));
}

proof fn lemma_entries_meant(
    tokens: Seq<TokenModel>,
    i: int,
    j: int,
    entries: Seq<(At<Seq<char>>, At<Stated>)>,
)
    requires
        reads_entries(tokens, i, j, entries),
    ensures
        means_entries(tokens, i, j, entries_meant(entries)),
    decreases entries,
{
    let at = choose|at: Seq<int>| #[trigger]
        parted(tokens, at, i, j, entries.len()) && forall|k: int|
            0 <= k < entries.len() ==> super::grammar::reads_word(
                tokens,
                #[trigger] at[k],
                entries[k].0,
            ) && tokens[at[k] + 1].kind == KindModel::Colon && reads_value(
                tokens,
                at[k] + 2,
                at[k + 1] - 1,
                entries[k].1.node,
                entries[k].1.span,
            );
    let all = entries_meant(entries);
    assert forall|k: int| 0 <= k < all.len() implies word_at(tokens, #[trigger] at[k], all[k].0)
        && tokens[at[k] + 1].kind == KindModel::Colon && means(
        tokens,
        at[k] + 2,
        at[k + 1] - 1,
        all[k].1,
    ) by {
        lemma_value_meant(
            tokens,
            at[k] + 2,
            at[k + 1] - 1,
            entries[k].1.node,
            entries[k].1.span,
        );
    }
    assert(parted(tokens, at, i, j, all.len()));
}

proof fn lemma_leads_alike<T, U>(
    one: spec_fn(int, int, T, T) -> bool,
    two: spec_fn(int, int, U, U) -> bool,
    f: spec_fn(T) -> U,
    i: int,
    j: int,
    a: T,
    b: T,
)
    requires
        leads(one, i, j, a, b),
        forall|m: int, n: int, x: T, y: T| #[trigger] one(m, n, x, y) ==> two(m, n, f(x), f(y)),
    ensures
        leads(two, i, j, f(a), f(b)),
{
    let (at, states) = choose|at: Seq<int>, states: Seq<T>| #[trigger]
        walked(one, at, states, i, j, a, b);
    let others = states.map_values(f);
    assert forall|k: int| #![trigger others[k]] 0 <= k < at.len() - 1 implies two(
        at[k],
        at[k + 1],
        others[k],
        others[k + 1],
    ) by {
        assert(others[k] == f(states[k]));
        assert(one(at[k], at[k + 1], states[k], states[k + 1]));
    }
    assert(walked(two, at, others, i, j, f(a), f(b)));
}

/// One value after another, none of which is the word `where`.
pub open spec fn given(tokens: Seq<TokenModel>) -> spec_fn(
    int,
    int,
    Seq<Literal>,
    Seq<Literal>,
) -> bool {
    |i: int, j: int, a: Seq<Literal>, b: Seq<Literal>|
        !word_at(tokens, i, "where"@) && one_more(a, b) && means(tokens, i, j, b.last())
}

/// Whether a comparison is written like that.
pub open spec fn compares(text: Seq<char>, op: CmpOp) -> bool {
    match op {
        CmpOp::Eq => text == "=="@,
        CmpOp::Ne => text == "!="@,
        CmpOp::Lt => text == "<"@,
        CmpOp::Le => text == "<="@,
        CmpOp::Gt => text == ">"@,
        CmpOp::Ge => text == ">="@,
    }
}

/// Whether a comparison stands at that token of the source.
pub open spec fn compared_at(src: Seq<char>, token: TokenModel, op: CmpOp) -> bool {
    exists|text: Seq<char>| #[trigger]
        stands_at(src, token.span, text) && compares(text, op) && text == op.spelling()
}

/// Whether a dot stands at `i`, and that word behind it.
pub open spec fn dot_and_word(tokens: Seq<TokenModel>, i: int, word: Seq<char>) -> bool {
    tokens[i].kind == KindModel::Dot && word_at(tokens, i + 1, word)
}

/// Whether a check is what the tokens from `i` up to `j` say: a service and what is
/// read of it, with dots between; what it is given, up to `m`; a column and its
/// value behind `where`, where that is there; and, at `c`, how it compares with the
/// value behind it.
pub open spec fn check_reads(
    src: Seq<char>,
    tokens: Seq<TokenModel>,
    i: int,
    m: int,
    c: int,
    j: int,
    check: CheckModel,
) -> bool {
    let n = check.observable.len();
    &&& 0 <= i < c < j < tokens.len()
    &&& word_at(tokens, i, check.service)
    &&& forall|q: int|
        0 <= q < n ==> dot_and_word(tokens, i + 2 * q + 1, #[trigger] check.observable[q])
    &&& tokens[i + 2 * n + 1].kind != KindModel::Dot
    &&& leads(given(tokens), i + 2 * n + 1, m, Seq::empty(), check.args)
    &&& if word_at(tokens, m, "where"@) {
        check.filter matches Some(filter) && word_at(tokens, m + 1, filter.0) && tokens[m + 2].kind
            == KindModel::Eq && means(tokens, m + 3, c, filter.1)
    } else {
        check.filter is None && m == c
    }
    &&& compared_at(src, tokens[c], check.op)
    &&& means(tokens, c + 1, j, check.value)
}

proof fn lemma_given(tokens: Seq<TokenModel>, i: int, j: int, args: Seq<At<Stated>>)
    requires
        leads(arguments(tokens), i, j, Seq::empty(), args),
    ensures
        leads(given(tokens), i, j, Seq::empty(), all_meant(args)),
{
    let f = |args: Seq<At<Stated>>| all_meant(args);
    assert forall|m: int, n: int, x: Seq<At<Stated>>, y: Seq<At<Stated>>| #[trigger]
        arguments(tokens)(m, n, x, y) implies given(tokens)(m, n, f(x), f(y)) by {
        assert(argument(tokens, m, n, x, y));
        lemma_value_meant(tokens, m, n, y.last().node, y.last().span);
        assert(all_meant(y).drop_last() =~= all_meant(x)) by {
            assert forall|k: int| 0 <= k < x.len() implies all_meant(y)[k] == all_meant(x)[k] by {
                assert(y.drop_last()[k] == y[k]);
            }
        }
        assert(all_meant(y).last() == meant(y.last().node));
    }
    lemma_leads_alike(arguments(tokens), given(tokens), f, i, j, Seq::empty(), args);
    assert(all_meant(Seq::<At<Stated>>::empty()) =~= Seq::empty());
}

proof fn lemma_compared(src: Seq<char>, token: TokenModel, said_op: super::ast::CmpOp)
    requires
        said(src, token),
        is_comparison(token.kind, said_op),
    ensures
        compared_at(src, token, super::lower::compared(said_op)),
{
    let text = choose|text: Seq<char>| #[trigger]
        stands_at(src, token.span, text) && says(text, token.kind);
    assert(compares(text, super::lower::compared(said_op)));
}

proof fn lemma_check_written(
    src: Seq<char>,
    tokens: Seq<TokenModel>,
    i: int,
    j: int,
    predicate: At<PredicateModel>,
    services: super::lower::Services,
    registry: RegistryModel,
)
    requires
        reads_predicate(tokens, i, j, predicate),
        forall|k: int| 0 <= k < tokens.len() ==> said(src, #[trigger] tokens[k]),
        check_of(predicate.node, services, registry) is Some,
    ensures
        exists|m: int, c: int| #[trigger]
            check_reads(
                src,
                tokens,
                i,
                m,
                c,
                j,
                check_of(predicate.node, services, registry)->0,
            ),
{
    let c = choose|c: int| #[trigger] reads_predicate_with(tokens, i, c, j, predicate);
    let PredicateModel { left, op, right } = predicate.node;
    let (h, m) = choose|h: int, m: int| #[trigger]
        reads_observable_with(tokens, i, h, m, c, left);
    let call = left.node;
    let check = check_of(predicate.node, services, registry)->0;
    let n = check.observable.len();
    assert(super::grammar::reads_word(tokens, i + 2 * 0, call.head[0]));
    assert(n == call.head.len() - 1);
    assert(h == i + 2 * n + 1);
    assert forall|q: int| 0 <= q < n implies dot_and_word(
        tokens,
        i + 2 * q + 1,
        #[trigger] check.observable[q],
    ) by {
        assert(check.observable[q] == call.head.skip(1)[q].node);
        assert(super::grammar::reads_word(tokens, i + 2 * (q + 1), call.head[q + 1]));
        assert(i + 2 * (q + 1) == i + 2 * q + 2);
        assert(i + 2 * (q + 1) - 1 == i + 2 * q + 1);
    }
    lemma_given(tokens, h, m, call.args);
    if word_at(tokens, m, "where"@) {
        let filter = call.clauses[0].node->Where_0;
        lemma_value_meant(tokens, m + 3, c, filter.value.node, filter.value.span);
        assert(check.filter == Some((filter.column.node, meant(filter.value.node))));
    } else {
        assert(check.filter is None);
    }
    lemma_compared(src, tokens[c], op.node);
    lemma_value_meant(tokens, c + 1, j, right.node, right.span);
    assert(check_reads(src, tokens, i, m, c, j, check));
}

/// What a step has been given so far: its values, and the body it carries.
pub type Given = (Seq<Literal>, Option<Seq<(Seq<char>, Literal)>>);

/// Whether the tokens from `i` up to `j` are one value more, or a body. The first
/// body is the one a step carries.
pub open spec fn one_given(tokens: Seq<TokenModel>, i: int, j: int, a: Given, b: Given) -> bool {
    if word_at(tokens, i, "body"@) {
        &&& a.0 == b.0
        &&& if a.1 is Some {
            a.1 == b.1
        } else {
            b.1 matches Some(entries) && means(tokens, i + 1, j, Literal::Mapping(entries))
        }
    } else {
        &&& a.1 == b.1
        &&& one_more(a.0, b.0)
        &&& means(tokens, i, j, b.0.last())
    }
}

/// One thing a step is given after another.
pub open spec fn all_given(tokens: Seq<TokenModel>) -> spec_fn(int, int, Given, Given) -> bool {
    |i: int, j: int, a: Given, b: Given| one_given(tokens, i, j, a, b)
}

/// Whether a step is what the tokens from `i` up to `m` say: a driver, an
/// operation, and what it is given, between `do` and its braces.
pub open spec fn step_reads(tokens: Seq<TokenModel>, i: int, m: int, step: StepModel) -> bool {
    &&& word_at(tokens, i, "do"@)
    &&& tokens[i + 1].kind == KindModel::LBrace
    &&& word_at(tokens, i + 2, step.driver)
    &&& word_at(tokens, i + 3, step.operation)
    &&& leads(all_given(tokens), i + 4, m, (Seq::empty(), None), (step.args, step.body))
    &&& tokens[m].kind == KindModel::RBrace
    &&& step.expect is None
}

proof fn lemma_body_more(clauses: Seq<At<ClauseModel>>, more: Seq<At<ClauseModel>>)
    requires
        one_more(clauses, more),
        more.last().node is Body,
    ensures
        body_among(more) == (if body_among(clauses) is Some {
            body_among(clauses)
        } else {
            Some(entries_meant(entries_in(more.last().node->Body_0.node)))
        }),
    decreases clauses.len(),
{
    if clauses.len() > 0 {
        assert(more[0] == more.drop_last()[0]);
        assert(more.skip(1).drop_last() =~= clauses.skip(1));
        assert(more.skip(1).last() == more.last());
        lemma_body_more(clauses.skip(1), more.skip(1));
    } else {
        assert(more[0] == more.last());
    }
}

proof fn lemma_step_written(
    tokens: Seq<TokenModel>,
    i: int,
    j: int,
    step: At<SaidStep>,
    registry: RegistryModel,
)
    requires
        reads_step(tokens, i, j, step),
        step_of(step.node, registry) is Some,
    ensures
        exists|m: int| #[trigger] step_reads(tokens, i, m, step_of(step.node, registry)->0),
{
    let m = choose|m: int| #[trigger] reads_step_with(tokens, i, m, j, step);
    let call = step.node.action.node;
    let start = OpCallModel { head: call.head, args: Seq::empty(), clauses: Seq::empty() };
    let f = |call: OpCallModel| (all_meant(call.args), body_among(call.clauses));
    assert forall|k: int, n: int, x: OpCallModel, y: OpCallModel| #[trigger]
        action_parts(tokens)(k, n, x, y) implies all_given(tokens)(k, n, f(x), f(y)) by {
        assert(action_part(tokens, k, n, x, y));
        if word_at(tokens, k, "body"@) {
            lemma_body_more(x.clauses, y.clauses);
            let map = y.clauses.last().node->Body_0;
            lemma_value_meant(tokens, k + 1, n, map.node, map.span);
        } else {
            lemma_value_meant(tokens, k, n, y.args.last().node, y.args.last().span);
            assert(all_meant(y.args).drop_last() =~= all_meant(x.args)) by {
                assert forall|t: int| 0 <= t < x.args.len() implies all_meant(y.args)[t]
                    == all_meant(x.args)[t] by {
                    assert(y.args.drop_last()[t] == y.args[t]);
                }
            }
            assert(all_meant(y.args).last() == meant(y.args.last().node));
        }
        assert(one_given(tokens, k, n, f(x), f(y)));
    }
    lemma_leads_alike(action_parts(tokens), all_given(tokens), f, i + 4, m, start, call);
    assert(all_meant(Seq::<At<Stated>>::empty()) =~= Seq::empty());
    assert(f(start) == (Seq::<Literal>::empty(), None::<Seq<(Seq<char>, Literal)>>));
    assert(step_reads(tokens, i, m, step_of(step.node, registry)->0));
}

spec fn scenario_there(tokens: Seq<TokenModel>, scenario: At<Said>) -> bool {
    exists|i: int, j: int| #[trigger] reads_scenario(tokens, i, j, scenario)
}

spec fn predicate_there(tokens: Seq<TokenModel>, predicate: At<PredicateModel>) -> bool {
    exists|i: int, j: int| #[trigger] reads_predicate(tokens, i, j, predicate)
}

spec fn step_there(tokens: Seq<TokenModel>, step: At<SaidStep>) -> bool {
    exists|i: int, j: int| #[trigger] reads_step(tokens, i, j, step)
}

proof fn lemma_scenarios_there(tokens: Seq<TokenModel>, m: int, j: int, file: FileModel, k: int)
    requires
        reads_file(tokens, m, j, file),
        0 <= k < file.scenarios.len(),
    ensures
        scenario_there(tokens, file.scenarios[k]),
{
    let holds = |all: Seq<At<Said>>|
        forall|k: int| 0 <= k < all.len() ==> scenario_there(tokens, #[trigger] all[k]);
    assert forall|a: int, b: int, x: Seq<At<Said>>, y: Seq<At<Said>>| #[trigger]
        scenarios(tokens)(a, b, x, y) && holds(x) implies holds(y) by {
        assert forall|k: int| 0 <= k < y.len() implies scenario_there(tokens, #[trigger] y[k]) by {
            if k < x.len() {
                assert(y.drop_last()[k] == y[k]);
                assert(scenario_there(tokens, x[k]));
            } else {
                assert(y[k] == y.last());
                assert(reads_scenario(tokens, a, b, y[k]));
            }
        }
    }
    lemma_kept_all_the_way(scenarios(tokens), m, j, Seq::empty(), file.scenarios, holds);
}

proof fn lemma_predicates_there(
    tokens: Seq<TokenModel>,
    i: int,
    j: int,
    predicates: Seq<At<PredicateModel>>,
)
    requires
        leads(expectations(tokens), i, j, Seq::empty(), predicates),
    ensures
        forall|k: int|
            0 <= k < predicates.len() ==> predicate_there(tokens, #[trigger] predicates[k]),
{
    let holds = |all: Seq<At<PredicateModel>>|
        forall|k: int| 0 <= k < all.len() ==> predicate_there(tokens, #[trigger] all[k]);
    assert forall|a: int, b: int, x: Seq<At<PredicateModel>>, y: Seq<At<PredicateModel>>| #[trigger]
        expectations(tokens)(a, b, x, y) && holds(x) implies holds(y) by {
        assert(expectation(tokens, a, b, x, y));
        assert forall|k: int| 0 <= k < y.len() implies predicate_there(tokens, #[trigger] y[k]) by {
            if k < x.len() {
                assert(y.drop_last()[k] == y[k]);
                assert(predicate_there(tokens, x[k]));
            } else {
                assert(y[k] == y.last());
            }
        }
    }
    lemma_kept_all_the_way(expectations(tokens), i, j, Seq::empty(), predicates, holds);
}

spec fn predicates_there(tokens: Seq<TokenModel>, predicates: Seq<At<PredicateModel>>) -> bool {
    forall|k: int| 0 <= k < predicates.len() ==> predicate_there(tokens, #[trigger] predicates[k])
}

spec fn steps_there(tokens: Seq<TokenModel>, steps: Seq<At<SaidStep>>) -> bool {
    forall|k: int| 0 <= k < steps.len() ==> step_there(tokens, #[trigger] steps[k])
}

proof fn lemma_one_more_step(
    tokens: Seq<TokenModel>,
    i: int,
    j: int,
    before: Seq<At<SaidStep>>,
    after: Seq<At<SaidStep>>,
)
    requires
        steps_there(tokens, before),
        one_more(before, after),
        reads_step(tokens, i, j, after.last()),
    ensures
        steps_there(tokens, after),
{
    assert forall|k: int| 0 <= k < after.len() implies step_there(tokens, #[trigger] after[k]) by {
        if k < before.len() {
            assert(after.drop_last()[k] == after[k]);
            assert(step_there(tokens, before[k]));
        } else {
            assert(after[k] == after.last());
        }
    }
}

proof fn lemma_more_predicates(
    tokens: Seq<TokenModel>,
    i: int,
    m: int,
    j: int,
    before: Seq<At<PredicateModel>>,
    predicates: Seq<At<PredicateModel>>,
)
    requires
        predicates_there(tokens, before),
        reads_expect(tokens, i, m, j, predicates),
    ensures
        predicates_there(tokens, before + predicates),
{
    let after = before + predicates;
    lemma_predicates_there(tokens, i + 2, m, predicates);
    assert forall|k: int| 0 <= k < after.len() implies predicate_there(
        tokens,
        #[trigger] after[k],
    ) by {
        if k < before.len() {
            assert(after[k] == before[k]);
        } else {
            assert(after[k] == predicates[k - before.len()]);
        }
    }
}

proof fn lemma_one_statement(tokens: Seq<TokenModel>, i: int, j: int, x: Body, y: Body)
    requires
        statement(tokens, i, j, x, y),
        predicates_there(tokens, x.expect),
        steps_there(tokens, x.steps),
    ensures
        predicates_there(tokens, y.expect),
        steps_there(tokens, y.steps),
{
    if word_at(tokens, i, "consistent_within"@) {
        assert(y.expect == x.expect && y.steps == x.steps);
    } else if word_at(tokens, i, "do"@) {
        lemma_one_more_step(tokens, i, j, x.steps, y.steps);
    } else {
        let (m, predicates) = choose|m: int, predicates: Seq<At<PredicateModel>>| #[trigger]
            reads_expect(tokens, i, m, j, predicates) && y.expect == x.expect + predicates;
        lemma_more_predicates(tokens, i, m, j, x.expect, predicates);
    }
}

proof fn lemma_statements_there(tokens: Seq<TokenModel>, scenario: At<Said>)
    requires
        scenario_there(tokens, scenario),
    ensures
        predicates_there(tokens, scenario.node.expect),
        steps_there(tokens, scenario.node.steps),
{
    let (i, j) = choose|i: int, j: int| #[trigger] reads_scenario(tokens, i, j, scenario);
    let holds = |body: Body|
        predicates_there(tokens, body.expect) && steps_there(tokens, body.steps);
    assert forall|a: int, b: int, x: Body, y: Body| #[trigger]
        statements(tokens)(a, b, x, y) && holds(x) implies holds(y) by {
        lemma_one_statement(tokens, a, b, x, y);
    }
    lemma_kept_all_the_way(
        statements(tokens),
        i + 3,
        j - 1,
        Body::empty(),
        Body {
            consistent_within: Some(scenario.node.consistent_within),
            steps: scenario.node.steps,
            expect: scenario.node.expect,
        },
        holds,
    );
}

/// A plan has one scenario for each the source has, and a scenario of the plan one
/// check for each predicate of it and one step for each `do`, in the order they are
/// written. Each check compares the way that is written there, and each check and
/// step says what is written there.
pub proof fn lemma_plan_is_as_written(src: Seq<char>, registry: RegistryModel, k: int)
    requires
        offset(src, src.len() as int) <= usize::MAX,
        compiled(src, registry) is Ok,
        0 <= k < parsed(lexed(src).tokens)->Ok_0.scenarios.len(),
    ensures
        ({
            let tokens = lexed(src).tokens;
            let file = parsed(tokens)->Ok_0;
            let plan = compiled(src, registry)->Ok_0;
            let said = file.scenarios[k].node;
            let scenario = plan.scenarios[k];
            &&& exists|m: int, j: int| #[trigger] reads_file(tokens, m, j, file)
            &&& plan.scenarios.len() == file.scenarios.len()
            &&& scenario.name == said.name.node
            &&& scenario.consistent_within == said.consistent_within.node
            &&& scenario.budget is None
            &&& scenario.checks.len() == said.expect.len()
            &&& forall|i: int|
                0 <= i < said.expect.len() ==> predicate_says(
                    src,
                    tokens,
                    #[trigger] said.expect[i],
                    scenario.checks[i],
                )
            &&& scenario.steps.len() == said.steps.len()
            &&& forall|i: int|
                0 <= i < said.steps.len() ==> step_says(
                    tokens,
                    #[trigger] said.steps[i],
                    scenario.steps[i],
                )
        }),
{
    let tokens = lexed(src).tokens;
    lemma_spans_in_source(src);
    assert forall|t: int| 0 <= t < tokens.len() implies said(src, #[trigger] tokens[t]) by {
        lemma_tokens_say_the_source(src, t);
    }
    lemma_file_is_its_tokens(tokens);
    let file = parsed(tokens)->Ok_0;
    let (m, j) = choose|m: int, j: int| #[trigger] reads_file(tokens, m, j, file);
    lemma_plan_says_what_the_file_does(file, registry, k);
    lemma_scenarios_there(tokens, m, j, file, k);
    lemma_statements_there(tokens, file.scenarios[k]);
    let plan = compiled(src, registry)->Ok_0;
    let told = file.scenarios[k].node;
    let scenario = plan.scenarios[k];
    let services = services_of(file.fleet.node.services);
    let (si, sj) = choose|i: int, j: int| #[trigger]
        reads_scenario(tokens, i, j, file.scenarios[k]);
    assert forall|i: int| 0 <= i < told.expect.len() implies predicate_says(
        src,
        tokens,
        #[trigger] told.expect[i],
        scenario.checks[i],
    ) by {
        assert(predicate_there(tokens, told.expect[i]));
        let (a, b) = choose|a: int, b: int| #[trigger]
            reads_predicate(tokens, a, b, told.expect[i]);
        assert(check_of(told.expect[i].node, services, registry) == Some(scenario.checks[i]));
        lemma_check_written(src, tokens, a, b, told.expect[i], services, registry);
    }
    assert forall|i: int| 0 <= i < told.steps.len() implies step_says(
        tokens,
        #[trigger] told.steps[i],
        scenario.steps[i],
    ) by {
        assert(step_there(tokens, told.steps[i]));
        let (a, b) = choose|a: int, b: int| #[trigger] reads_step(tokens, a, b, told.steps[i]);
        assert(step_of(told.steps[i].node, registry) == Some(scenario.steps[i]));
        lemma_step_written(tokens, a, b, told.steps[i], registry);
    }
}

/// Whether a check says what a predicate does, where that is written.
pub open spec fn predicate_says(
    src: Seq<char>,
    tokens: Seq<TokenModel>,
    predicate: At<PredicateModel>,
    check: CheckModel,
) -> bool {
    exists|i: int, j: int| #[trigger]
        reads_predicate(tokens, i, j, predicate) && exists|m: int, c: int| #[trigger]
            check_reads(src, tokens, i, m, c, j, check)
}

/// Whether a step of a plan says what a `do` does, where that is written.
pub open spec fn step_says(tokens: Seq<TokenModel>, said: At<SaidStep>, step: StepModel) -> bool {
    exists|i: int, j: int| #[trigger]
        reads_step(tokens, i, j, said) && exists|m: int| #[trigger]
            step_reads(tokens, i, m, step)
}

} // verus!
