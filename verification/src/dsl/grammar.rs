//! What a scenario file says, token by token.

use vstd::prelude::*;

use super::ast::{
    ClauseModel, CmpOp, FileModel, FleetModel, OpCallModel, PredicateModel, ScenarioModel,
    ServiceModel, Stated, StepModel,
};
use super::lexer::{KindModel, TokenModel};
use super::parser::{across, parsed, Body, Parsing};
use super::span::{At, Span};
use crate::time::Duration;

verus! {

/// Whether going one step at a time leads from `a` at `i` to `b` at `j`.
pub open spec fn leads<T>(
    one: spec_fn(int, int, T, T) -> bool,
    i: int,
    j: int,
    a: T,
    b: T,
) -> bool {
    exists|at: Seq<int>, states: Seq<T>| #[trigger] walked(one, at, states, i, j, a, b)
}

/// Whether those are the places and the states on the way.
pub open spec fn walked<T>(
    one: spec_fn(int, int, T, T) -> bool,
    at: Seq<int>,
    states: Seq<T>,
    i: int,
    j: int,
    a: T,
    b: T,
) -> bool {
    &&& at.len() == states.len()
    &&& at.len() > 0
    &&& at[0] == i
    &&& at.last() == j
    &&& states[0] == a
    &&& states.last() == b
    &&& forall|k: int|
        #![trigger states[k]]
        0 <= k < at.len() - 1 ==> one(at[k], at[k + 1], states[k], states[k + 1])
}

proof fn lemma_stays<T>(one: spec_fn(int, int, T, T) -> bool, i: int, a: T)
    ensures
        leads(one, i, i, a, a),
{
    assert(walked(one, seq![i], seq![a], i, i, a, a));
}

proof fn lemma_goes_on<T>(
    one: spec_fn(int, int, T, T) -> bool,
    i: int,
    m: int,
    j: int,
    a: T,
    b: T,
    c: T,
)
    requires
        leads(one, i, m, a, b),
        one(m, j, b, c),
    ensures
        leads(one, i, j, a, c),
{
    let (at, states) = choose|at: Seq<int>, states: Seq<T>| #[trigger]
        walked(one, at, states, i, m, a, b);
    let further = at.push(j);
    let more = states.push(c);
    assert forall|k: int| #![trigger more[k]] 0 <= k < further.len() - 1 implies one(
        further[k],
        further[k + 1],
        more[k],
        more[k + 1],
    ) by {
        assert(more[k] == states[k]);
        if k < at.len() - 1 {
            assert(more[k + 1] == states[k + 1]);
        }
    }
    assert(walked(one, further, more, i, j, a, c));
}

/// What holds at the start and is kept by every step holds at the end.
pub proof fn lemma_kept_all_the_way<T>(
    one: spec_fn(int, int, T, T) -> bool,
    i: int,
    j: int,
    a: T,
    b: T,
    holds: spec_fn(T) -> bool,
)
    requires
        leads(one, i, j, a, b),
        holds(a),
        forall|m: int, n: int, x: T, y: T| #[trigger] one(m, n, x, y) && holds(x) ==> holds(y),
    ensures
        holds(b),
{
    let (at, states) = choose|at: Seq<int>, states: Seq<T>| #[trigger]
        walked(one, at, states, i, j, a, b);
    lemma_kept_up_to(one, at, states, holds, states.len() - 1);
}

proof fn lemma_kept_up_to<T>(
    one: spec_fn(int, int, T, T) -> bool,
    at: Seq<int>,
    states: Seq<T>,
    holds: spec_fn(T) -> bool,
    k: int,
)
    requires
        0 <= k < states.len(),
        at.len() == states.len(),
        holds(states[0]),
        forall|k: int|
            #![trigger states[k]]
            0 <= k < at.len() - 1 ==> one(at[k], at[k + 1], states[k], states[k + 1]),
        forall|m: int, n: int, x: T, y: T| #[trigger] one(m, n, x, y) && holds(x) ==> holds(y),
    ensures
        holds(states[k]),
    decreases k,
{
    if k > 0 {
        lemma_kept_up_to(one, at, states, holds, k - 1);
        assert(one(at[k - 1], at[k - 1 + 1], states[k - 1], states[k - 1 + 1]));
    }
}

/// Whether the tokens from `i` up to `j` are that value, which stands there.
pub open spec fn reads_value(
    tokens: Seq<TokenModel>,
    i: int,
    j: int,
    value: Stated,
    span: Span,
) -> bool
    decreases value,
{
    &&& 0 <= i < j < tokens.len()
    &&& span == across(tokens[i].span, tokens[j - 1].span)
    &&& match value {
        Stated::Str(text) => j == i + 1 && tokens[i].kind == KindModel::Str(text),
        Stated::Int(n) => j == i + 1 && tokens[i].kind == KindModel::Int(n),
        Stated::Duration(d) => j == i + 1 && tokens[i].kind == KindModel::Duration(d),
        Stated::Null => j == i + 1 && tokens[i].kind == KindModel::Ident("null"@),
        Stated::Bool(b) => j == i + 1 && tokens[i].kind == KindModel::Ident(
            if b {
                "true"@
            } else {
                "false"@
            },
        ),
        Stated::Ident(word) => {
            &&& j == i + 1
            &&& tokens[i].kind == KindModel::Ident(word)
            &&& word != "null"@
            &&& word != "true"@
            &&& word != "false"@
        },
        Stated::List(items) => {
            &&& j >= i + 2
            &&& tokens[i].kind == KindModel::LBracket
            &&& tokens[j - 1].kind == KindModel::RBracket
            &&& reads_items(tokens, i + 1, j - 1, items)
        },
        Stated::Mapping(entries) => {
            &&& j >= i + 2
            &&& tokens[i].kind == KindModel::LBrace
            &&& tokens[j - 1].kind == KindModel::RBrace
            &&& reads_entries(tokens, i + 1, j - 1, entries)
        },
    }
}

/// Whether `at` parts the tokens from `i` up to `j` into that many, with a comma
/// behind each. The last one can go without.
pub open spec fn parted(tokens: Seq<TokenModel>, at: Seq<int>, i: int, j: int, n: nat) -> bool {
    &&& at.len() == n + 1
    &&& at[0] == i
    &&& n == 0 ==> i == j
    &&& n > 0 ==> at[n as int] == j + 1 || (at[n as int] == j && tokens[j - 1].kind
        == KindModel::Comma)
    &&& forall|k: int|
        0 < k < n ==> tokens[(#[trigger] at[k]) - 1].kind == KindModel::Comma
}

/// Whether the tokens from `i` up to `j` are those items, with commas between.
pub open spec fn reads_items(
    tokens: Seq<TokenModel>,
    i: int,
    j: int,
    items: Seq<At<Stated>>,
) -> bool
    decreases items,
{
    exists|at: Seq<int>| #[trigger]
        parted(tokens, at, i, j, items.len()) && forall|k: int|
            0 <= k < items.len() ==> reads_value(
                tokens,
                #[trigger] at[k],
                at[k + 1] - 1,
                items[k].node,
                items[k].span,
            )
}

/// Whether the tokens from `i` up to `j` are those names, each with its value,
/// with commas between.
pub open spec fn reads_entries(
    tokens: Seq<TokenModel>,
    i: int,
    j: int,
    entries: Seq<(At<Seq<char>>, At<Stated>)>,
) -> bool
    decreases entries,
{
    exists|at: Seq<int>| #[trigger]
        parted(tokens, at, i, j, entries.len()) && forall|k: int|
            0 <= k < entries.len() ==> reads_word(tokens, #[trigger] at[k], entries[k].0)
                && tokens[at[k] + 1].kind == KindModel::Colon && reads_value(
                tokens,
                at[k] + 2,
                at[k + 1] - 1,
                entries[k].1.node,
                entries[k].1.span,
            )
}

/// Whether the token at `i` is that word.
pub open spec fn reads_word(tokens: Seq<TokenModel>, i: int, word: At<Seq<char>>) -> bool {
    &&& 0 <= i < tokens.len()
    &&& tokens[i].kind == KindModel::Ident(word.node)
    &&& tokens[i].span == word.span
}

/// Whether a parse stands at a token.
pub open spec fn stands(p: Parsing, tokens: Seq<TokenModel>) -> bool {
    &&& tokens.len() > 0
    &&& tokens.last().kind == KindModel::Eof
    &&& 0 <= p.pos < tokens.len()
}

/// Whether a parse went on to another, and found nothing it said before right.
pub open spec fn onward(p: Parsing, q: Parsing, tokens: Seq<TokenModel>) -> bool {
    &&& stands(q, tokens)
    &&& p.pos <= q.pos
    &&& p.errors.len() <= q.errors.len()
}

proof fn lemma_recover(p: Parsing, tokens: Seq<TokenModel>, sync: KindModel)
    requires
        stands(p, tokens),
        sync != KindModel::Eof,
    ensures
        onward(p, p.recover(tokens, sync), tokens),
        onward(p, p.resync(tokens, sync), tokens),
    decreases tokens.len() - p.pos,
{
    if p.goes_on(tokens) && !p.at(tokens, KindModel::RBrace) && !p.at(tokens, sync) {
        lemma_recover(p.next(tokens), tokens, sync);
    }
}

proof fn lemma_value(p: Parsing, tokens: Seq<TokenModel>)
    requires
        stands(p, tokens),
    ensures
        ({
            let (q, value) = p.value(tokens);
            &&& onward(p, q, tokens)
            &&& value is None ==> q.errors.len() > p.errors.len()
            &&& value is Some ==> q.pos > p.pos
            &&& q.errors.len() == p.errors.len() ==> reads_value(
                tokens,
                p.pos,
                q.pos,
                value->0.node,
                value->0.span,
            )
        }),
    decreases p.left(tokens), 0nat,
{
    match p.kind(tokens) {
        KindModel::LBracket => {
            let on = p.next(tokens);
            let none = Seq::<At<Stated>>::empty();
            assert(commaed(tokens, seq![on.pos], on.pos, on.pos, 0));
            lemma_items(on, tokens, on.pos, none, seq![on.pos]);
        },
        KindModel::LBrace => {
            let on = p.next(tokens);
            let none = Seq::<(At<Seq<char>>, At<Stated>)>::empty();
            assert(commaed(tokens, seq![on.pos], on.pos, on.pos, 0));
            lemma_entries(on, tokens, on.pos, none, seq![on.pos]);
        },
        _ => {},
    }
}

spec fn commaed(tokens: Seq<TokenModel>, at: Seq<int>, i: int, j: int, n: nat) -> bool {
    &&& at.len() == n + 1
    &&& at[0] == i
    &&& at[n as int] == j
    &&& forall|k: int| 0 < k <= n ==> tokens[(#[trigger] at[k]) - 1].kind == KindModel::Comma
}

spec fn items_at(tokens: Seq<TokenModel>, at: Seq<int>, items: Seq<At<Stated>>) -> bool {
    forall|k: int|
        0 <= k < items.len() ==> reads_value(
            tokens,
            #[trigger] at[k],
            at[k + 1] - 1,
            items[k].node,
            items[k].span,
        )
}

spec fn entries_at(
    tokens: Seq<TokenModel>,
    at: Seq<int>,
    entries: Seq<(At<Seq<char>>, At<Stated>)>,
) -> bool {
    forall|k: int|
        0 <= k < entries.len() ==> reads_word(tokens, #[trigger] at[k], entries[k].0)
            && tokens[at[k] + 1].kind == KindModel::Colon && reads_value(
            tokens,
            at[k] + 2,
            at[k + 1] - 1,
            entries[k].1.node,
            entries[k].1.span,
        )
}

proof fn lemma_items_closed(
    tokens: Seq<TokenModel>,
    at: Seq<int>,
    i: int,
    j: int,
    items: Seq<At<Stated>>,
)
    requires
        commaed(tokens, at, i, j, items.len()),
        items_at(tokens, at, items),
    ensures
        reads_items(tokens, i, j, items),
{
    assert(parted(tokens, at, i, j, items.len()));
}

proof fn lemma_items_open(
    tokens: Seq<TokenModel>,
    at: Seq<int>,
    i: int,
    m: int,
    j: int,
    items: Seq<At<Stated>>,
    item: At<Stated>,
)
    requires
        commaed(tokens, at, i, m, items.len()),
        items_at(tokens, at, items),
        reads_value(tokens, m, j, item.node, item.span),
    ensures
        reads_items(tokens, i, j, items.push(item)),
{
    let all = items.push(item);
    let further = at.push(j + 1);
    assert forall|k: int| 0 <= k < all.len() implies reads_value(
        tokens,
        #[trigger] further[k],
        further[k + 1] - 1,
        all[k].node,
        all[k].span,
    ) by {
        assert(further[k] == at[k]);
        if k < items.len() {
            assert(further[k + 1] == at[k + 1]);
            assert(all[k] == items[k]);
        }
    }
    assert forall|k: int| 0 < k < all.len() implies tokens[(#[trigger] further[k]) - 1].kind
        == KindModel::Comma by {
        assert(further[k] == at[k]);
    }
    assert(parted(tokens, further, i, j, all.len()));
}

proof fn lemma_items_more(
    tokens: Seq<TokenModel>,
    at: Seq<int>,
    i: int,
    m: int,
    j: int,
    items: Seq<At<Stated>>,
    item: At<Stated>,
)
    requires
        commaed(tokens, at, i, m, items.len()),
        items_at(tokens, at, items),
        reads_value(tokens, m, j, item.node, item.span),
        tokens[j].kind == KindModel::Comma,
    ensures
        commaed(tokens, at.push(j + 1), i, j + 1, items.len() + 1),
        items_at(tokens, at.push(j + 1), items.push(item)),
{
    let all = items.push(item);
    let further = at.push(j + 1);
    assert forall|k: int| 0 <= k < all.len() implies reads_value(
        tokens,
        #[trigger] further[k],
        further[k + 1] - 1,
        all[k].node,
        all[k].span,
    ) by {
        assert(further[k] == at[k]);
        if k < items.len() {
            assert(further[k + 1] == at[k + 1]);
            assert(all[k] == items[k]);
        }
    }
    assert forall|k: int| 0 < k <= all.len() implies tokens[(#[trigger] further[k]) - 1].kind
        == KindModel::Comma by {
        if k < all.len() {
            assert(further[k] == at[k]);
        }
    }
}

proof fn lemma_items(
    p: Parsing,
    tokens: Seq<TokenModel>,
    i: int,
    so_far: Seq<At<Stated>>,
    at: Seq<int>,
)
    requires
        stands(p, tokens),
        commaed(tokens, at, i, p.pos, so_far.len()),
        items_at(tokens, at, so_far),
    ensures
        ({
            let (q, items) = p.items(tokens, so_far);
            &&& onward(p, q, tokens)
            &&& q.errors.len() == p.errors.len() ==> reads_items(tokens, i, q.pos, items)
        }),
    decreases p.left(tokens), 1nat,
{
    if !p.goes_on(tokens) || p.at(tokens, KindModel::RBracket) {
        lemma_items_closed(tokens, at, i, p.pos, so_far);
    } else {
        lemma_value(p, tokens);
        let (then, value) = p.value(tokens);
        if let Some(item) = value {
            let on = then.next(tokens);
            if then.errors.len() == p.errors.len() {
                lemma_items_open(tokens, at, i, p.pos, then.pos, so_far, item);
                if then.at(tokens, KindModel::Comma) {
                    lemma_items_more(tokens, at, i, p.pos, then.pos, so_far, item);
                    lemma_items(on, tokens, i, so_far.push(item), at.push(on.pos));
                }
            } else if then.at(tokens, KindModel::Comma) {
                lemma_items_onward(on, tokens, so_far.push(item));
            }
        }
    }
}

proof fn lemma_items_onward(p: Parsing, tokens: Seq<TokenModel>, so_far: Seq<At<Stated>>)
    requires
        stands(p, tokens),
    ensures
        onward(p, p.items(tokens, so_far).0, tokens),
    decreases p.left(tokens), 1nat,
{
    if !p.goes_on(tokens) || p.at(tokens, KindModel::RBracket) {
    } else {
        lemma_value(p, tokens);
        let (then, value) = p.value(tokens);
        if let Some(item) = value {
            if then.at(tokens, KindModel::Comma) {
                lemma_items_onward(then.next(tokens), tokens, so_far.push(item));
            }
        }
    }
}

proof fn lemma_entries_closed(
    tokens: Seq<TokenModel>,
    at: Seq<int>,
    i: int,
    j: int,
    entries: Seq<(At<Seq<char>>, At<Stated>)>,
)
    requires
        commaed(tokens, at, i, j, entries.len()),
        entries_at(tokens, at, entries),
    ensures
        reads_entries(tokens, i, j, entries),
{
    assert(parted(tokens, at, i, j, entries.len()));
}

proof fn lemma_entries_open(
    tokens: Seq<TokenModel>,
    at: Seq<int>,
    i: int,
    m: int,
    j: int,
    entries: Seq<(At<Seq<char>>, At<Stated>)>,
    entry: (At<Seq<char>>, At<Stated>),
)
    requires
        commaed(tokens, at, i, m, entries.len()),
        entries_at(tokens, at, entries),
        reads_word(tokens, m, entry.0),
        tokens[m + 1].kind == KindModel::Colon,
        reads_value(tokens, m + 2, j, entry.1.node, entry.1.span),
    ensures
        reads_entries(tokens, i, j, entries.push(entry)),
{
    let all = entries.push(entry);
    let further = at.push(j + 1);
    assert forall|k: int| 0 <= k < all.len() implies reads_word(
        tokens,
        #[trigger] further[k],
        all[k].0,
    ) && tokens[further[k] + 1].kind == KindModel::Colon && reads_value(
        tokens,
        further[k] + 2,
        further[k + 1] - 1,
        all[k].1.node,
        all[k].1.span,
    ) by {
        assert(further[k] == at[k]);
        if k < entries.len() {
            assert(further[k + 1] == at[k + 1]);
            assert(all[k] == entries[k]);
        }
    }
    assert forall|k: int| 0 < k < all.len() implies tokens[(#[trigger] further[k]) - 1].kind
        == KindModel::Comma by {
        assert(further[k] == at[k]);
    }
    assert(parted(tokens, further, i, j, all.len()));
}

proof fn lemma_entries_more(
    tokens: Seq<TokenModel>,
    at: Seq<int>,
    i: int,
    m: int,
    j: int,
    entries: Seq<(At<Seq<char>>, At<Stated>)>,
    entry: (At<Seq<char>>, At<Stated>),
)
    requires
        commaed(tokens, at, i, m, entries.len()),
        entries_at(tokens, at, entries),
        reads_word(tokens, m, entry.0),
        tokens[m + 1].kind == KindModel::Colon,
        reads_value(tokens, m + 2, j, entry.1.node, entry.1.span),
        tokens[j].kind == KindModel::Comma,
    ensures
        commaed(tokens, at.push(j + 1), i, j + 1, entries.len() + 1),
        entries_at(tokens, at.push(j + 1), entries.push(entry)),
{
    let all = entries.push(entry);
    let further = at.push(j + 1);
    assert forall|k: int| 0 <= k < all.len() implies reads_word(
        tokens,
        #[trigger] further[k],
        all[k].0,
    ) && tokens[further[k] + 1].kind == KindModel::Colon && reads_value(
        tokens,
        further[k] + 2,
        further[k + 1] - 1,
        all[k].1.node,
        all[k].1.span,
    ) by {
        assert(further[k] == at[k]);
        if k < entries.len() {
            assert(further[k + 1] == at[k + 1]);
            assert(all[k] == entries[k]);
        }
    }
    assert forall|k: int| 0 < k <= all.len() implies tokens[(#[trigger] further[k]) - 1].kind
        == KindModel::Comma by {
        if k < all.len() {
            assert(further[k] == at[k]);
        }
    }
}

proof fn lemma_entries(
    p: Parsing,
    tokens: Seq<TokenModel>,
    i: int,
    so_far: Seq<(At<Seq<char>>, At<Stated>)>,
    at: Seq<int>,
)
    requires
        stands(p, tokens),
        commaed(tokens, at, i, p.pos, so_far.len()),
        entries_at(tokens, at, so_far),
    ensures
        ({
            let (q, entries) = p.entries(tokens, so_far);
            &&& onward(p, q, tokens)
            &&& q.errors.len() == p.errors.len() ==> reads_entries(tokens, i, q.pos, entries)
        }),
    decreases p.left(tokens), 1nat,
{
    lemma_entries_onward(p, tokens, so_far);
    if !p.goes_on(tokens) || p.at(tokens, KindModel::RBrace) {
        lemma_entries_closed(tokens, at, i, p.pos, so_far);
    } else if p.entries(tokens, so_far).0.errors.len() == p.errors.len() {
        let (then, key) = p.ident(tokens, "an attribute name"@);
        if let Some(key) = key {
            let colon = then.expect(tokens, KindModel::Colon, "`:`"@);
            lemma_value(colon, tokens);
            let (end, value) = colon.value(tokens);
            if let Some(value) = value {
                let on = end.next(tokens);
                if end.at(tokens, KindModel::Comma) {
                    lemma_entries_onward(on, tokens, so_far.push((key, value)));
                    lemma_entries_more(tokens, at, i, p.pos, end.pos, so_far, (key, value));
                    lemma_entries(on, tokens, i, so_far.push((key, value)), at.push(on.pos));
                } else {
                    lemma_entries_open(tokens, at, i, p.pos, end.pos, so_far, (key, value));
                }
            } else {
                lemma_recover(end, tokens, KindModel::Comma);
                lemma_entries_onward(end.resync(tokens, KindModel::Comma), tokens, so_far);
            }
        } else {
            lemma_recover(then, tokens, KindModel::Comma);
            lemma_entries_onward(then.resync(tokens, KindModel::Comma), tokens, so_far);
        }
    }
}

proof fn lemma_entries_onward(
    p: Parsing,
    tokens: Seq<TokenModel>,
    so_far: Seq<(At<Seq<char>>, At<Stated>)>,
)
    requires
        stands(p, tokens),
    ensures
        onward(p, p.entries(tokens, so_far).0, tokens),
    decreases p.left(tokens), 0nat,
{
    if !p.goes_on(tokens) || p.at(tokens, KindModel::RBrace) {
    } else {
        let (then, key) = p.ident(tokens, "an attribute name"@);
        lemma_recover(then, tokens, KindModel::Comma);
        let past = then.resync(tokens, KindModel::Comma);
        if let Some(key) = key {
            let colon = then.expect(tokens, KindModel::Colon, "`:`"@);
            lemma_value(colon, tokens);
            let (end, value) = colon.value(tokens);
            lemma_recover(end, tokens, KindModel::Comma);
            let past = end.resync(tokens, KindModel::Comma);
            if let Some(value) = value {
                let on = end.next(tokens);
                if end.at(tokens, KindModel::Comma) && on.left(tokens) < p.left(tokens) {
                    lemma_entries_onward(on, tokens, so_far.push((key, value)));
                }
            } else if past.left(tokens) < p.left(tokens) {
                lemma_entries_onward(past, tokens, so_far);
            }
        } else if past.left(tokens) < p.left(tokens) {
            lemma_entries_onward(past, tokens, so_far);
        }
    }
}

/// Whether that word stands at `i`.
pub open spec fn word_at(tokens: Seq<TokenModel>, i: int, word: Seq<char>) -> bool {
    tokens[i].kind == KindModel::Ident(word)
}

/// Past a semicolon at `i`, where there is one.
pub open spec fn past_semi(tokens: Seq<TokenModel>, i: int) -> int {
    if tokens[i].kind == KindModel::Semi {
        i + 1
    } else {
        i
    }
}

/// Whether `all` is `before` and one more.
pub open spec fn one_more<T>(before: Seq<T>, all: Seq<T>) -> bool {
    all.len() > 0 && all.drop_last() == before
}

/// Whether the tokens from `i` up to `j` are that map.
pub open spec fn reads_map(tokens: Seq<TokenModel>, i: int, j: int, map: At<Stated>) -> bool {
    map.node is Mapping && reads_value(tokens, i, j, map.node, map.span)
}

/// Whether the tokens from `i` up to `j` are one argument more, or one `body`
/// more, of an action.
pub open spec fn action_part(
    tokens: Seq<TokenModel>,
    i: int,
    j: int,
    a: OpCallModel,
    b: OpCallModel,
) -> bool {
    &&& a.head == b.head
    &&& if word_at(tokens, i, "body"@) {
        &&& a.args == b.args
        &&& one_more(a.clauses, b.clauses)
        &&& b.clauses.last().span == across(tokens[i].span, tokens[j - 1].span)
        &&& b.clauses.last().node matches ClauseModel::Body(map) && reads_map(
            tokens,
            i + 1,
            j,
            map,
        )
    } else {
        &&& a.clauses == b.clauses
        &&& one_more(a.args, b.args)
        &&& reads_value(tokens, i, j, b.args.last().node, b.args.last().span)
    }
}

/// One part of an action after another.
pub open spec fn action_parts(tokens: Seq<TokenModel>) -> spec_fn(
    int,
    int,
    OpCallModel,
    OpCallModel,
) -> bool {
    |i: int, j: int, a: OpCallModel, b: OpCallModel| action_part(tokens, i, j, a, b)
}

/// Whether the tokens from `i` up to `j` are that action: a driver, an operation,
/// and what it is given.
pub open spec fn reads_action(
    tokens: Seq<TokenModel>,
    i: int,
    j: int,
    call: At<OpCallModel>,
) -> bool {
    let head = call.node.head;
    &&& head.len() == 2
    &&& reads_word(tokens, i, head[0])
    &&& reads_word(tokens, i + 1, head[1])
    &&& leads(
        action_parts(tokens),
        i + 2,
        j,
        (OpCallModel { head, args: Seq::empty(), clauses: Seq::empty() }),
        call.node,
    )
    &&& call.span == across(tokens[i].span, tokens[j - 1].span)
}

/// Whether the tokens from `i` up to `j` are that step, whose action ends at `m`.
pub open spec fn reads_step_with(
    tokens: Seq<TokenModel>,
    i: int,
    m: int,
    j: int,
    step: At<StepModel>,
) -> bool {
    &&& word_at(tokens, i, "do"@)
    &&& tokens[i + 1].kind == KindModel::LBrace
    &&& reads_action(tokens, i + 2, m, step.node.action)
    &&& tokens[m].kind == KindModel::RBrace
    &&& j == past_semi(tokens, m + 1)
    &&& step.node.expect is None
    &&& step.span == across(tokens[i].span, tokens[m].span)
}

/// Whether the tokens from `i` up to `j` are that step.
pub open spec fn reads_step(
    tokens: Seq<TokenModel>,
    i: int,
    j: int,
    step: At<StepModel>,
) -> bool {
    exists|m: int| #[trigger] reads_step_with(tokens, i, m, j, step)
}

/// Whether the tokens from `i` up to `j` are that path, and it goes no further.
pub open spec fn reads_path(
    tokens: Seq<TokenModel>,
    i: int,
    j: int,
    path: Seq<At<Seq<char>>>,
) -> bool {
    &&& dotted(tokens, i, j, path)
    &&& tokens[j].kind != KindModel::Dot
}

/// Whether the tokens from `i` up to `j` are those words, with dots between.
pub open spec fn dotted(
    tokens: Seq<TokenModel>,
    i: int,
    j: int,
    path: Seq<At<Seq<char>>>,
) -> bool {
    &&& path.len() > 0
    &&& j == i + 2 * path.len() - 1
    &&& forall|k: int|
        0 <= k < path.len() ==> reads_word(tokens, i + 2 * k, #[trigger] path[k]) && (k > 0
            ==> tokens[i + 2 * k - 1].kind == KindModel::Dot)
}

/// Whether the tokens from `i` up to `j` are one argument more of an observable.
pub open spec fn argument(
    tokens: Seq<TokenModel>,
    i: int,
    j: int,
    a: Seq<At<Stated>>,
    b: Seq<At<Stated>>,
) -> bool {
    &&& !word_at(tokens, i, "where"@)
    &&& one_more(a, b)
    &&& reads_value(tokens, i, j, b.last().node, b.last().span)
}

/// One argument after another.
pub open spec fn arguments(tokens: Seq<TokenModel>) -> spec_fn(
    int,
    int,
    Seq<At<Stated>>,
    Seq<At<Stated>>,
) -> bool {
    |i: int, j: int, a: Seq<At<Stated>>, b: Seq<At<Stated>>| argument(tokens, i, j, a, b)
}

/// Whether the tokens from `i` up to `j` are `where`, a column, and its value.
pub open spec fn reads_filter(
    tokens: Seq<TokenModel>,
    i: int,
    j: int,
    clause: At<ClauseModel>,
) -> bool {
    &&& word_at(tokens, i, "where"@)
    &&& clause.span == across(tokens[i].span, tokens[j - 1].span)
    &&& clause.node matches ClauseModel::Where(filter) && {
        &&& reads_word(tokens, i + 1, filter.column)
        &&& tokens[i + 2].kind == KindModel::Eq
        &&& reads_value(tokens, i + 3, j, filter.value.node, filter.value.span)
    }
}

/// Whether the tokens from `i` up to `j` are that observable, whose path ends at
/// `h` and its arguments at `m`.
pub open spec fn reads_observable_with(
    tokens: Seq<TokenModel>,
    i: int,
    h: int,
    m: int,
    j: int,
    call: At<OpCallModel>,
) -> bool {
    &&& reads_path(tokens, i, h, call.node.head)
    &&& leads(arguments(tokens), h, m, Seq::empty(), call.node.args)
    &&& if word_at(tokens, m, "where"@) {
        call.node.clauses.len() == 1 && reads_filter(tokens, m, j, call.node.clauses[0])
    } else {
        call.node.clauses.len() == 0 && m == j
    }
    &&& call.span == across(tokens[i].span, tokens[j - 1].span)
}

/// Whether the tokens from `i` up to `j` are that observable.
pub open spec fn reads_observable(
    tokens: Seq<TokenModel>,
    i: int,
    j: int,
    call: At<OpCallModel>,
) -> bool {
    exists|h: int, m: int| #[trigger] reads_observable_with(tokens, i, h, m, j, call)
}

/// Whether a token is that comparison.
pub open spec fn is_comparison(kind: KindModel, op: CmpOp) -> bool {
    match kind {
        KindModel::EqEq => op == CmpOp::Eq,
        KindModel::Ne => op == CmpOp::Ne,
        KindModel::Lt => op == CmpOp::Lt,
        KindModel::Le => op == CmpOp::Le,
        KindModel::Gt => op == CmpOp::Gt,
        KindModel::Ge => op == CmpOp::Ge,
        _ => false,
    }
}

/// Whether the tokens from `i` up to `j` are that predicate, with its comparison
/// at `c`.
pub open spec fn reads_predicate_with(
    tokens: Seq<TokenModel>,
    i: int,
    c: int,
    j: int,
    predicate: At<PredicateModel>,
) -> bool {
    let PredicateModel { left, op, right } = predicate.node;
    &&& 0 <= i < c < tokens.len()
    &&& reads_observable(tokens, i, c, left)
    &&& is_comparison(tokens[c].kind, op.node)
    &&& tokens[c].span == op.span
    &&& reads_value(tokens, c + 1, j, right.node, right.span)
    &&& predicate.span == across(tokens[i].span, tokens[j - 1].span)
}

/// Whether the tokens from `i` up to `j` are that predicate.
pub open spec fn reads_predicate(
    tokens: Seq<TokenModel>,
    i: int,
    j: int,
    predicate: At<PredicateModel>,
) -> bool {
    exists|c: int| #[trigger] reads_predicate_with(tokens, i, c, j, predicate)
}

/// Whether the tokens from `i` up to `j` are one predicate more.
pub open spec fn expectation(
    tokens: Seq<TokenModel>,
    i: int,
    j: int,
    a: Seq<At<PredicateModel>>,
    b: Seq<At<PredicateModel>>,
) -> bool {
    &&& one_more(a, b)
    &&& exists|m: int| #[trigger]
        reads_predicate(tokens, i, m, b.last()) && j == past_semi(tokens, m)
}

/// One predicate after another.
pub open spec fn expectations(tokens: Seq<TokenModel>) -> spec_fn(
    int,
    int,
    Seq<At<PredicateModel>>,
    Seq<At<PredicateModel>>,
) -> bool {
    |i: int, j: int, a: Seq<At<PredicateModel>>, b: Seq<At<PredicateModel>>|
        expectation(tokens, i, j, a, b)
}

/// Whether the tokens from `i` up to `j` are an `expect` of those predicates, which
/// is closed at `m`.
pub open spec fn reads_expect(
    tokens: Seq<TokenModel>,
    i: int,
    m: int,
    j: int,
    predicates: Seq<At<PredicateModel>>,
) -> bool {
    &&& word_at(tokens, i, "expect"@)
    &&& tokens[i + 1].kind == KindModel::LBrace
    &&& leads(expectations(tokens), i + 2, m, Seq::empty(), predicates)
    &&& tokens[m].kind == KindModel::RBrace
    &&& j == past_semi(tokens, m + 1)
}

/// Whether the tokens from `i` up to `j` are one statement more of a scenario.
pub open spec fn statement(tokens: Seq<TokenModel>, i: int, j: int, a: Body, b: Body) -> bool {
    if word_at(tokens, i, "consistent_within"@) {
        &&& tokens[i + 1].kind == KindModel::Colon
        &&& tokens[i + 2].kind matches KindModel::Duration(d) && b == (Body {
            consistent_within: Some(At { node: d, span: tokens[i + 2].span }),
            ..a
        })
        &&& j == past_semi(tokens, i + 3)
    } else if word_at(tokens, i, "do"@) {
        &&& one_more(a.steps, b.steps)
        &&& reads_step(tokens, i, j, b.steps.last())
        &&& a.expect == b.expect
        &&& a.consistent_within == b.consistent_within
    } else {
        &&& exists|m: int, predicates: Seq<At<PredicateModel>>| #[trigger]
            reads_expect(tokens, i, m, j, predicates) && b.expect == a.expect + predicates
        &&& a.steps == b.steps
        &&& a.consistent_within == b.consistent_within
    }
}

/// One statement after another.
pub open spec fn statements(tokens: Seq<TokenModel>) -> spec_fn(int, int, Body, Body) -> bool {
    |i: int, j: int, a: Body, b: Body| statement(tokens, i, j, a, b)
}

/// Whether the tokens from `i` up to `j` are that scenario.
pub open spec fn reads_scenario(
    tokens: Seq<TokenModel>,
    i: int,
    j: int,
    scenario: At<ScenarioModel>,
) -> bool {
    let said = scenario.node;
    &&& word_at(tokens, i, "scenario"@)
    &&& tokens[i + 1].kind == KindModel::Str(said.name.node)
    &&& tokens[i + 1].span == said.name.span
    &&& tokens[i + 2].kind == KindModel::LBrace
    &&& leads(
        statements(tokens),
        i + 3,
        j - 1,
        Body::empty(),
        (Body {
            consistent_within: Some(said.consistent_within),
            steps: said.steps,
            expect: said.expect,
        }),
    )
    &&& tokens[j - 1].kind == KindModel::RBrace
    &&& said.budget is None
    &&& scenario.span == across(tokens[i].span, tokens[j - 1].span)
}

/// One scenario after another.
pub open spec fn scenarios(tokens: Seq<TokenModel>) -> spec_fn(
    int,
    int,
    Seq<At<ScenarioModel>>,
    Seq<At<ScenarioModel>>,
) -> bool {
    |i: int, j: int, a: Seq<At<ScenarioModel>>, b: Seq<At<ScenarioModel>>|
        one_more(a, b) && reads_scenario(tokens, i, j, b.last())
}

/// What the statements of a fleet come to: the plugin that brings it up, and its
/// services.
pub type Declared = (Option<At<Seq<char>>>, Seq<At<ServiceModel>>);

/// Whether the tokens from `i` up to `j` are that service, whose attributes end at
/// `m`.
pub open spec fn reads_service(
    tokens: Seq<TokenModel>,
    i: int,
    m: int,
    j: int,
    service: At<ServiceModel>,
) -> bool {
    &&& word_at(tokens, i, "service"@)
    &&& reads_word(tokens, i + 1, service.node.name)
    &&& reads_map(tokens, i + 2, m, service.node.attrs)
    &&& j == past_semi(tokens, m)
    &&& service.span == across(tokens[i].span, tokens[m - 1].span)
}

/// Whether the tokens from `i` up to `j` are that service.
pub open spec fn reads_a_service(
    tokens: Seq<TokenModel>,
    i: int,
    j: int,
    service: At<ServiceModel>,
) -> bool {
    exists|m: int| #[trigger] reads_service(tokens, i, m, j, service)
}

/// Whether the tokens from `i` up to `j` are one statement more of a fleet.
pub open spec fn declaration(
    tokens: Seq<TokenModel>,
    i: int,
    j: int,
    a: Declared,
    b: Declared,
) -> bool {
    if word_at(tokens, i, "deployment"@) {
        &&& tokens[i + 1].kind == KindModel::Colon
        &&& b.0 matches Some(plugin) && reads_word(tokens, i + 2, plugin)
        &&& j == past_semi(tokens, i + 3)
        &&& a.1 == b.1
    } else {
        &&& one_more(a.1, b.1)
        &&& reads_a_service(tokens, i, j, b.1.last())
        &&& a.0 == b.0
    }
}

/// One statement of a fleet after another.
pub open spec fn declarations(tokens: Seq<TokenModel>) -> spec_fn(
    int,
    int,
    Declared,
    Declared,
) -> bool {
    |i: int, j: int, a: Declared, b: Declared| declaration(tokens, i, j, a, b)
}

/// Whether the tokens up to `j` are that fleet.
pub open spec fn reads_fleet(tokens: Seq<TokenModel>, j: int, fleet: At<FleetModel>) -> bool {
    let said = fleet.node;
    &&& word_at(tokens, 0, "fleet"@)
    &&& tokens[1].kind == KindModel::Str(said.name.node)
    &&& tokens[1].span == said.name.span
    &&& tokens[2].kind == KindModel::LBrace
    &&& leads(
        declarations(tokens),
        3,
        j - 1,
        (None, Seq::empty()),
        (Some(said.deployment), said.services),
    )
    &&& tokens[j - 1].kind == KindModel::RBrace
    &&& fleet.span == across(tokens[0].span, tokens[j - 1].span)
}

/// Whether the tokens are that file: a fleet up to `m`, and then scenarios up to
/// the end, which is at `j`.
pub open spec fn reads_file(tokens: Seq<TokenModel>, m: int, j: int, file: FileModel) -> bool {
    &&& reads_fleet(tokens, m, file.fleet)
    &&& leads(scenarios(tokens), m, j, Seq::empty(), file.scenarios)
    &&& tokens[j].kind == KindModel::Eof
    &&& file.scenarios.len() > 0
}

proof fn lemma_map(p: Parsing, tokens: Seq<TokenModel>)
    requires
        stands(p, tokens),
    ensures
        ({
            let (q, map) = p.map(tokens);
            &&& onward(p, q, tokens)
            &&& q.errors.len() == p.errors.len() ==> reads_map(tokens, p.pos, q.pos, map)
        }),
{
    let on = p.expect(tokens, KindModel::LBrace, "`{`"@);
    let none = Seq::<(At<Seq<char>>, At<Stated>)>::empty();
    assert(commaed(tokens, seq![on.pos], on.pos, on.pos, 0));
    lemma_entries(on, tokens, on.pos, none, seq![on.pos]);
}

proof fn lemma_arguments(
    p: Parsing,
    tokens: Seq<TokenModel>,
    i: int,
    start: OpCallModel,
    call: OpCallModel,
    end: usize,
    clean: bool,
)
    requires
        stands(p, tokens),
        clean ==> leads(action_parts(tokens), i, p.pos, start, call) && end == tokens[p.pos
            - 1].span.end,
    ensures
        ({
            let (q, all, last) = p.arguments(tokens, call, end);
            &&& onward(p, q, tokens)
            &&& clean && q.errors.len() == p.errors.len() ==> leads(
                action_parts(tokens),
                i,
                q.pos,
                start,
                all,
            ) && last == tokens[q.pos - 1].span.end
        }),
    decreases p.left(tokens),
{
    if p.at_word(tokens, "body"@) {
        let inner = p.eat_word(tokens, "body"@);
        lemma_map(inner, tokens);
        let (then, clause) = p.body_clause(tokens);
        let more = OpCallModel { clauses: call.clauses.push(clause), ..call };
        let still = clean && then.errors.len() == p.errors.len();
        if still {
            assert(more.clauses.drop_last() =~= call.clauses);
            assert(action_part(tokens, p.pos, then.pos, call, more));
            lemma_goes_on(action_parts(tokens), i, p.pos, then.pos, start, call, more);
        }
        lemma_arguments(then, tokens, i, start, more, clause.span.end, still);
    } else if p.value_starts(tokens) {
        lemma_value(p, tokens);
        let (then, value) = p.value(tokens);
        if let Some(value) = value {
            let more = OpCallModel { args: call.args.push(value), ..call };
            let still = clean && then.errors.len() == p.errors.len();
            if still {
                assert(more.args.drop_last() =~= call.args);
                assert(action_part(tokens, p.pos, then.pos, call, more));
                lemma_goes_on(action_parts(tokens), i, p.pos, then.pos, start, call, more);
            }
            lemma_arguments(then, tokens, i, start, more, value.span.end, still);
        }
    }
}

proof fn lemma_action(p: Parsing, tokens: Seq<TokenModel>)
    requires
        stands(p, tokens),
    ensures
        ({
            let (q, call) = p.op_call(tokens);
            &&& onward(p, q, tokens)
            &&& call is None ==> q.errors.len() > p.errors.len()
            &&& q.errors.len() == p.errors.len() ==> reads_action(tokens, p.pos, q.pos, call->0)
        }),
{
    if let (then, Some(driver)) = p.ident(tokens, "a driver name"@) {
        if let (then, Some(op)) = then.ident(tokens, "an operation"@) {
            let call = OpCallModel {
                head: seq![driver, op],
                args: Seq::empty(),
                clauses: Seq::empty(),
            };
            lemma_stays(action_parts(tokens), then.pos, call);
            lemma_arguments(then, tokens, then.pos, call, call, op.span.end, true);
            let (q, all, last) = then.arguments(tokens, call, op.span.end);
            if q.errors.len() == p.errors.len() {
                lemma_kept_all_the_way(
                    action_parts(tokens),
                    then.pos,
                    q.pos,
                    call,
                    all,
                    |c: OpCallModel| c.head == call.head,
                );
            }
        }
    }
}

proof fn lemma_step(p: Parsing, tokens: Seq<TokenModel>)
    requires
        stands(p, tokens),
        p.at_word(tokens, "do"@),
    ensures
        ({
            let (q, step) = p.do_step(tokens);
            &&& onward(p, q, tokens)
            &&& step is None ==> q.errors.len() > p.errors.len()
            &&& q.errors.len() == p.errors.len() ==> reads_step(tokens, p.pos, q.pos, step->0)
        }),
{
    let open = p.eat_word(tokens, "do"@).expect(tokens, KindModel::LBrace, "`{`"@);
    lemma_action(open, tokens);
    let (then, action) = open.op_call(tokens);
    let (q, step) = p.do_step(tokens);
    if q.errors.len() == p.errors.len() {
        assert(reads_step_with(tokens, p.pos, then.pos, q.pos, step->0));
    }
}

proof fn lemma_dotted(
    tokens: Seq<TokenModel>,
    i: int,
    j: int,
    path: Seq<At<Seq<char>>>,
    segment: At<Seq<char>>,
)
    requires
        dotted(tokens, i, j, path),
        tokens[j].kind == KindModel::Dot,
        reads_word(tokens, j + 1, segment),
    ensures
        dotted(tokens, i, j + 2, path.push(segment)),
{
    let more = path.push(segment);
    assert forall|k: int| 0 <= k < more.len() implies reads_word(
        tokens,
        i + 2 * k,
        #[trigger] more[k],
    ) && (k > 0 ==> tokens[i + 2 * k - 1].kind == KindModel::Dot) by {
        if k < path.len() {
            assert(more[k] == path[k]);
        } else {
            assert(i + 2 * k == j + 1);
        }
    }
}

proof fn lemma_path(
    p: Parsing,
    tokens: Seq<TokenModel>,
    i: int,
    head: Seq<At<Seq<char>>>,
    clean: bool,
)
    requires
        stands(p, tokens),
        clean ==> dotted(tokens, i, p.pos, head),
    ensures
        ({
            let (q, path) = p.path(tokens, head);
            &&& onward(p, q, tokens)
            &&& path is None ==> q.errors.len() > p.errors.len()
            &&& clean && q.errors.len() == p.errors.len() ==> reads_path(tokens, i, q.pos, path->0)
        }),
    decreases p.left(tokens),
{
    if p.at(tokens, KindModel::Dot) {
        let (then, segment) = p.next(tokens).ident(tokens, "an observable path segment"@);
        if let Some(segment) = segment {
            let more = head.push(segment);
            if clean {
                lemma_dotted(tokens, i, p.pos, head, segment);
            }
            lemma_path(then, tokens, i, more, clean);
        }
    }
}

proof fn lemma_values(
    p: Parsing,
    tokens: Seq<TokenModel>,
    i: int,
    so_far: Seq<At<Stated>>,
    clean: bool,
)
    requires
        stands(p, tokens),
        clean ==> leads(arguments(tokens), i, p.pos, Seq::empty(), so_far),
        clean && so_far.len() > 0 ==> so_far.last().span.end == tokens[p.pos - 1].span.end,
        clean && so_far.len() == 0 ==> i == p.pos,
    ensures
        ({
            let (q, values) = p.values(tokens, so_far);
            &&& onward(p, q, tokens)
            &&& clean && q.errors.len() == p.errors.len() ==> {
                &&& leads(arguments(tokens), i, q.pos, Seq::empty(), values)
                &&& values.len() > 0 ==> values.last().span.end == tokens[q.pos - 1].span.end
                &&& values.len() == 0 ==> i == q.pos
            }
        }),
    decreases p.left(tokens),
{
    if !p.at_word(tokens, "where"@) && p.value_starts(tokens) {
        lemma_value(p, tokens);
        let (then, value) = p.value(tokens);
        if let Some(value) = value {
            let more = so_far.push(value);
            let still = clean && then.errors.len() == p.errors.len();
            if still {
                assert(more.drop_last() =~= so_far);
                assert(argument(tokens, p.pos, then.pos, so_far, more));
                lemma_goes_on(
                    arguments(tokens),
                    i,
                    p.pos,
                    then.pos,
                    Seq::empty(),
                    so_far,
                    more,
                );
            }
            lemma_values(then, tokens, i, more, still);
        }
    }
}

proof fn lemma_filter(p: Parsing, tokens: Seq<TokenModel>)
    requires
        stands(p, tokens),
        p.at_word(tokens, "where"@),
    ensures
        ({
            let (q, clause) = p.where_clause(tokens);
            &&& onward(p, q, tokens)
            &&& clause is None ==> q.errors.len() > p.errors.len()
            &&& q.errors.len() == p.errors.len() ==> reads_filter(tokens, p.pos, q.pos, clause->0)
        }),
{
    if let (then, Some(column)) = p.eat_word(tokens, "where"@).ident(tokens, "a column name"@) {
        lemma_value(then.expect(tokens, KindModel::Eq, "`=`"@), tokens);
    }
}

proof fn lemma_observable(p: Parsing, tokens: Seq<TokenModel>)
    requires
        stands(p, tokens),
    ensures
        ({
            let (q, call) = p.observable(tokens);
            &&& onward(p, q, tokens)
            &&& call is None ==> q.errors.len() > p.errors.len()
            &&& call is Some ==> q.pos > p.pos
            &&& q.errors.len() == p.errors.len() ==> reads_observable(
                tokens,
                p.pos,
                q.pos,
                call->0,
            )
        }),
{
    if let (then, Some(first)) = p.ident(tokens, "an observable"@) {
        let one = seq![first];
        assert(dotted(tokens, p.pos, then.pos, one)) by {
            assert(one[0] == first);
        }
        lemma_path(then, tokens, p.pos, one, true);
        if let (past, Some(head)) = then.path(tokens, one) {
            let none = Seq::<At<Stated>>::empty();
            lemma_stays(arguments(tokens), past.pos, none);
            lemma_values(past, tokens, past.pos, none, true);
            let (end, args) = past.values(tokens, none);
            if end.at_word(tokens, "where"@) {
                lemma_filter(end, tokens);
            }
            let (q, call) = p.observable(tokens);
            if q.errors.len() == p.errors.len() {
                let call = call->0;
                assert(reads_path(tokens, p.pos, past.pos, head));
                assert(reads_word(
                    tokens,
                    p.pos + 2 * (head.len() - 1),
                    head[head.len() - 1],
                ));
                assert(call.node.head == head);
                assert(tokens[p.pos].span == first.span);
                assert(reads_observable_with(tokens, p.pos, past.pos, end.pos, q.pos, call));
            }
        }
    }
}

proof fn lemma_predicate(p: Parsing, tokens: Seq<TokenModel>)
    requires
        stands(p, tokens),
    ensures
        ({
            let (q, predicate) = p.predicate(tokens);
            &&& onward(p, q, tokens)
            &&& predicate is None ==> q.errors.len() > p.errors.len()
            &&& q.errors.len() == p.errors.len() ==> reads_predicate(
                tokens,
                p.pos,
                q.pos,
                predicate->0,
            )
        }),
{
    lemma_observable(p, tokens);
    if let (then, Some(left)) = p.observable(tokens) {
        if let (on, Some(op)) = then.cmp_op(tokens) {
            lemma_value(on, tokens);
            let (q, predicate) = p.predicate(tokens);
            if q.errors.len() == p.errors.len() {
                assert(reads_predicate_with(tokens, p.pos, then.pos, q.pos, predicate->0));
            }
        }
    }
}

proof fn lemma_predicates(
    p: Parsing,
    tokens: Seq<TokenModel>,
    i: int,
    so_far: Seq<At<PredicateModel>>,
    clean: bool,
)
    requires
        stands(p, tokens),
        clean ==> leads(expectations(tokens), i, p.pos, Seq::empty(), so_far),
    ensures
        ({
            let (q, all) = p.predicates(tokens, so_far);
            &&& onward(p, q, tokens)
            &&& clean && q.errors.len() == p.errors.len() ==> leads(
                expectations(tokens),
                i,
                q.pos,
                Seq::empty(),
                all,
            )
        }),
    decreases p.left(tokens),
{
    if !p.goes_on(tokens) || p.at(tokens, KindModel::RBrace) {
    } else {
        lemma_predicate(p, tokens);
        let (then, predicate) = p.predicate(tokens);
        lemma_recover(then, tokens, KindModel::Semi);
        let past = then.resync(tokens, KindModel::Semi);
        if let Some(predicate) = predicate {
            let on = then.eat(tokens, KindModel::Semi);
            let more = so_far.push(predicate);
            let still = clean && then.errors.len() == p.errors.len();
            if still {
                assert(more.drop_last() =~= so_far);
                assert(reads_predicate(tokens, p.pos, then.pos, more.last()));
                assert(expectation(tokens, p.pos, on.pos, so_far, more));
                lemma_goes_on(
                    expectations(tokens),
                    i,
                    p.pos,
                    on.pos,
                    Seq::empty(),
                    so_far,
                    more,
                );
            }
            if on.left(tokens) < p.left(tokens) {
                lemma_predicates(on, tokens, i, more, still);
            }
        } else if past.left(tokens) < p.left(tokens) {
            lemma_predicates(past, tokens, i, so_far, false);
        }
    }
}

proof fn lemma_expect(p: Parsing, tokens: Seq<TokenModel>)
    requires
        stands(p, tokens),
        p.at_word(tokens, "expect"@),
    ensures
        ({
            let (q, predicates) = p.expect_block(tokens);
            &&& onward(p, q, tokens)
            &&& q.errors.len() == p.errors.len() ==> exists|m: int| #[trigger]
                reads_expect(tokens, p.pos, m, q.pos, predicates)
        }),
{
    let open = p.eat_word(tokens, "expect"@).expect(tokens, KindModel::LBrace, "`{`"@);
    let none = Seq::<At<PredicateModel>>::empty();
    lemma_stays(expectations(tokens), open.pos, none);
    lemma_predicates(open, tokens, open.pos, none, true);
    let (then, _) = open.predicates(tokens, none);
    let (q, predicates) = p.expect_block(tokens);
    if q.errors.len() == p.errors.len() {
        assert(reads_expect(tokens, p.pos, then.pos, q.pos, predicates));
    }
}

proof fn lemma_deadline(p: Parsing, tokens: Seq<TokenModel>)
    requires
        stands(p, tokens),
        p.at_word(tokens, "consistent_within"@),
    ensures
        ({
            let (q, deadline) = p.consistent_within(tokens);
            &&& onward(p, q, tokens)
            &&& deadline is None ==> q.errors.len() > p.errors.len()
            &&& q.errors.len() == p.errors.len() ==> {
                &&& tokens[p.pos + 1].kind == KindModel::Colon
                &&& tokens[p.pos + 2].kind == KindModel::Duration(deadline->0.node)
                &&& tokens[p.pos + 2].span == deadline->0.span
                &&& q.pos == past_semi(tokens, p.pos + 3)
            }
        }),
{
    let colon = p.eat_word(tokens, "consistent_within"@).expect(
        tokens,
        KindModel::Colon,
        "`:`"@,
    );
    lemma_value(colon, tokens);
}

proof fn lemma_statements(
    p: Parsing,
    tokens: Seq<TokenModel>,
    i: int,
    so_far: Body,
    clean: bool,
)
    requires
        stands(p, tokens),
        clean ==> leads(statements(tokens), i, p.pos, Body::empty(), so_far),
    ensures
        ({
            let (q, body) = p.scenario_body(tokens, so_far);
            &&& onward(p, q, tokens)
            &&& clean && q.errors.len() == p.errors.len() ==> leads(
                statements(tokens),
                i,
                q.pos,
                Body::empty(),
                body,
            )
        }),
    decreases p.left(tokens),
{
    if !p.goes_on(tokens) || p.at(tokens, KindModel::RBrace) {
    } else {
        let (on, more) = if p.at_word(tokens, "consistent_within"@) {
            lemma_deadline(p, tokens);
            match p.consistent_within(tokens) {
                (then, Some(deadline)) => (
                    then,
                    Body { consistent_within: Some(deadline), ..so_far },
                ),
                (then, None) => (then, so_far),
            }
        } else if p.at_word(tokens, "do"@) {
            lemma_step(p, tokens);
            match p.do_step(tokens) {
                (then, Some(step)) => {
                    let more = Body { steps: so_far.steps.push(step), ..so_far };
                    assert(more.steps.drop_last() =~= so_far.steps);
                    (then, more)
                },
                (then, None) => {
                    lemma_recover(then, tokens, KindModel::Semi);
                    (then.resync(tokens, KindModel::Semi), so_far)
                },
            }
        } else if p.at_word(tokens, "expect"@) {
            lemma_expect(p, tokens);
            let (then, predicates) = p.expect_block(tokens);
            (then, Body { expect: so_far.expect + predicates, ..so_far })
        } else {
            let said = p.fault_here(tokens, "expected `consistent_within`, `do`, or `expect`"@);
            lemma_recover(said, tokens, KindModel::Semi);
            (said.resync(tokens, KindModel::Semi), so_far)
        };
        let still = clean && on.errors.len() == p.errors.len();
        if still {
            assert(statement(tokens, p.pos, on.pos, so_far, more));
            lemma_goes_on(statements(tokens), i, p.pos, on.pos, Body::empty(), so_far, more);
        }
        if on.left(tokens) < p.left(tokens) {
            lemma_statements(on, tokens, i, more, still);
        }
    }
}

proof fn lemma_scenario(p: Parsing, tokens: Seq<TokenModel>)
    requires
        stands(p, tokens),
        p.at_word(tokens, "scenario"@),
    ensures
        ({
            let (q, scenario) = p.scenario(tokens);
            &&& onward(p, q, tokens)
            &&& scenario is None ==> q.errors.len() > p.errors.len()
            &&& q.errors.len() == p.errors.len() ==> reads_scenario(
                tokens,
                p.pos,
                q.pos,
                scenario->0,
            )
        }),
{
    if let (then, Some(name)) = p.eat_word(tokens, "scenario"@).text(tokens, "a scenario name"@) {
        let open = then.expect(tokens, KindModel::LBrace, "`{`"@);
        lemma_stays(statements(tokens), open.pos, Body::empty());
        lemma_statements(open, tokens, open.pos, Body::empty(), true);
        let (end, body) = open.scenario_body(tokens, Body::empty());
        let (q, scenario) = p.scenario(tokens);
        if q.errors.len() == p.errors.len() {
            let said = scenario->0.node;
            assert(body == (Body {
                consistent_within: Some(said.consistent_within),
                steps: said.steps,
                expect: said.expect,
            }));
        }
    }
}

proof fn lemma_service(p: Parsing, tokens: Seq<TokenModel>)
    requires
        stands(p, tokens),
        p.at_word(tokens, "service"@),
    ensures
        ({
            let (q, service) = p.service(tokens);
            &&& onward(p, q, tokens)
            &&& service is None ==> q.errors.len() > p.errors.len()
            &&& q.errors.len() == p.errors.len() ==> reads_a_service(
                tokens,
                p.pos,
                q.pos,
                service->0,
            )
        }),
{
    if let (then, Some(name)) = p.next(tokens).ident(tokens, "a service name"@) {
        lemma_map(then, tokens);
        let (end, attrs) = then.map(tokens);
        let (q, service) = p.service(tokens);
        if q.errors.len() == p.errors.len() {
            assert(reads_service(tokens, p.pos, end.pos, q.pos, service->0));
        }
    }
}

proof fn lemma_declarations(
    p: Parsing,
    tokens: Seq<TokenModel>,
    deployment: Option<At<Seq<char>>>,
    services: Seq<At<ServiceModel>>,
    clean: bool,
)
    requires
        stands(p, tokens),
        clean ==> leads(
            declarations(tokens),
            3,
            p.pos,
            (None, Seq::empty()),
            (deployment, services),
        ),
    ensures
        ({
            let (q, plugin, all) = p.fleet_body(tokens, deployment, services);
            &&& onward(p, q, tokens)
            &&& clean && q.errors.len() == p.errors.len() ==> leads(
                declarations(tokens),
                3,
                q.pos,
                (None, Seq::empty()),
                (plugin, all),
            )
        }),
    decreases p.left(tokens),
{
    if !p.goes_on(tokens) || p.at(tokens, KindModel::RBrace) {
    } else {
        let (on, plugin, more) = if p.at_word(tokens, "deployment"@) {
            match p.deployment(tokens) {
                (then, Some(plugin)) => (then, Some(plugin), services),
                (then, None) => (then, deployment, services),
            }
        } else if p.at_word(tokens, "service"@) {
            lemma_service(p, tokens);
            match p.service(tokens) {
                (then, Some(service)) => {
                    assert(services.push(service).drop_last() =~= services);
                    let more = services.push(service);
                    assert(more.last() == service);
                    (then, deployment, more)
                },
                (then, None) => {
                    lemma_recover(then, tokens, KindModel::Semi);
                    (then.resync(tokens, KindModel::Semi), deployment, services)
                },
            }
        } else {
            let said = p.fault_here(tokens, "expected `deployment` or `service`"@);
            lemma_recover(said, tokens, KindModel::Semi);
            (said.resync(tokens, KindModel::Semi), deployment, services)
        };
        let still = clean && on.errors.len() == p.errors.len();
        if still {
            assert(declaration(
                tokens,
                p.pos,
                on.pos,
                (deployment, services),
                (plugin, more),
            ));
            lemma_goes_on(
                declarations(tokens),
                3,
                p.pos,
                on.pos,
                (None, Seq::empty()),
                (deployment, services),
                (plugin, more),
            );
        }
        if on.left(tokens) < p.left(tokens) {
            lemma_declarations(on, tokens, plugin, more, still);
        }
    }
}

proof fn lemma_fleet(p: Parsing, tokens: Seq<TokenModel>)
    requires
        stands(p, tokens),
        p.pos == 0,
    ensures
        ({
            let (q, fleet) = p.fleet(tokens);
            &&& onward(p, q, tokens)
            &&& fleet is None ==> q.errors.len() > p.errors.len()
            &&& q.errors.len() == p.errors.len() ==> reads_fleet(tokens, q.pos, fleet->0)
        }),
{
    if p.at_word(tokens, "fleet"@) {
        if let (then, Some(name)) = p.next(tokens).text(tokens, "a fleet name"@) {
            let open = then.expect(tokens, KindModel::LBrace, "`{`"@);
            let none = Seq::<At<ServiceModel>>::empty();
            lemma_stays(declarations(tokens), open.pos, (None, none));
            lemma_declarations(open, tokens, None, none, open.errors.len() == p.errors.len());
        }
    }
}

proof fn lemma_scenarios(
    p: Parsing,
    tokens: Seq<TokenModel>,
    i: int,
    so_far: Seq<At<ScenarioModel>>,
    clean: bool,
)
    requires
        stands(p, tokens),
        clean ==> leads(scenarios(tokens), i, p.pos, Seq::empty(), so_far),
    ensures
        ({
            let (q, all) = p.scenarios(tokens, so_far);
            &&& onward(p, q, tokens)
            &&& clean && q.errors.len() == p.errors.len() ==> tokens[q.pos].kind == KindModel::Eof
                && leads(scenarios(tokens), i, q.pos, Seq::empty(), all)
        }),
    decreases p.left(tokens),
{
    if p.goes_on(tokens) && p.at_word(tokens, "scenario"@) {
        lemma_scenario(p, tokens);
        let (then, scenario) = p.scenario(tokens);
        if let Some(scenario) = scenario {
            let more = so_far.push(scenario);
            let still = clean && then.errors.len() == p.errors.len();
            if still {
                assert(more.drop_last() =~= so_far);
                assert(scenarios(tokens)(p.pos, then.pos, so_far, more));
                lemma_goes_on(
                    scenarios(tokens),
                    i,
                    p.pos,
                    then.pos,
                    Seq::empty(),
                    so_far,
                    more,
                );
            }
            lemma_scenario_moves(p, tokens);
            lemma_scenarios(then, tokens, i, more, still);
        }
    }
}

proof fn lemma_scenario_moves(p: Parsing, tokens: Seq<TokenModel>)
    requires
        stands(p, tokens),
        p.at_word(tokens, "scenario"@),
    ensures
        p.scenario(tokens).1 is Some ==> p.scenario(tokens).0.pos > p.pos,
{
    if let (then, Some(name)) = p.eat_word(tokens, "scenario"@).text(tokens, "a scenario name"@) {
        let open = then.expect(tokens, KindModel::LBrace, "`{`"@);
        lemma_statements(open, tokens, open.pos, Body::empty(), false);
    }
}

/// A file that parses is what its tokens are, every one of them, from first to
/// last: each service, step and predicate is there once for each time it is
/// written, in the order it is written, and says what its tokens say. Each stands
/// from its first token to its last.
pub proof fn lemma_file_is_its_tokens(tokens: Seq<TokenModel>)
    requires
        tokens.len() > 0,
        tokens.last().kind == KindModel::Eof,
    ensures
        parsed(tokens) matches Ok(file) ==> exists|m: int, j: int| #[trigger]
            reads_file(tokens, m, j, file),
{
    let start = Parsing { pos: 0, errors: Seq::empty() };
    lemma_fleet(start, tokens);
    if let (then, Some(fleet)) = start.fleet(tokens) {
        let none = Seq::<At<ScenarioModel>>::empty();
        lemma_stays(scenarios(tokens), then.pos, none);
        lemma_scenarios(then, tokens, then.pos, none, true);
        let (end, _) = then.scenarios(tokens, none);
        if let Ok(file) = parsed(tokens) {
            assert(reads_file(tokens, then.pos, end.pos, file));
        }
    }
}

} // verus!
