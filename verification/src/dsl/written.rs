//! What a token says, told from the characters it stands on.

use vstd::prelude::*;

use super::lexer::{
    duration_of, in_number, in_unit, in_word, is_letter, lemma_run_end, lexed, offset, run_end,
    spanning, starts_word, KindModel, LexErrorModel, Lexed, TokenModel,
};
use super::span::Span;
use crate::text::{all_digits, digits_value, is_digit};
use crate::time::Duration;

verus! {

/// Whether that text stands at that span of a source.
pub open spec fn stands_at(src: Seq<char>, span: Span, text: Seq<char>) -> bool {
    exists|i: int, j: int| #[trigger] stands_from(src, span, text, i, j)
}

/// Whether that text is what stands from `i` up to `j`, which that span covers.
pub open spec fn stands_from(src: Seq<char>, span: Span, text: Seq<char>, i: int, j: int) -> bool {
    &&& 0 <= i <= j <= src.len()
    &&& span == spanning(src, i, j)
    &&& text == src.subrange(i, j)
}

/// Whether what stands between two quotes spells that text: each character as
/// itself, or behind a backslash, where `n` is a line break, `t` a tab, and any
/// other character itself.
pub open spec fn spells_out(between: Seq<char>, text: Seq<char>) -> bool
    decreases text.len(),
{
    if text.len() == 0 {
        between.len() == 0
    } else {
        let c = text.last();
        let n = between.len() as int;
        ||| n >= 1 && between[n - 1] == c && c != '"' && c != '\\' && spells_out(
            between.take(n - 1),
            text.drop_last(),
        )
        ||| n >= 2 && between[n - 2] == '\\' && escapes(between[n - 1], c) && spells_out(
            between.take(n - 2),
            text.drop_last(),
        )
    }
}

/// Whether a backslash and that letter stand for that character.
pub open spec fn escapes(letter: char, c: char) -> bool {
    if letter == 'n' {
        c == '\n'
    } else if letter == 't' {
        c == '\t'
    } else {
        c == letter
    }
}

/// How many nanoseconds that many of a unit are.
pub open spec fn nanos_of(n: nat, unit: Seq<char>) -> Option<nat> {
    if unit == "ms"@ {
        Some(n * 1_000_000)
    } else if unit == "s"@ {
        Some(n * 1_000_000_000)
    } else if unit == "m"@ {
        Some(n * 60_000_000_000)
    } else if unit == "h"@ {
        Some(n * 3_600_000_000_000)
    } else {
        None
    }
}

/// Whether a text spells a span of time: digits, and then a unit. A span that is
/// too long to hold is as long as can be held.
pub open spec fn spells_span(text: Seq<char>, d: Duration) -> bool {
    exists|m: int| #[trigger] spells_span_at(text, d, m)
}

/// Whether a text spells a span of time with its unit from `m` on.
pub open spec fn spells_span_at(text: Seq<char>, d: Duration, m: int) -> bool {
    &&& 0 < m < text.len()
    &&& all_digits(text.take(m))
    &&& nanos_of(digits_value(text.take(m)), text.skip(m)) matches Some(nanos) && {
        let longest: nat = 18_446_744_073_709_551_615 * 1_000_000_000;
        d@ == (if nanos <= longest {
            nanos
        } else {
            longest
        })
    }
}

/// Whether a text says what a token is.
pub open spec fn says(text: Seq<char>, kind: KindModel) -> bool {
    match kind {
        KindModel::Ident(word) => text == word && text.len() > 0 && (is_letter(text[0]) || text[0]
            == '_') && forall|k: int|
            0 <= k < text.len() ==> is_letter(#[trigger] text[k]) || is_digit(text[k]) || text[k]
                == '_',
        KindModel::Str(value) => text.len() >= 2 && text[0] == '"' && text.last() == '"'
            && spells_out(text.subrange(1, text.len() - 1), value),
        KindModel::Int(n) => text.len() > 0 && all_digits(text) && n == digits_value(text),
        KindModel::Duration(d) => spells_span(text, d),
        KindModel::LBrace => text == "{"@,
        KindModel::RBrace => text == "}"@,
        KindModel::LBracket => text == "["@,
        KindModel::RBracket => text == "]"@,
        KindModel::Colon => text == ":"@,
        KindModel::Semi => text == ";"@,
        KindModel::Comma => text == ","@,
        KindModel::Dot => text == "."@,
        KindModel::Eq => text == "="@,
        KindModel::EqEq => text == "=="@,
        KindModel::Ne => text == "!="@,
        KindModel::Lt => text == "<"@,
        KindModel::Le => text == "<="@,
        KindModel::Gt => text == ">"@,
        KindModel::Ge => text == ">="@,
        KindModel::Eof => text.len() == 0,
    }
}

/// Whether a token says what stands in the source where it does.
pub open spec fn said(src: Seq<char>, token: TokenModel) -> bool {
    exists|text: Seq<char>| #[trigger]
        stands_at(src, token.span, text) && says(text, token.kind)
}

spec fn all_said(src: Seq<char>, tokens: Seq<TokenModel>) -> bool {
    forall|k: int| 0 <= k < tokens.len() ==> said(src, #[trigger] tokens[k])
}

proof fn lemma_token_said(read: Lexed, src: Seq<char>, end: int, kind: KindModel)
    requires
        all_said(src, read.tokens),
        0 <= read.at <= end <= src.len(),
        says(src.subrange(read.at, end), kind),
    ensures
        all_said(src, read.token(src, end, kind).tokens),
{
    let token = TokenModel { kind, span: spanning(src, read.at, end) };
    let text = src.subrange(read.at, end);
    assert(stands_from(src, token.span, text, read.at, end));
    assert(stands_at(src, token.span, text));
    assert(said(src, token));
}

proof fn lemma_spelled_on(between: Seq<char>, more: Seq<char>, text: Seq<char>, c: char)
    requires
        spells_out(between, text),
        (more == between.push(c) && c != '"' && c != '\\') || (more.len() == between.len() + 2
            && more == between.push('\\').push(more.last()) && escapes(more.last(), c)),
    ensures
        spells_out(more, text.push(c)),
{
    assert(text.push(c).drop_last() =~= text);
    if more == between.push(c) && c != '"' && c != '\\' {
        assert(more.take(more.len() - 1) =~= between);
    } else {
        assert(more.take(more.len() - 2) =~= between);
    }
}

proof fn lemma_string_said(read: Lexed, src: Seq<char>, j: int, value: Seq<char>)
    requires
        all_said(src, read.tokens),
        0 <= read.at < j <= src.len(),
        src[read.at] == '"',
        spells_out(src.subrange(read.at + 1, j), value),
    ensures
        all_said(src, read.string(src, j, value).tokens),
    decreases src.len() - j,
{
    let so_far = src.subrange(read.at + 1, j);
    if j < src.len() {
        if src[j] == '"' {
            let text = src.subrange(read.at, j + 1);
            assert(text.subrange(1, text.len() - 1) =~= so_far);
            lemma_token_said(read, src, j + 1, KindModel::Str(value));
        } else if src[j] == '\\' {
            if j + 1 < src.len() {
                let c = src[j + 1];
                let more = src.subrange(read.at + 1, j + 2);
                assert(more =~= so_far.push('\\').push(c));
                assert(more.last() == c);
                let said = Lexed {
                    errors: read.errors.push(
                        LexErrorModel {
                            span: spanning(src, j + 1, j + 2),
                            message: "unknown escape `\\"@.push(c) + "`"@,
                        },
                    ),
                    ..read
                };
                if c == 'n' {
                    lemma_spelled_on(so_far, more, value, '\n');
                    lemma_string_said(read, src, j + 2, value.push('\n'));
                } else if c == 't' {
                    lemma_spelled_on(so_far, more, value, '\t');
                    lemma_string_said(read, src, j + 2, value.push('\t'));
                } else {
                    lemma_spelled_on(so_far, more, value, c);
                    lemma_string_said(read, src, j + 2, value.push(c));
                    lemma_string_said(said, src, j + 2, value.push(c));
                }
            }
        } else {
            let more = src.subrange(read.at + 1, j + 1);
            assert(more =~= so_far.push(src[j]));
            lemma_spelled_on(so_far, more, value, src[j]);
            lemma_string_said(read, src, j + 1, value.push(src[j]));
        }
    }
}

proof fn lemma_span_spelled(digits: Seq<char>, unit: Seq<char>)
    requires
        digits.len() > 0,
        unit.len() > 0,
        all_digits(digits),
        duration_of(digits, unit) is Some,
    ensures
        spells_span(digits + unit, duration_of(digits, unit)->0),
{
    let text = digits + unit;
    let m = digits.len() as int;
    let d = duration_of(digits, unit)->0;
    assert(text.take(m) =~= digits);
    assert(text.skip(m) =~= unit);
    reveal_strlit("ms");
    reveal_strlit("s");
    reveal_strlit("m");
    reveal_strlit("h");
    assert("ms"@.len() == 2 && "s"@.len() == 1 && "m"@.len() == 1 && "h"@.len() == 1);
    assert("s"@[0] != "m"@[0] && "m"@[0] != "h"@[0] && "s"@[0] != "h"@[0]);
    let n = digits_value(digits) as u64;
    crate::time::lemma_spans_made(n);
    crate::time::lemma_spans_made(super::lexer::at_most(n, 60));
    crate::time::lemma_spans_made(super::lexer::at_most(n, 3600));
    assert(spells_span_at(text, d, m));
}

proof fn lemma_number_said(read: Lexed, src: Seq<char>)
    requires
        all_said(src, read.tokens),
        0 <= read.at < src.len(),
        is_digit(src[read.at]),
    ensures
        all_said(src, read.number(src).tokens),
{
    lemma_run_end(src, read.at, in_number());
    let digits_end = run_end(src, read.at, in_number());
    assert(digits_end > read.at) by {
        lemma_run_end(src, read.at + 1, in_number());
    }
    lemma_run_end(src, digits_end, in_unit());
    let end = run_end(src, digits_end, in_unit());
    let digits = src.subrange(read.at, digits_end);
    let unit = src.subrange(digits_end, end);
    assert(all_digits(digits)) by {
        assert forall|k: int| 0 <= k < digits.len() implies is_digit(#[trigger] digits[k]) by {
            assert(in_number()(src[read.at + k]));
        }
    }
    assert(src.subrange(read.at, end) =~= digits + unit);
    if unit.len() == 0 {
        assert(src.subrange(read.at, end) =~= digits);
        if digits_value(digits) <= i64::MAX {
            lemma_token_said(read, src, end, KindModel::Int(digits_value(digits) as i64));
        }
    } else if duration_of(digits, unit) is Some {
        lemma_span_spelled(digits, unit);
        lemma_token_said(read, src, end, KindModel::Duration(duration_of(digits, unit)->0));
    }
}

proof fn lemma_word_said(read: Lexed, src: Seq<char>)
    requires
        all_said(src, read.tokens),
        0 <= read.at < src.len(),
        starts_word(src[read.at]),
    ensures
        ({
            let end = run_end(src, read.at, in_word());
            all_said(
                src,
                read.token(src, end, KindModel::Ident(src.subrange(read.at, end))).tokens,
            )
        }),
{
    lemma_run_end(src, read.at, in_word());
    lemma_run_end(src, read.at + 1, in_word());
    let end = run_end(src, read.at, in_word());
    let text = src.subrange(read.at, end);
    assert(in_word()(src[read.at]));
    assert(end > read.at);
    assert forall|k: int| 0 <= k < text.len() implies is_letter(#[trigger] text[k]) || is_digit(
        text[k],
    ) || text[k] == '_' by {
        assert(in_word()(src[read.at + k]));
    }
    assert(text[0] == src[read.at]);
    lemma_token_said(read, src, end, KindModel::Ident(text));
}

proof fn lemma_mark_said(read: Lexed, src: Seq<char>, mark: Seq<char>, kind: KindModel)
    requires
        all_said(src, read.tokens),
        0 <= read.at,
        read.at + mark.len() <= src.len(),
        src.subrange(read.at, read.at + mark.len()) =~= mark,
        says(mark, kind),
    ensures
        all_said(src, read.token(src, read.at + mark.len(), kind).tokens),
{
    lemma_token_said(read, src, read.at + mark.len(), kind);
}

proof fn lemma_step_said(read: Lexed, src: Seq<char>)
    requires
        all_said(src, read.tokens),
        0 <= read.at < src.len(),
    ensures
        all_said(src, read.step(src).tokens),
{
    let c = src[read.at];
    reveal_strlit("{");
    reveal_strlit("}");
    reveal_strlit("[");
    reveal_strlit("]");
    reveal_strlit(":");
    reveal_strlit(";");
    reveal_strlit(",");
    reveal_strlit(".");
    reveal_strlit("=");
    reveal_strlit("==");
    reveal_strlit("!=");
    reveal_strlit("<");
    reveal_strlit("<=");
    reveal_strlit(">");
    reveal_strlit(">=");
    if crate::text::white(c) || c == '/' {
    } else if c == '{' {
        lemma_mark_said(read, src, "{"@, KindModel::LBrace);
    } else if c == '}' {
        lemma_mark_said(read, src, "}"@, KindModel::RBrace);
    } else if c == '[' {
        lemma_mark_said(read, src, "["@, KindModel::LBracket);
    } else if c == ']' {
        lemma_mark_said(read, src, "]"@, KindModel::RBracket);
    } else if c == ':' {
        lemma_mark_said(read, src, ":"@, KindModel::Colon);
    } else if c == ';' {
        lemma_mark_said(read, src, ";"@, KindModel::Semi);
    } else if c == ',' {
        lemma_mark_said(read, src, ","@, KindModel::Comma);
    } else if c == '.' {
        lemma_mark_said(read, src, "."@, KindModel::Dot);
    } else if c == '=' {
        if read.at + 1 < src.len() && src[read.at + 1] == '=' {
            lemma_mark_said(read, src, "=="@, KindModel::EqEq);
        } else {
            lemma_mark_said(read, src, "="@, KindModel::Eq);
        }
    } else if c == '<' {
        if read.at + 1 < src.len() && src[read.at + 1] == '=' {
            lemma_mark_said(read, src, "<="@, KindModel::Le);
        } else {
            lemma_mark_said(read, src, "<"@, KindModel::Lt);
        }
    } else if c == '>' {
        if read.at + 1 < src.len() && src[read.at + 1] == '=' {
            lemma_mark_said(read, src, ">="@, KindModel::Ge);
        } else {
            lemma_mark_said(read, src, ">"@, KindModel::Gt);
        }
    } else if c == '!' {
        if read.at + 1 < src.len() && src[read.at + 1] == '=' {
            lemma_mark_said(read, src, "!="@, KindModel::Ne);
        }
    } else if c == '"' {
        assert(src.subrange(read.at + 1, read.at + 1) =~= Seq::empty());
        lemma_string_said(read, src, read.at + 1, Seq::empty());
    } else if is_digit(c) {
        lemma_number_said(read, src);
    } else if starts_word(c) {
        lemma_word_said(read, src);
    }
}

proof fn lemma_rest_said(read: Lexed, src: Seq<char>)
    requires
        super::lexer::in_order(read, src),
        all_said(src, read.tokens),
        offset(src, src.len() as int) <= usize::MAX,
    ensures
        all_said(src, read.rest(src).tokens),
    decreases src.len() - read.at,
{
    if read.at >= src.len() {
        lemma_token_said(read, src, read.at, KindModel::Eof);
    } else {
        super::lexer::lemma_step_in_order(read, src);
        lemma_step_said(read, src);
        lemma_rest_said(read.step(src), src);
    }
}

/// Every token says what stands in the source where it does: a word its letters,
/// a number its digits, a span of time its digits and its unit, a text what is
/// between its quotes, and a mark the mark that is written there.
pub proof fn lemma_tokens_say_the_source(src: Seq<char>, k: int)
    requires
        offset(src, src.len() as int) <= usize::MAX,
        0 <= k < lexed(src).tokens.len(),
    ensures
        said(src, lexed(src).tokens[k]),
{
    let start = Lexed { at: 0, tokens: Seq::empty(), errors: Seq::empty() };
    lemma_rest_said(start, src);
}

/// A digit before a number counts as many as there are places after it.
pub proof fn lemma_digits_by_place(c: char, rest: Seq<char>)
    requires
        is_digit(c),
    ensures
        digits_value(seq![c]) == (c as u32) - 48,
        digits_value(seq![c] + rest) == digits_value(seq![c]) * vstd::arithmetic::power::pow(
            10,
            rest.len(),
        ) + digits_value(rest),
    decreases rest.len(),
{
    assert(seq![c].drop_last() =~= Seq::empty());
    assert(digits_value(Seq::<char>::empty()) == 0);
    vstd::arithmetic::power::lemma_pow0(10);
    if rest.len() == 0 {
        assert(seq![c] + rest =~= seq![c]);
        assert(digits_value(seq![c]) * 1 == digits_value(seq![c]));
    } else {
        let fewer = rest.drop_last();
        lemma_digits_by_place(c, fewer);
        assert((seq![c] + rest).drop_last() =~= seq![c] + fewer);
        let p = vstd::arithmetic::power::pow(10, fewer.len());
        let v = digits_value(seq![c]) as int;
        vstd::arithmetic::power::lemma_pow_adds(10, fewer.len(), 1);
        vstd::arithmetic::power::lemma_pow1(10);
        assert(vstd::arithmetic::power::pow(10, rest.len()) == p * 10);
        assert((v * p) * 10 == v * (p * 10)) by (nonlinear_arith);
    }
}

} // verus!
