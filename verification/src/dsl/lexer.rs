//! Hand-rolled lexer for the `.cru` grammar.
//!
//! Structural keywords (`fleet`, `scenario`, `do`, ...) are lexed as [`TokenKind::Ident`]
//! and recognised by the parser, so the lexer stays agnostic to the grammar's
//! vocabulary. Statements are `;`-terminated; newlines are whitespace.

use vstd::prelude::*;

use vstd::string::*;

use super::span::Span;
use crate::text::{
    chars_of, digits_value, is_digit, is_white, push_char, read_digits, same, text_of,
    white,
};
use crate::time::Duration;

verus! {

/// A lexical token: its kind and the source span it covers.
#[derive(Debug, PartialEq, Eq)]
pub struct Token {
    pub kind: TokenKind,
    pub span: Span,
}

/// The kinds of token the lexer produces.
#[derive(Debug, PartialEq, Eq)]
pub enum TokenKind {
    /// A bare word: `fleet`, `http`, `POST`, `image`, `true`.
    Ident(String),
    /// A double-quoted string literal, with escapes resolved.
    Str(String),
    /// A non-negative integer literal.
    Int(i64),
    /// A duration literal: `30s`, `500ms`.
    Duration(Duration),
    LBrace,
    RBrace,
    LBracket,
    RBracket,
    Colon,
    Semi,
    Comma,
    Dot,
    Eq,
    EqEq,
    Ne,
    Lt,
    Le,
    Gt,
    Ge,
    /// End of input.
    Eof,
}

/// What a [`TokenKind`] is.
pub enum KindModel {
    Ident(Seq<char>),
    Str(Seq<char>),
    Int(i64),
    Duration(Duration),
    LBrace,
    RBrace,
    LBracket,
    RBracket,
    Colon,
    Semi,
    Comma,
    Dot,
    Eq,
    EqEq,
    Ne,
    Lt,
    Le,
    Gt,
    Ge,
    Eof,
}

impl DeepView for TokenKind {
    type V = KindModel;

    open spec fn deep_view(&self) -> KindModel {
        match self {
            TokenKind::Ident(s) => KindModel::Ident(s@),
            TokenKind::Str(s) => KindModel::Str(s@),
            TokenKind::Int(n) => KindModel::Int(*n),
            TokenKind::Duration(d) => KindModel::Duration(*d),
            TokenKind::LBrace => KindModel::LBrace,
            TokenKind::RBrace => KindModel::RBrace,
            TokenKind::LBracket => KindModel::LBracket,
            TokenKind::RBracket => KindModel::RBracket,
            TokenKind::Colon => KindModel::Colon,
            TokenKind::Semi => KindModel::Semi,
            TokenKind::Comma => KindModel::Comma,
            TokenKind::Dot => KindModel::Dot,
            TokenKind::Eq => KindModel::Eq,
            TokenKind::EqEq => KindModel::EqEq,
            TokenKind::Ne => KindModel::Ne,
            TokenKind::Lt => KindModel::Lt,
            TokenKind::Le => KindModel::Le,
            TokenKind::Gt => KindModel::Gt,
            TokenKind::Ge => KindModel::Ge,
            TokenKind::Eof => KindModel::Eof,
        }
    }
}

impl TokenKind {
    /// Whether two tokens are of one kind, and say the same.
    pub fn same(&self, other: &TokenKind) -> (r: bool)
        ensures
            r == (self.deep_view() == other.deep_view()),
    {
        match (self, other) {
            (TokenKind::Ident(a), TokenKind::Ident(b)) => *a == *b,
            (TokenKind::Str(a), TokenKind::Str(b)) => *a == *b,
            (TokenKind::Int(a), TokenKind::Int(b)) => *a == *b,
            (TokenKind::Duration(a), TokenKind::Duration(b)) => a.same(b),
            (TokenKind::LBrace, TokenKind::LBrace) => true,
            (TokenKind::RBrace, TokenKind::RBrace) => true,
            (TokenKind::LBracket, TokenKind::LBracket) => true,
            (TokenKind::RBracket, TokenKind::RBracket) => true,
            (TokenKind::Colon, TokenKind::Colon) => true,
            (TokenKind::Semi, TokenKind::Semi) => true,
            (TokenKind::Comma, TokenKind::Comma) => true,
            (TokenKind::Dot, TokenKind::Dot) => true,
            (TokenKind::Eq, TokenKind::Eq) => true,
            (TokenKind::EqEq, TokenKind::EqEq) => true,
            (TokenKind::Ne, TokenKind::Ne) => true,
            (TokenKind::Lt, TokenKind::Lt) => true,
            (TokenKind::Le, TokenKind::Le) => true,
            (TokenKind::Gt, TokenKind::Gt) => true,
            (TokenKind::Ge, TokenKind::Ge) => true,
            (TokenKind::Eof, TokenKind::Eof) => true,
            _ => false,
        }
    }
}

/// What a [`Token`] is.
#[verifier::ext_equal]
pub struct TokenModel {
    pub kind: KindModel,
    pub span: Span,
}

impl DeepView for Token {
    type V = TokenModel;

    open spec fn deep_view(&self) -> TokenModel {
        TokenModel { kind: self.kind.deep_view(), span: self.span }
    }
}

/// A lexing failure anchored to a source span.
#[derive(Debug, PartialEq, Eq)]
pub struct LexError {
    pub span: Span,
    pub message: String,
}

/// What a [`LexError`] says.
#[verifier::ext_equal]
pub struct LexErrorModel {
    pub span: Span,
    pub message: Seq<char>,
}

impl DeepView for LexError {
    type V = LexErrorModel;

    open spec fn deep_view(&self) -> LexErrorModel {
        LexErrorModel { span: self.span, message: self.message@ }
    }
}

/// How many bytes a character takes in the source.
pub open spec fn width(c: char) -> nat {
    let n = c as u32;
    if n < 0x80 {
        1
    } else if n < 0x800 {
        2
    } else if n < 0x10000 {
        3
    } else {
        4
    }
}

/// How many bytes come before the character at `i`.
pub open spec fn offset(chars: Seq<char>, i: int) -> nat
    decreases i,
{
    if i <= 0 {
        0
    } else {
        offset(chars, i - 1) + width(chars[i - 1])
    }
}

/// The bytes of the characters from `i` up to `j`.
pub open spec fn spanning(chars: Seq<char>, i: int, j: int) -> Span {
    Span { start: offset(chars, i) as usize, end: offset(chars, j) as usize }
}

/// Where a run of characters that `belongs` describes ends, from `i` on.
pub open spec fn run_end(chars: Seq<char>, i: int, belongs: spec_fn(char) -> bool) -> int
    decreases chars.len() - i,
{
    if 0 <= i < chars.len() && belongs(chars[i]) {
        run_end(chars, i + 1, belongs)
    } else {
        i
    }
}

/// Whether a character is an ASCII letter.
pub open spec fn is_letter(c: char) -> bool {
    'a' <= c <= 'z' || 'A' <= c <= 'Z'
}

/// Whether a word can begin with a character.
pub open spec fn starts_word(c: char) -> bool {
    is_letter(c) || c == '_'
}

/// Whether a word can go on with a character.
pub open spec fn in_word() -> spec_fn(char) -> bool {
    |c: char| is_letter(c) || is_digit(c) || c == '_'
}

/// Whether a number can go on with a character.
pub open spec fn in_number() -> spec_fn(char) -> bool {
    |c: char| is_digit(c)
}

/// Whether a unit can go on with a character.
pub open spec fn in_unit() -> spec_fn(char) -> bool {
    |c: char| is_letter(c)
}

/// Whether a line can go on with a character.
pub open spec fn in_line() -> spec_fn(char) -> bool {
    |c: char| c != '\n'
}

/// A number of that many of a unit, at most what a span can hold.
pub open spec fn at_most(n: u64, unit: int) -> u64 {
    if n * unit <= u64::MAX {
        (n * unit) as u64
    } else {
        u64::MAX
    }
}

/// The duration some digits and a unit spell.
pub open spec fn duration_of(digits: Seq<char>, unit: Seq<char>) -> Option<Duration> {
    if digits_value(digits) > u64::MAX {
        None
    } else {
        let n = digits_value(digits) as u64;
        if unit == "ms"@ {
            Some(Duration::of_millis(n))
        } else if unit == "s"@ {
            Some(Duration::of_secs(n))
        } else if unit == "m"@ {
            Some(Duration::of_secs(at_most(n, 60)))
        } else if unit == "h"@ {
            Some(Duration::of_secs(at_most(n, 3600)))
        } else {
            None
        }
    }
}

/// What has been read of a source.
#[verifier::ext_equal]
pub struct Lexed {
    /// How many characters were read.
    pub at: int,
    pub tokens: Seq<TokenModel>,
    pub errors: Seq<LexErrorModel>,
}

impl Lexed {
    /// Having read a token up to `end`.
    pub open spec fn token(self, chars: Seq<char>, end: int, kind: KindModel) -> Lexed {
        Lexed {
            at: end,
            tokens: self.tokens.push(TokenModel { kind, span: spanning(chars, self.at, end) }),
            ..self
        }
    }

    /// Having read up to `end`, which says that.
    pub open spec fn fault(self, chars: Seq<char>, end: int, message: Seq<char>) -> Lexed {
        Lexed {
            at: end,
            errors: self.errors.push(
                LexErrorModel { span: spanning(chars, self.at, end), message },
            ),
            ..self
        }
    }

    /// Having read a token of two characters where the second is `=`, and of one
    /// otherwise.
    pub open spec fn one_or_two(self, chars: Seq<char>, two: KindModel, one: KindModel) -> Lexed {
        if self.at + 1 < chars.len() && chars[self.at + 1] == '=' {
            self.token(chars, self.at + 2, two)
        } else {
            self.token(chars, self.at + 1, one)
        }
    }

    /// Having read a string whose characters so far are `value`, from `j` on.
    pub open spec fn string(self, chars: Seq<char>, j: int, value: Seq<char>) -> Lexed
        decreases chars.len() - j,
    {
        let end = chars.len() as int;
        if j < 0 || j >= end {
            self.fault(chars, end, "unterminated string"@)
        } else if chars[j] == '"' {
            self.token(chars, j + 1, KindModel::Str(value))
        } else if chars[j] == '\\' {
            if j + 1 >= end {
                self.fault(chars, end, "unterminated string"@)
            } else {
                let c = chars[j + 1];
                if c == '"' || c == '\\' {
                    self.string(chars, j + 2, value.push(c))
                } else if c == 'n' {
                    self.string(chars, j + 2, value.push('\n'))
                } else if c == 't' {
                    self.string(chars, j + 2, value.push('\t'))
                } else {
                    let said = Lexed {
                        errors: self.errors.push(
                            LexErrorModel {
                                span: spanning(chars, j + 1, j + 2),
                                message: "unknown escape `\\"@.push(c) + "`"@,
                            },
                        ),
                        ..self
                    };
                    said.string(chars, j + 2, value.push(c))
                }
            }
        } else {
            self.string(chars, j + 1, value.push(chars[j]))
        }
    }

    /// Having read a number, or a duration where a unit follows it.
    pub open spec fn number(self, chars: Seq<char>) -> Lexed {
        let digits_end = run_end(chars, self.at, in_number());
        let end = run_end(chars, digits_end, in_unit());
        let digits = chars.subrange(self.at, digits_end);
        let unit = chars.subrange(digits_end, end);
        if unit.len() == 0 {
            if digits_value(digits) <= i64::MAX {
                self.token(chars, end, KindModel::Int(digits_value(digits) as i64))
            } else {
                self.fault(chars, end, "integer `"@ + digits + "` is out of range"@)
            }
        } else {
            match duration_of(digits, unit) {
                Some(duration) => self.token(chars, end, KindModel::Duration(duration)),
                None => self.fault(
                    chars,
                    end,
                    "`"@ + digits + unit + "` is not a valid integer or duration"@,
                ),
            }
        }
    }

    /// Having read one thing more. Lexing is best-effort: an unexpected
    /// character is reported and skipped so later tokens are still produced.
    pub open spec fn step(self, chars: Seq<char>) -> Lexed {
        let c = chars[self.at];
        let next = self.at + 1;
        if white(c) {
            Lexed { at: next, ..self }
        } else if c == '/' {
            if next < chars.len() && chars[next] == '/' {
                Lexed { at: run_end(chars, next, in_line()), ..self }
            } else {
                self.fault(chars, next, "unexpected `/` (line comments start with `//`)"@)
            }
        } else if c == '{' {
            self.token(chars, next, KindModel::LBrace)
        } else if c == '}' {
            self.token(chars, next, KindModel::RBrace)
        } else if c == '[' {
            self.token(chars, next, KindModel::LBracket)
        } else if c == ']' {
            self.token(chars, next, KindModel::RBracket)
        } else if c == ':' {
            self.token(chars, next, KindModel::Colon)
        } else if c == ';' {
            self.token(chars, next, KindModel::Semi)
        } else if c == ',' {
            self.token(chars, next, KindModel::Comma)
        } else if c == '.' {
            self.token(chars, next, KindModel::Dot)
        } else if c == '=' {
            self.one_or_two(chars, KindModel::EqEq, KindModel::Eq)
        } else if c == '<' {
            self.one_or_two(chars, KindModel::Le, KindModel::Lt)
        } else if c == '>' {
            self.one_or_two(chars, KindModel::Ge, KindModel::Gt)
        } else if c == '!' {
            if next < chars.len() && chars[next] == '=' {
                self.token(chars, self.at + 2, KindModel::Ne)
            } else {
                self.fault(chars, next, "unexpected `!` (did you mean `!=`?)"@)
            }
        } else if c == '"' {
            self.string(chars, next, Seq::empty())
        } else if is_digit(c) {
            self.number(chars)
        } else if starts_word(c) {
            let end = run_end(chars, self.at, in_word());
            self.token(chars, end, KindModel::Ident(chars.subrange(self.at, end)))
        } else {
            self.fault(chars, next, "unexpected character `"@.push(c) + "`"@)
        }
    }

    /// Having read everything that is left.
    pub open spec fn rest(self, chars: Seq<char>) -> Lexed
        decreases
            (if self.at < chars.len() {
                chars.len() - self.at
            } else {
                0
            }),
    {
        if self.at < 0 || self.at >= chars.len() {
            self.token(chars, self.at, KindModel::Eof)
        } else {
            let next = self.step(chars);
            if next.at <= self.at {
                next
            } else {
                next.rest(chars)
            }
        }
    }
}

/// What a source reads as.
pub open spec fn lexed(chars: Seq<char>) -> Lexed {
    (Lexed { at: 0, tokens: Seq::empty(), errors: Seq::empty() }).rest(chars)
}

proof fn lemma_offset_first(chars: Seq<char>, n: int)
    requires
        0 < n <= chars.len(),
    ensures
        offset(chars, n) == width(chars[0]) + offset(chars.drop_first(), n - 1),
    decreases n,
{
    if n > 1 {
        lemma_offset_first(chars, n - 1);
        assert(chars.drop_first()[n - 2] == chars[n - 1]);
    } else {
        reveal_with_fuel(offset, 2);
    }
}

/// Offsets count the bytes of the source: where a character stands is how many
/// bytes the ones before it take.
pub proof fn lemma_offsets_are_bytes(chars: Seq<char>, n: int)
    requires
        0 <= n <= chars.len(),
    ensures
        offset(chars, n) == vstd::utf8::encode_utf8(chars.take(n)).len(),
    decreases n,
{
    let some = chars.take(n);
    lemma_offset_upto(chars, some, n);
    lemma_offset_is_length(some);
}

proof fn lemma_offset_upto(chars: Seq<char>, some: Seq<char>, n: int)
    requires
        0 <= n <= chars.len(),
        n <= some.len(),
        forall|k: int| 0 <= k < n ==> some[k] == chars[k],
    ensures
        offset(chars, n) == offset(some, n),
    decreases n,
{
    if n > 0 {
        lemma_offset_upto(chars, some, n - 1);
    }
}

proof fn lemma_offset_is_length(chars: Seq<char>)
    ensures
        offset(chars, chars.len() as int) == vstd::utf8::encode_utf8(chars).len(),
    decreases chars.len(),
{
    if chars.len() > 0 {
        lemma_offset_is_length(chars.drop_first());
        lemma_offset_first(chars, chars.len() as int);
        let first = chars[0];
        vstd::utf8::char_is_scalar(first);
        assert(vstd::utf8::encode_scalar(first as u32).len() == width(first));
    }
}

proof fn lemma_offset_grows(chars: Seq<char>, i: int, j: int)
    requires
        0 <= i <= j <= chars.len(),
    ensures
        offset(chars, i) <= offset(chars, j),
        i < j ==> offset(chars, i) < offset(chars, j),
    decreases j - i,
{
    if i < j {
        lemma_offset_grows(chars, i, j - 1);
    }
}

pub(crate) proof fn lemma_run_end(chars: Seq<char>, i: int, belongs: spec_fn(char) -> bool)
    requires
        0 <= i <= chars.len(),
    ensures
        i <= run_end(chars, i, belongs) <= chars.len(),
        forall|k: int| i <= k < run_end(chars, i, belongs) ==> belongs(#[trigger] chars[k]),
    decreases chars.len() - i,
{
    if i < chars.len() && belongs(chars[i]) {
        lemma_run_end(chars, i + 1, belongs);
    }
}

struct Lexer {
    chars: Vec<char>,
    /// Which character comes next.
    at: usize,
    /// How many bytes come before it.
    byte: usize,
    tokens: Vec<Token>,
    errors: Vec<LexError>,
}

impl DeepView for Lexer {
    type V = Lexed;

    closed spec fn deep_view(&self) -> Lexed {
        Lexed {
            at: self.at as int,
            tokens: self.tokens.deep_view(),
            errors: self.errors.deep_view(),
        }
    }
}

impl Lexer {
    spec fn wf(&self) -> bool {
        &&& self.at <= self.chars@.len()
        &&& self.byte == offset(self.chars@, self.at as int)
        &&& offset(self.chars@, self.chars@.len() as int) <= usize::MAX
    }

    /// What is read of the same source, at that place.
    spec fn moved(&self, then: Lexer) -> bool {
        &&& then.wf()
        &&& then.chars@ == self.chars@
        &&& then.tokens == self.tokens
        &&& then.errors == self.errors
    }

    /// Whether the character after the next is `c`.
    fn followed_by(&self, c: char) -> (r: bool)
        requires
            self.wf(),
            self.at < self.chars@.len(),
        ensures
            r == (self.at + 1 < self.chars@.len() && self.chars@[self.at + 1] == c),
    {
        self.at < self.chars.len() - 1 && self.chars[self.at + 1] == c
    }

    /// Past the next character.
    fn bump(&mut self)
        requires
            old(self).wf(),
            old(self).at < old(self).chars@.len(),
        ensures
            old(self).moved(*final(self)),
            final(self).at == old(self).at + 1,
    {
        let size: usize = self.chars.len();
        proof {
            lemma_offset_grows(self.chars@, self.at + 1, size as int);
        }
        let n: u32 = self.chars[self.at] as u32;
        let taken: usize = if n < 0x80 {
            1
        } else if n < 0x800 {
            2
        } else if n < 0x10000 {
            3
        } else {
            4
        };
        self.byte = self.byte + taken;
        self.at = self.at + 1;
    }

    /// A token from `from`, whose first byte is `start`, up to here.
    fn emit(&mut self, Ghost(from): Ghost<int>, start: usize, kind: TokenKind)
        requires
            old(self).wf(),
            0 <= from <= old(self).at,
            start == offset(old(self).chars@, from),
        ensures
            final(self).wf(),
            final(self).chars@ == old(self).chars@,
            final(self).at == old(self).at,
            final(self).deep_view() == (Lexed { at: from, ..old(self).deep_view() }).token(
                old(self).chars@,
                old(self).at as int,
                kind.deep_view(),
            ),
    {
        let ghost before = self.tokens.deep_view();
        let token = Token { kind, span: Span::new(start, self.byte) };
        let ghost added = token.deep_view();
        self.tokens.push(token);
        assert(self.tokens.deep_view() =~= before.push(added));
    }

    /// That what stands from `from`, whose first byte is `start`, up to here is
    /// wrong.
    fn fault(&mut self, Ghost(from): Ghost<int>, start: usize, message: String)
        requires
            old(self).wf(),
            0 <= from <= old(self).at,
            start == offset(old(self).chars@, from),
        ensures
            final(self).wf(),
            final(self).chars@ == old(self).chars@,
            final(self).at == old(self).at,
            final(self).deep_view() == (Lexed { at: from, ..old(self).deep_view() }).fault(
                old(self).chars@,
                old(self).at as int,
                message@,
            ),
    {
        let ghost before = self.errors.deep_view();
        let error = LexError { span: Span::new(start, self.byte), message };
        let ghost added = error.deep_view();
        self.errors.push(error);
        assert(self.errors.deep_view() =~= before.push(added));
    }

    /// A token of one character.
    fn punct(&mut self, kind: TokenKind)
        requires
            old(self).wf(),
            old(self).at < old(self).chars@.len(),
        ensures
            final(self).wf(),
            final(self).chars@ == old(self).chars@,
            final(self).deep_view() == old(self).deep_view().token(
                old(self).chars@,
                old(self).at + 1,
                kind.deep_view(),
            ),
    {
        let start = self.byte;
        let ghost from = self.at as int;
        self.bump();
        self.emit(Ghost(from), start, kind);
    }

    /// A one-char token, or a two-char token when the next char is `=`.
    fn one_or_two(&mut self, two: TokenKind, one: TokenKind)
        requires
            old(self).wf(),
            old(self).at < old(self).chars@.len(),
        ensures
            final(self).wf(),
            final(self).chars@ == old(self).chars@,
            final(self).deep_view() == old(self).deep_view().one_or_two(
                old(self).chars@,
                two.deep_view(),
                one.deep_view(),
            ),
    {
        let start = self.byte;
        let ghost from = self.at as int;
        let more = self.followed_by('=');
        self.bump();
        if more {
            self.bump();
            self.emit(Ghost(from), start, two);
        } else {
            self.emit(Ghost(from), start, one);
        }
    }

    /// Past the characters a line still holds.
    fn skip_line(&mut self)
        requires
            old(self).wf(),
        ensures
            old(self).moved(*final(self)),
            final(self).at == run_end(old(self).chars@, old(self).at as int, in_line()),
    {
        let ghost chars = self.chars@;
        let ghost end = run_end(chars, self.at as int, in_line());
        while self.at < self.chars.len() && self.chars[self.at] != '\n'
            invariant
                self.wf(),
                self.chars@ == chars,
                self.tokens == old(self).tokens,
                self.errors == old(self).errors,
                run_end(chars, self.at as int, in_line()) == end,
            decreases chars.len() - self.at,
        {
            self.bump();
        }
    }

    /// Past the digits that follow.
    fn skip_digits(&mut self)
        requires
            old(self).wf(),
        ensures
            old(self).moved(*final(self)),
            final(self).at == run_end(old(self).chars@, old(self).at as int, in_number()),
    {
        let ghost chars = self.chars@;
        let ghost end = run_end(chars, self.at as int, in_number());
        while self.at < self.chars.len() && '0' <= self.chars[self.at] && self.chars[self.at] <= '9'
            invariant
                self.wf(),
                self.chars@ == chars,
                self.tokens == old(self).tokens,
                self.errors == old(self).errors,
                run_end(chars, self.at as int, in_number()) == end,
            decreases chars.len() - self.at,
        {
            self.bump();
        }
    }

    /// Past the letters that follow.
    fn skip_letters(&mut self)
        requires
            old(self).wf(),
        ensures
            old(self).moved(*final(self)),
            final(self).at == run_end(old(self).chars@, old(self).at as int, in_unit()),
    {
        let ghost chars = self.chars@;
        let ghost end = run_end(chars, self.at as int, in_unit());
        while self.at < self.chars.len() && letter(self.chars[self.at])
            invariant
                self.wf(),
                self.chars@ == chars,
                self.tokens == old(self).tokens,
                self.errors == old(self).errors,
                run_end(chars, self.at as int, in_unit()) == end,
            decreases chars.len() - self.at,
        {
            self.bump();
        }
    }

    /// The characters from `from` up to `to`.
    fn text(&self, from: usize, to: usize) -> (r: String)
        requires
            from <= to <= self.chars@.len(),
        ensures
            r@ == self.chars@.subrange(from as int, to as int),
    {
        text_of(vstd::slice::slice_subrange(self.chars.as_slice(), from, to))
    }

    fn ident(&mut self)
        requires
            old(self).wf(),
            old(self).at < old(self).chars@.len(),
        ensures
            final(self).wf(),
            final(self).chars@ == old(self).chars@,
            ({
                let from = old(self).at as int;
                let end = run_end(old(self).chars@, from, in_word());
                final(self).deep_view() == old(self).deep_view().token(
                    old(self).chars@,
                    end,
                    KindModel::Ident(old(self).chars@.subrange(from, end)),
                )
            }),
    {
        let start = self.byte;
        let from = self.at;
        let ghost chars = self.chars@;
        let ghost end = run_end(chars, from as int, in_word());
        while self.at < self.chars.len() && (letter(self.chars[self.at]) || ('0'
            <= self.chars[self.at] && self.chars[self.at] <= '9') || self.chars[self.at] == '_')
            invariant
                self.wf(),
                self.chars@ == chars,
                from <= self.at,
                self.tokens == old(self).tokens,
                self.errors == old(self).errors,
                run_end(chars, self.at as int, in_word()) == end,
            decreases chars.len() - self.at,
        {
            self.bump();
        }
        let text = self.text(from, self.at);
        self.emit(Ghost(from as int), start, TokenKind::Ident(text));
    }

    fn string(&mut self)
        requires
            old(self).wf(),
            old(self).at < old(self).chars@.len(),
        ensures
            final(self).wf(),
            final(self).chars@ == old(self).chars@,
            final(self).deep_view() == old(self).deep_view().string(
                old(self).chars@,
                old(self).at + 1,
                Seq::empty(),
            ),
    {
        let start = self.byte;
        let ghost from = self.at as int;
        let ghost chars = self.chars@;
        let ghost goal = self.deep_view().string(chars, from + 1, Seq::empty());
        self.bump();
        let mut value = String::new();
        while self.at < self.chars.len()
            invariant
                self.wf(),
                self.chars@ == chars,
                chars == old(self).chars@,
                from == old(self).at,
                0 <= from < self.at,
                start == offset(chars, from),
                goal == old(self).deep_view().string(chars, from + 1, Seq::empty()),
                (Lexed { at: from, ..self.deep_view() }).string(chars, self.at as int, value@)
                    == goal,
            ensures
                self.at == chars.len(),
            decreases chars.len() - self.at,
        {
            let c = self.chars[self.at];
            self.bump();
            if c == '"' {
                self.emit(Ghost(from), start, TokenKind::Str(value));
                return;
            } else if c == '\\' {
                if self.at >= self.chars.len() {
                    break;
                }
                let escaped = self.chars[self.at];
                let here = self.byte;
                let ghost stood = self.at as int;
                let ghost so_far = self.deep_view();
                self.bump();
                if escaped == '"' || escaped == '\\' {
                    push_char(&mut value, escaped);
                } else if escaped == 'n' {
                    push_char(&mut value, '\n');
                } else if escaped == 't' {
                    push_char(&mut value, '\t');
                } else {
                    let mut message = "unknown escape `\\".to_owned();
                    push_char(&mut message, escaped);
                    message.append("`");
                    self.fault(Ghost(stood), here, message);
                    push_char(&mut value, escaped);
                }
            } else {
                push_char(&mut value, c);
            }
        }
        self.fault(Ghost(from), start, "unterminated string".to_owned());
    }

    fn number(&mut self)
        requires
            old(self).wf(),
            old(self).at < old(self).chars@.len(),
        ensures
            final(self).wf(),
            final(self).chars@ == old(self).chars@,
            final(self).deep_view() == old(self).deep_view().number(old(self).chars@),
    {
        let start = self.byte;
        let from = self.at;
        let ghost chars = self.chars@;
        self.skip_digits();
        let digits_end = self.at;
        self.skip_letters();
        let end = self.at;
        proof {
            lemma_run_end(chars, from as int, in_number());
            lemma_run_end(chars, digits_end as int, in_unit());
            assert forall|k: int| 0 <= k < digits_end - from implies is_digit(
                #[trigger] chars.subrange(from as int, digits_end as int)[k],
            ) by {
                assert(in_number()(chars[from + k]));
            }
        }
        let digits = self.text(from, digits_end);
        let unit = self.text(digits_end, end);
        let n = read_digits(self.chars.as_slice(), from, digits_end);
        if digits_end == end {
            match n {
                Some(n) if n <= i64::MAX as u64 => {
                    self.emit(Ghost(from as int), start, TokenKind::Int(n as i64));
                },
                _ => {
                    let mut message = "integer `".to_owned();
                    message.append(digits.as_str());
                    message.append("` is out of range");
                    self.fault(Ghost(from as int), start, message);
                },
            }
            return;
        }
        match duration_from(n, unit.as_str(), Ghost(digits@)) {
            Some(duration) => {
                self.emit(Ghost(from as int), start, TokenKind::Duration(duration));
            },
            None => {
                let mut message = "`".to_owned();
                message.append(digits.as_str());
                message.append(unit.as_str());
                message.append("` is not a valid integer or duration");
                self.fault(Ghost(from as int), start, message);
            },
        }
    }

    /// One thing more.
    fn step(&mut self)
        requires
            old(self).wf(),
            old(self).at < old(self).chars@.len(),
        ensures
            final(self).wf(),
            final(self).chars@ == old(self).chars@,
            final(self).deep_view() == old(self).deep_view().step(old(self).chars@),
            final(self).at > old(self).at,
    {
        let start = self.byte;
        let ghost from = self.at as int;
        let ghost chars = self.chars@;
        proof {
            lemma_run_end(chars, from + 1, in_word());
            lemma_run_end(chars, from + 1, in_number());
            lemma_run_end(chars, from, in_number());
            lemma_run_end(chars, run_end(chars, from, in_number()), in_unit());
            lemma_run_end(chars, from + 1, in_line());
            lemma_string_end(self.deep_view(), chars, from + 1, Seq::empty());
        }
        let c = self.chars[self.at];
        if is_white(c) {
            self.bump();
        } else if c == '/' {
            let comment = self.followed_by('/');
            self.bump();
            if comment {
                self.skip_line();
            } else {
                self.fault(
                    Ghost(from),
                    start,
                    "unexpected `/` (line comments start with `//`)".to_owned(),
                );
            }
        } else if c == '{' {
            self.punct(TokenKind::LBrace);
        } else if c == '}' {
            self.punct(TokenKind::RBrace);
        } else if c == '[' {
            self.punct(TokenKind::LBracket);
        } else if c == ']' {
            self.punct(TokenKind::RBracket);
        } else if c == ':' {
            self.punct(TokenKind::Colon);
        } else if c == ';' {
            self.punct(TokenKind::Semi);
        } else if c == ',' {
            self.punct(TokenKind::Comma);
        } else if c == '.' {
            self.punct(TokenKind::Dot);
        } else if c == '=' {
            self.one_or_two(TokenKind::EqEq, TokenKind::Eq);
        } else if c == '<' {
            self.one_or_two(TokenKind::Le, TokenKind::Lt);
        } else if c == '>' {
            self.one_or_two(TokenKind::Ge, TokenKind::Gt);
        } else if c == '!' {
            let differs = self.followed_by('=');
            self.bump();
            if differs {
                self.bump();
                self.emit(Ghost(from), start, TokenKind::Ne);
            } else {
                self.fault(Ghost(from), start, "unexpected `!` (did you mean `!=`?)".to_owned());
            }
        } else if c == '"' {
            self.string();
        } else if '0' <= c && c <= '9' {
            self.number();
        } else if letter(c) || c == '_' {
            self.ident();
        } else {
            self.bump();
            let mut message = "unexpected character `".to_owned();
            push_char(&mut message, c);
            message.append("`");
            self.fault(Ghost(from), start, message);
        }
    }
}

proof fn lemma_string_end(lexed: Lexed, chars: Seq<char>, j: int, value: Seq<char>)
    requires
        0 <= j <= chars.len(),
    ensures
        j <= lexed.string(chars, j, value).at <= chars.len(),
        j < chars.len() ==> j < lexed.string(chars, j, value).at,
    decreases chars.len() - j,
{
    if j < chars.len() && chars[j] != '"' {
        if chars[j] == '\\' {
            if j + 1 < chars.len() {
                let c = chars[j + 1];
                if c == '"' || c == '\\' {
                    lemma_string_end(lexed, chars, j + 2, value.push(c));
                } else if c == 'n' {
                    lemma_string_end(lexed, chars, j + 2, value.push('\n'));
                } else if c == 't' {
                    lemma_string_end(lexed, chars, j + 2, value.push('\t'));
                } else {
                    let said = Lexed {
                        errors: lexed.errors.push(
                            LexErrorModel {
                                span: spanning(chars, j + 1, j + 2),
                                message: "unknown escape `\\"@.push(c) + "`"@,
                            },
                        ),
                        ..lexed
                    };
                    lemma_string_end(said, chars, j + 2, value.push(c));
                }
            }
        } else {
            lemma_string_end(lexed, chars, j + 1, value.push(chars[j]));
        }
    }
}

/// Whether a character is an ASCII letter.
fn letter(c: char) -> (r: bool)
    ensures
        r == is_letter(c),
{
    ('a' <= c && c <= 'z') || ('A' <= c && c <= 'Z')
}

/// A number of that many of a unit, at most what a span can hold.
fn times(n: u64, unit: u64) -> (r: u64)
    ensures
        r == at_most(n, unit as int),
{
    match n.checked_mul(unit) {
        Some(total) => total,
        None => u64::MAX,
    }
}

/// The duration a number and a unit spell.
fn duration_from(n: Option<u64>, unit: &str, Ghost(digits): Ghost<Seq<char>>) -> (r: Option<
    Duration,
>)
    requires
        n == (if digits_value(digits) <= u64::MAX {
            Some(digits_value(digits) as u64)
        } else {
            None
        }),
    ensures
        r == duration_of(digits, unit@),
{
    match n {
        None => None,
        Some(n) => if same(unit, "ms") {
            Some(Duration::from_millis(n))
        } else if same(unit, "s") {
            Some(Duration::from_secs(n))
        } else if same(unit, "m") {
            Some(Duration::from_secs(times(n, 60)))
        } else if same(unit, "h") {
            Some(Duration::from_secs(times(n, 3600)))
        } else {
            None
        },
    }
}

/// Tokenise `src`, returning the tokens (always ending in [`TokenKind::Eof`]) and
/// any errors. Lexing is best-effort: an unexpected character is reported and
/// skipped so later tokens are still produced.
pub fn lex(src: &str) -> (r: (Vec<Token>, Vec<LexError>))
    ensures
        r.0.deep_view() == lexed(src@).tokens,
        r.1.deep_view() == lexed(src@).errors,
        r.0@.len() > 0,
        r.0.deep_view().last().kind == KindModel::Eof,
{
    let chars = chars_of(src);
    let bytes = src.as_bytes();
    let size: usize = bytes.len();
    proof {
        lemma_offset_is_length(chars@);
    }
    let mut lexer = Lexer { chars, at: 0, byte: 0, tokens: Vec::new(), errors: Vec::new() };
    let ghost all = lexer.chars@;
    let ghost goal = lexed(all);
    proof {
        assert(lexer.tokens.deep_view() =~= Seq::empty());
        assert(lexer.errors.deep_view() =~= Seq::empty());
        assert(offset(all, all.len() as int) == size);
    }
    while lexer.at < lexer.chars.len()
        invariant
            lexer.wf(),
            lexer.chars@ == all,
            lexer.deep_view().rest(all) == goal,
        decreases all.len() - lexer.at,
    {
        lexer.step();
    }
    let start = lexer.byte;
    let ghost from = lexer.at as int;
    lexer.emit(Ghost(from), start, TokenKind::Eof);
    let Lexer { tokens, errors, .. } = lexer;
    assert(tokens.deep_view().last() == goal.tokens.last());
    (tokens, errors)
}

/// Whether what has been read stands in the order it was written, inside what
/// has been read, with no token over another.
pub open spec fn in_order(read: Lexed, chars: Seq<char>) -> bool {
    &&& 0 <= read.at <= chars.len()
    &&& forall|k: int|
        0 <= k < read.tokens.len() ==> (#[trigger] read.tokens[k]).span.start
            <= read.tokens[k].span.end <= offset(chars, read.at)
    &&& forall|i: int, j: int|
        0 <= i < j < read.tokens.len() ==> (#[trigger] read.tokens[i]).span.end <= (
        #[trigger] read.tokens[j]).span.start
    &&& forall|k: int|
        0 <= k < read.errors.len() ==> (#[trigger] read.errors[k]).span.start
            <= read.errors[k].span.end <= offset(chars, chars.len() as int)
}

proof fn lemma_token_in_order(read: Lexed, chars: Seq<char>, end: int, kind: KindModel)
    requires
        in_order(read, chars),
        read.at <= end <= chars.len(),
        offset(chars, chars.len() as int) <= usize::MAX,
    ensures
        in_order(read.token(chars, end, kind), chars),
{
    lemma_offset_grows(chars, read.at, end);
    lemma_offset_grows(chars, end, chars.len() as int);
}

proof fn lemma_fault_in_order(read: Lexed, chars: Seq<char>, end: int, message: Seq<char>)
    requires
        in_order(read, chars),
        read.at <= end <= chars.len(),
        offset(chars, chars.len() as int) <= usize::MAX,
    ensures
        in_order(read.fault(chars, end, message), chars),
{
    lemma_offset_grows(chars, read.at, end);
    lemma_offset_grows(chars, end, chars.len() as int);
}

proof fn lemma_string_in_order(read: Lexed, chars: Seq<char>, j: int, value: Seq<char>)
    requires
        in_order(read, chars),
        read.at < j <= chars.len(),
        offset(chars, chars.len() as int) <= usize::MAX,
    ensures
        in_order(read.string(chars, j, value), chars),
    decreases chars.len() - j,
{
    let end = chars.len() as int;
    if j >= end {
        lemma_fault_in_order(read, chars, end, "unterminated string"@);
    } else if chars[j] == '"' {
        lemma_token_in_order(read, chars, j + 1, KindModel::Str(value));
    } else if chars[j] == '\\' {
        if j + 1 >= end {
            lemma_fault_in_order(read, chars, end, "unterminated string"@);
        } else {
            let c = chars[j + 1];
            if c == '"' || c == '\\' {
                lemma_string_in_order(read, chars, j + 2, value.push(c));
            } else if c == 'n' {
                lemma_string_in_order(read, chars, j + 2, value.push('\n'));
            } else if c == 't' {
                lemma_string_in_order(read, chars, j + 2, value.push('\t'));
            } else {
                let said = Lexed {
                    errors: read.errors.push(
                        LexErrorModel {
                            span: spanning(chars, j + 1, j + 2),
                            message: "unknown escape `\\"@.push(c) + "`"@,
                        },
                    ),
                    ..read
                };
                lemma_offset_grows(chars, j + 1, j + 2);
                lemma_offset_grows(chars, j + 2, end);
                lemma_string_in_order(said, chars, j + 2, value.push(c));
            }
        }
    } else {
        lemma_string_in_order(read, chars, j + 1, value.push(chars[j]));
    }
}

pub(crate) proof fn lemma_step_in_order(read: Lexed, chars: Seq<char>)
    requires
        in_order(read, chars),
        read.at < chars.len(),
        offset(chars, chars.len() as int) <= usize::MAX,
    ensures
        in_order(read.step(chars), chars),
        read.step(chars).at > read.at,
{
    let c = chars[read.at];
    let next = read.at + 1;
    let end = chars.len() as int;
    lemma_run_end(chars, next, in_line());
    lemma_run_end(chars, next, in_word());
    lemma_run_end(chars, next, in_number());
    lemma_run_end(chars, read.at, in_number());
    let digits_end = run_end(chars, read.at, in_number());
    lemma_run_end(chars, digits_end, in_unit());
    lemma_offset_grows(chars, read.at, run_end(chars, next, in_line()));
    lemma_offset_grows(chars, read.at, next);
    lemma_string_end(read, chars, next, Seq::empty());
    if c == '"' {
        lemma_string_in_order(read, chars, next, Seq::empty());
    }
    let then = read.step(chars);
    assert forall|kind: KindModel, to: int| read.at <= to <= end implies in_order(
        #[trigger] read.token(chars, to, kind),
        chars,
    ) by {
        lemma_token_in_order(read, chars, to, kind);
    }
    assert forall|message: Seq<char>, to: int| read.at <= to <= end implies in_order(
        #[trigger] read.fault(chars, to, message),
        chars,
    ) by {
        lemma_fault_in_order(read, chars, to, message);
    }
}

proof fn lemma_rest_in_order(read: Lexed, chars: Seq<char>)
    requires
        in_order(read, chars),
        offset(chars, chars.len() as int) <= usize::MAX,
    ensures
        in_order(read.rest(chars), chars),
    decreases chars.len() - read.at,
{
    if read.at >= chars.len() {
        lemma_token_in_order(read, chars, read.at, KindModel::Eof);
    } else {
        lemma_step_in_order(read, chars);
        lemma_rest_in_order(read.step(chars), chars);
    }
}

/// Whether a token is what the characters from `i` up to `j` say: it covers their
/// bytes, at least one, and a word says what they are.
pub open spec fn covers(token: TokenModel, chars: Seq<char>, i: int, j: int) -> bool {
    &&& 0 <= i < j <= chars.len()
    &&& token.span == spanning(chars, i, j)
    &&& token.span.start < token.span.end
    &&& token.kind matches KindModel::Ident(word) ==> word == chars.subrange(i, j)
}

/// Whether a token was read of the source, and is not its end.
pub open spec fn read_of(token: TokenModel, chars: Seq<char>) -> bool {
    &&& token.kind != KindModel::Eof
    &&& exists|i: int, j: int| #[trigger] covers(token, chars, i, j)
}

spec fn all_read(tokens: Seq<TokenModel>, chars: Seq<char>) -> bool {
    forall|k: int| 0 <= k < tokens.len() ==> read_of(#[trigger] tokens[k], chars)
}

proof fn lemma_token_read(read: Lexed, chars: Seq<char>, end: int, kind: KindModel)
    requires
        all_read(read.tokens, chars),
        0 <= read.at < end <= chars.len(),
        kind != KindModel::Eof,
        kind matches KindModel::Ident(word) ==> word == chars.subrange(read.at, end),
        offset(chars, chars.len() as int) <= usize::MAX,
    ensures
        all_read(read.token(chars, end, kind).tokens, chars),
{
    lemma_offset_grows(chars, read.at, end);
    lemma_offset_grows(chars, end, chars.len() as int);
    let token = TokenModel { kind, span: spanning(chars, read.at, end) };
    assert(covers(token, chars, read.at, end));
}

proof fn lemma_string_read(read: Lexed, chars: Seq<char>, j: int, value: Seq<char>)
    requires
        all_read(read.tokens, chars),
        0 <= read.at < j <= chars.len(),
        offset(chars, chars.len() as int) <= usize::MAX,
    ensures
        all_read(read.string(chars, j, value).tokens, chars),
    decreases chars.len() - j,
{
    if j < chars.len() {
        if chars[j] == '"' {
            lemma_token_read(read, chars, j + 1, KindModel::Str(value));
        } else if chars[j] == '\\' {
            if j + 1 < chars.len() {
                let c = chars[j + 1];
                let said = Lexed {
                    errors: read.errors.push(
                        LexErrorModel {
                            span: spanning(chars, j + 1, j + 2),
                            message: "unknown escape `\\"@.push(c) + "`"@,
                        },
                    ),
                    ..read
                };
                lemma_string_read(read, chars, j + 2, value.push(c));
                lemma_string_read(read, chars, j + 2, value.push('\n'));
                lemma_string_read(read, chars, j + 2, value.push('\t'));
                lemma_string_read(said, chars, j + 2, value.push(c));
            }
        } else {
            lemma_string_read(read, chars, j + 1, value.push(chars[j]));
        }
    }
}

proof fn lemma_step_read(read: Lexed, chars: Seq<char>)
    requires
        all_read(read.tokens, chars),
        0 <= read.at < chars.len(),
        offset(chars, chars.len() as int) <= usize::MAX,
    ensures
        all_read(read.step(chars).tokens, chars),
{
    let c = chars[read.at];
    let next = read.at + 1;
    lemma_run_end(chars, next, in_word());
    lemma_run_end(chars, next, in_number());
    lemma_run_end(chars, read.at, in_number());
    let digits_end = run_end(chars, read.at, in_number());
    lemma_run_end(chars, digits_end, in_unit());
    if c == '"' {
        lemma_string_read(read, chars, next, Seq::empty());
    }
    assert forall|kind: KindModel, to: int|
        read.at < to <= chars.len() && kind != KindModel::Eof && (kind matches KindModel::Ident(word)
            ==> word == chars.subrange(read.at, to)) implies all_read(
        (#[trigger] read.token(chars, to, kind)).tokens,
        chars,
    ) by {
        lemma_token_read(read, chars, to, kind);
    }
}

proof fn lemma_rest_read(read: Lexed, chars: Seq<char>)
    requires
        in_order(read, chars),
        all_read(read.tokens, chars),
        offset(chars, chars.len() as int) <= usize::MAX,
    ensures
        read.rest(chars).tokens.len() > 0,
        read.rest(chars).tokens.last() == (TokenModel {
            kind: KindModel::Eof,
            span: spanning(chars, chars.len() as int, chars.len() as int),
        }),
        all_read(read.rest(chars).tokens.drop_last(), chars),
    decreases chars.len() - read.at,
{
    if read.at >= chars.len() {
        assert(read.rest(chars).tokens.drop_last() =~= read.tokens);
    } else {
        lemma_step_in_order(read, chars);
        lemma_step_read(read, chars);
        lemma_rest_read(read.step(chars), chars);
    }
}

/// Tokens stand in the source in the order they were written, no one over
/// another, and every token and every error points inside it. The last token is
/// the end of the source, and there is no other end. Every other token covers at
/// least one character, and a word says the characters it covers.
pub proof fn lemma_spans_in_source(chars: Seq<char>)
    requires
        offset(chars, chars.len() as int) <= usize::MAX,
    ensures
        in_order(lexed(chars), chars),
        lexed(chars).tokens.len() > 0,
        lexed(chars).tokens.last() == (TokenModel {
            kind: KindModel::Eof,
            span: spanning(chars, chars.len() as int, chars.len() as int),
        }),
        forall|k: int|
            0 <= k < lexed(chars).tokens.len() - 1 ==> read_of(
                #[trigger] lexed(chars).tokens[k],
                chars,
            ),
{
    let start = Lexed { at: 0, tokens: Seq::empty(), errors: Seq::empty() };
    lemma_rest_in_order(start, chars);
    lemma_rest_read(start, chars);
    let all = lexed(chars).tokens;
    assert forall|k: int| 0 <= k < all.len() - 1 implies read_of(#[trigger] all[k], chars) by {
        assert(all.drop_last()[k] == all[k]);
    }
}

/// A span that many bytes further on.
pub open spec fn further(span: Span, by: nat) -> Span {
    Span { start: (span.start + by) as usize, end: (span.end + by) as usize }
}

/// The tokens, that many bytes further on.
pub open spec fn tokens_further(tokens: Seq<TokenModel>, by: nat) -> Seq<TokenModel> {
    tokens.map_values(
        |token: TokenModel| TokenModel { kind: token.kind, span: further(token.span, by) },
    )
}

/// The errors, that many bytes further on.
pub open spec fn errors_further(errors: Seq<LexErrorModel>, by: nat) -> Seq<LexErrorModel> {
    errors.map_values(
        |error: LexErrorModel|
            LexErrorModel { span: further(error.span, by), message: error.message },
    )
}

/// Whether `all` begins with the characters of `first` and a line break.
spec fn begins(all: Seq<char>, first: Seq<char>) -> bool {
    &&& first.len() < all.len()
    &&& forall|k: int| 0 <= k < first.len() ==> #[trigger] all[k] == first[k]
    &&& all[first.len() as int] == '\n'
}

proof fn lemma_run_end_begins(
    first: Seq<char>,
    all: Seq<char>,
    i: int,
    belongs: spec_fn(char) -> bool,
)
    requires
        begins(all, first),
        0 <= i <= first.len(),
        !belongs('\n'),
    ensures
        run_end(all, i, belongs) == run_end(first, i, belongs),
    decreases first.len() - i,
{
    if i < first.len() && belongs(first[i]) {
        lemma_run_end_begins(first, all, i + 1, belongs);
    }
}

proof fn lemma_spanning_begins(first: Seq<char>, all: Seq<char>, i: int, j: int)
    requires
        begins(all, first),
        0 <= i <= j <= first.len(),
    ensures
        spanning(all, i, j) == spanning(first, i, j),
{
    lemma_offset_upto(all, first, i);
    lemma_offset_upto(all, first, j);
}

proof fn lemma_string_faults(read: Lexed, chars: Seq<char>, j: int, value: Seq<char>)
    ensures
        read.string(chars, j, value).errors.len() >= read.errors.len(),
    decreases chars.len() - j,
{
    if 0 <= j < chars.len() && chars[j] != '"' {
        if chars[j] == '\\' {
            if j + 1 < chars.len() {
                let c = chars[j + 1];
                let said = Lexed {
                    errors: read.errors.push(
                        LexErrorModel {
                            span: spanning(chars, j + 1, j + 2),
                            message: "unknown escape `\\"@.push(c) + "`"@,
                        },
                    ),
                    ..read
                };
                lemma_string_faults(read, chars, j + 2, value.push(c));
                lemma_string_faults(read, chars, j + 2, value.push('\n'));
                lemma_string_faults(read, chars, j + 2, value.push('\t'));
                lemma_string_faults(said, chars, j + 2, value.push(c));
            }
        } else {
            lemma_string_faults(read, chars, j + 1, value.push(chars[j]));
        }
    }
}

proof fn lemma_rest_faults(read: Lexed, chars: Seq<char>)
    ensures
        read.rest(chars).errors.len() >= read.errors.len(),
    decreases
        (if read.at < chars.len() {
            chars.len() - read.at
        } else {
            0
        }),
{
    if 0 <= read.at < chars.len() {
        lemma_string_faults(read, chars, read.at + 1, Seq::empty());
        let next = read.step(chars);
        assert(next.errors.len() >= read.errors.len());
        if next.at > read.at {
            lemma_rest_faults(next, chars);
        }
    }
}

proof fn lemma_string_begins(
    read: Lexed,
    first: Seq<char>,
    all: Seq<char>,
    j: int,
    value: Seq<char>,
)
    requires
        begins(all, first),
        0 <= read.at <= j <= first.len(),
        read.string(first, j, value).errors.len() <= read.errors.len(),
    ensures
        read.string(all, j, value) == read.string(first, j, value),
        read.string(first, j, value).errors == read.errors,
    decreases first.len() - j,
{
    if j < first.len() {
        if first[j] == '"' {
            lemma_spanning_begins(first, all, read.at, j + 1);
        } else if first[j] == '\\' {
            if j + 1 < first.len() {
                let c = first[j + 1];
                assert(all[j + 1] == c);
                if c == '"' || c == '\\' {
                    lemma_string_begins(read, first, all, j + 2, value.push(c));
                } else if c == 'n' {
                    lemma_string_begins(read, first, all, j + 2, value.push('\n'));
                } else if c == 't' {
                    lemma_string_begins(read, first, all, j + 2, value.push('\t'));
                } else {
                    let said = Lexed {
                        errors: read.errors.push(
                            LexErrorModel {
                                span: spanning(first, j + 1, j + 2),
                                message: "unknown escape `\\"@.push(c) + "`"@,
                            },
                        ),
                        ..read
                    };
                    lemma_string_faults(said, first, j + 2, value.push(c));
                }
            }
        } else {
            lemma_string_begins(read, first, all, j + 1, value.push(first[j]));
        }
    }
}

proof fn lemma_step_begins(read: Lexed, first: Seq<char>, all: Seq<char>)
    requires
        begins(all, first),
        0 <= read.at < first.len(),
        read.step(first).errors.len() <= read.errors.len(),
    ensures
        read.step(all) == read.step(first),
        read.step(first).errors == read.errors,
{
    let c = first[read.at];
    let next = read.at + 1;
    assert(all[read.at] == c);
    if next < first.len() {
        assert(all[next] == first[next]);
    }
    lemma_spanning_begins(first, all, read.at, next);
    if next < first.len() {
        lemma_spanning_begins(first, all, read.at, read.at + 2);
    }
    if white(c) {
    } else if c == '/' {
        lemma_run_end_begins(first, all, next, in_line());
    } else if c == '"' {
        lemma_string_begins(read, first, all, next, Seq::empty());
    } else if is_digit(c) {
        lemma_run_end(first, read.at, in_number());
        lemma_run_end_begins(first, all, read.at, in_number());
        let digits_end = run_end(first, read.at, in_number());
        lemma_run_end(first, digits_end, in_unit());
        lemma_run_end_begins(first, all, digits_end, in_unit());
        let end = run_end(first, digits_end, in_unit());
        lemma_spanning_begins(first, all, read.at, end);
        assert(all.subrange(read.at, digits_end) =~= first.subrange(read.at, digits_end));
        assert(all.subrange(digits_end, end) =~= first.subrange(digits_end, end));
    } else if starts_word(c) {
        lemma_run_end(first, read.at, in_word());
        lemma_run_end_begins(first, all, read.at, in_word());
        let end = run_end(first, read.at, in_word());
        lemma_spanning_begins(first, all, read.at, end);
        assert(all.subrange(read.at, end) =~= first.subrange(read.at, end));
    }
}

/// What reads without a fault reads the same with a line break behind it, and
/// leaves the rest to be read from there.
proof fn lemma_rest_begins(read: Lexed, first: Seq<char>, all: Seq<char>)
    requires
        begins(all, first),
        in_order(read, first),
        offset(first, first.len() as int) <= usize::MAX,
        read.rest(first).errors.len() <= read.errors.len(),
    ensures
        read.rest(all) == (Lexed {
            at: first.len() as int,
            tokens: read.rest(first).tokens.drop_last(),
            errors: read.errors,
        }).rest(all),
    decreases first.len() - read.at,
{
    if read.at >= first.len() {
        assert(read.rest(first).tokens.drop_last() =~= read.tokens);
    } else {
        let next = read.step(first);
        lemma_step_in_order(read, first);
        lemma_rest_faults(next, first);
        lemma_step_begins(read, first, all);
        lemma_rest_begins(next, first, all);
    }
}

/// Whether `all` has the characters of `last` from `k` on, `by` bytes in.
spec fn finishes(all: Seq<char>, last: Seq<char>, k: int, by: nat) -> bool {
    &&& 0 <= k
    &&& all.len() == k + last.len()
    &&& forall|i: int| 0 <= i < last.len() ==> all[k + i] == #[trigger] last[i]
    &&& by == offset(all, k)
    &&& offset(all, all.len() as int) <= usize::MAX
}

/// What has been read of `last`, read behind what `before` holds.
spec fn behind(before: Lexed, read: Lexed, k: int, by: nat) -> Lexed {
    Lexed {
        at: k + read.at,
        tokens: before.tokens + tokens_further(read.tokens, by),
        errors: before.errors + errors_further(read.errors, by),
    }
}

proof fn lemma_offset_finishes(last: Seq<char>, all: Seq<char>, k: int, by: nat, i: int)
    requires
        finishes(all, last, k, by),
        0 <= i <= last.len(),
    ensures
        offset(all, k + i) == by + offset(last, i),
    decreases i,
{
    if i > 0 {
        lemma_offset_finishes(last, all, k, by, i - 1);
        assert(all[k + (i - 1)] == last[i - 1]);
    }
}

proof fn lemma_spanning_finishes(last: Seq<char>, all: Seq<char>, k: int, by: nat, i: int, j: int)
    requires
        finishes(all, last, k, by),
        0 <= i <= j <= last.len(),
    ensures
        spanning(all, k + i, k + j) == further(spanning(last, i, j), by),
{
    lemma_offset_finishes(last, all, k, by, i);
    lemma_offset_finishes(last, all, k, by, j);
    lemma_offset_grows(all, k + i, k + j);
    lemma_offset_grows(all, k + j, all.len() as int);
}

proof fn lemma_run_end_finishes(
    last: Seq<char>,
    all: Seq<char>,
    k: int,
    by: nat,
    i: int,
    belongs: spec_fn(char) -> bool,
)
    requires
        finishes(all, last, k, by),
        0 <= i <= last.len(),
    ensures
        run_end(all, k + i, belongs) == k + run_end(last, i, belongs),
    decreases last.len() - i,
{
    if i < last.len() {
        assert(all[k + i] == last[i]);
        if belongs(last[i]) {
            lemma_run_end_finishes(last, all, k, by, i + 1, belongs);
        }
    }
}

proof fn lemma_token_finishes(
    before: Lexed,
    read: Lexed,
    last: Seq<char>,
    all: Seq<char>,
    k: int,
    by: nat,
    end: int,
    kind: KindModel,
)
    requires
        finishes(all, last, k, by),
        0 <= read.at <= end <= last.len(),
    ensures
        behind(before, read, k, by).token(all, k + end, kind) == behind(
            before,
            read.token(last, end, kind),
            k,
            by,
        ),
{
    lemma_spanning_finishes(last, all, k, by, read.at, end);
    assert(behind(before, read, k, by).token(all, k + end, kind).tokens =~= behind(
        before,
        read.token(last, end, kind),
        k,
        by,
    ).tokens);
}

proof fn lemma_fault_finishes(
    before: Lexed,
    read: Lexed,
    last: Seq<char>,
    all: Seq<char>,
    k: int,
    by: nat,
    end: int,
    message: Seq<char>,
)
    requires
        finishes(all, last, k, by),
        0 <= read.at <= end <= last.len(),
    ensures
        behind(before, read, k, by).fault(all, k + end, message) == behind(
            before,
            read.fault(last, end, message),
            k,
            by,
        ),
{
    lemma_spanning_finishes(last, all, k, by, read.at, end);
    assert(behind(before, read, k, by).fault(all, k + end, message).errors =~= behind(
        before,
        read.fault(last, end, message),
        k,
        by,
    ).errors);
}

proof fn lemma_string_finishes(
    before: Lexed,
    read: Lexed,
    last: Seq<char>,
    all: Seq<char>,
    k: int,
    by: nat,
    j: int,
    value: Seq<char>,
)
    requires
        finishes(all, last, k, by),
        0 <= read.at <= j <= last.len(),
    ensures
        behind(before, read, k, by).string(all, k + j, value) == behind(
            before,
            read.string(last, j, value),
            k,
            by,
        ),
    decreases last.len() - j,
{
    let end = last.len() as int;
    if j >= end {
        lemma_fault_finishes(before, read, last, all, k, by, end, "unterminated string"@);
    } else {
        assert(all[k + j] == last[j]);
        if last[j] == '"' {
            lemma_token_finishes(before, read, last, all, k, by, j + 1, KindModel::Str(value));
        } else if last[j] == '\\' {
            if j + 1 >= end {
                lemma_fault_finishes(before, read, last, all, k, by, end, "unterminated string"@);
            } else {
                let c = last[j + 1];
                assert(all[k + (j + 1)] == c);
                if c == '"' || c == '\\' {
                    lemma_string_finishes(before, read, last, all, k, by, j + 2, value.push(c));
                } else if c == 'n' {
                    lemma_string_finishes(before, read, last, all, k, by, j + 2, value.push('\n'));
                } else if c == 't' {
                    lemma_string_finishes(before, read, last, all, k, by, j + 2, value.push('\t'));
                } else {
                    let error = LexErrorModel {
                        span: spanning(last, j + 1, j + 2),
                        message: "unknown escape `\\"@.push(c) + "`"@,
                    };
                    let said = Lexed { errors: read.errors.push(error), ..read };
                    lemma_spanning_finishes(last, all, k, by, j + 1, j + 2);
                    let there = behind(before, read, k, by);
                    let heard = Lexed {
                        errors: there.errors.push(
                            LexErrorModel { span: further(error.span, by), message: error.message },
                        ),
                        ..there
                    };
                    assert(behind(before, said, k, by).errors =~= heard.errors);
                    lemma_string_finishes(before, said, last, all, k, by, j + 2, value.push(c));
                }
            }
        } else {
            lemma_string_finishes(before, read, last, all, k, by, j + 1, value.push(last[j]));
        }
    }
}

proof fn lemma_step_finishes(
    before: Lexed,
    read: Lexed,
    last: Seq<char>,
    all: Seq<char>,
    k: int,
    by: nat,
)
    requires
        finishes(all, last, k, by),
        0 <= read.at < last.len(),
    ensures
        behind(before, read, k, by).step(all) == behind(before, read.step(last), k, by),
{
    let there = behind(before, read, k, by);
    let c = last[read.at];
    let next = read.at + 1;
    assert(all[k + read.at] == c);
    if next < last.len() {
        assert(all[k + next] == last[next]);
    }
    assert forall|kind: KindModel, end: int| read.at <= end <= last.len() implies behind(
        before,
        #[trigger] read.token(last, end, kind),
        k,
        by,
    ) == there.token(all, k + end, kind) by {
        lemma_token_finishes(before, read, last, all, k, by, end, kind);
    }
    assert forall|message: Seq<char>, end: int| read.at <= end <= last.len() implies behind(
        before,
        #[trigger] read.fault(last, end, message),
        k,
        by,
    ) == there.fault(all, k + end, message) by {
        lemma_fault_finishes(before, read, last, all, k, by, end, message);
    }
    if white(c) {
    } else if c == '/' {
        lemma_run_end_finishes(last, all, k, by, next, in_line());
    } else if c == '"' {
        lemma_string_finishes(before, read, last, all, k, by, next, Seq::empty());
    } else if is_digit(c) {
        lemma_run_end(last, read.at, in_number());
        lemma_run_end_finishes(last, all, k, by, read.at, in_number());
        let digits_end = run_end(last, read.at, in_number());
        lemma_run_end(last, digits_end, in_unit());
        lemma_run_end_finishes(last, all, k, by, digits_end, in_unit());
        let end = run_end(last, digits_end, in_unit());
        lemma_text_finishes(last, all, k, by, read.at, digits_end);
        lemma_text_finishes(last, all, k, by, digits_end, end);
    } else if starts_word(c) {
        lemma_run_end(last, read.at, in_word());
        lemma_run_end_finishes(last, all, k, by, read.at, in_word());
        lemma_text_finishes(last, all, k, by, read.at, run_end(last, read.at, in_word()));
    }
}

proof fn lemma_text_finishes(last: Seq<char>, all: Seq<char>, k: int, by: nat, i: int, j: int)
    requires
        finishes(all, last, k, by),
        0 <= i <= j <= last.len(),
    ensures
        all.subrange(k + i, k + j) == last.subrange(i, j),
{
    assert forall|n: int| 0 <= n < j - i implies all.subrange(k + i, k + j)[n] == last.subrange(
        i,
        j,
    )[n] by {
        assert(all[k + (i + n)] == last[i + n]);
    }
    assert(all.subrange(k + i, k + j) =~= last.subrange(i, j));
}

proof fn lemma_rest_finishes(
    before: Lexed,
    read: Lexed,
    last: Seq<char>,
    all: Seq<char>,
    k: int,
    by: nat,
)
    requires
        finishes(all, last, k, by),
        in_order(read, last),
        offset(last, last.len() as int) <= usize::MAX,
    ensures
        behind(before, read, k, by).rest(all) == behind(before, read.rest(last), k, by),
    decreases last.len() - read.at,
{
    if read.at >= last.len() {
        lemma_token_finishes(before, read, last, all, k, by, read.at, KindModel::Eof);
    } else {
        lemma_step_in_order(read, last);
        lemma_step_finishes(before, read, last, all, k, by);
        lemma_rest_finishes(before, read.step(last), last, all, k, by);
    }
}

/// A source that reads without an error, a line break and another source read as
/// the one behind the other: the tokens are those of the first without its end,
/// then those of the second, and the errors are those of the second. What comes
/// of the second stands as many bytes further on as the first and the line break
/// take.
pub proof fn lemma_sources_joined(first: Seq<char>, second: Seq<char>)
    requires
        offset(first.push('\n') + second, (first.push('\n') + second).len() as int) <= usize::MAX,
        lexed(first).errors.len() == 0,
    ensures
        lexed(first.push('\n') + second).tokens == lexed(first).tokens.drop_last()
            + tokens_further(lexed(second).tokens, offset(first, first.len() as int) + 1),
        lexed(first.push('\n') + second).errors == errors_further(
            lexed(second).errors,
            offset(first, first.len() as int) + 1,
        ),
{
    let all = first.push('\n') + second;
    let start = Lexed { at: 0, tokens: Seq::empty(), errors: Seq::empty() };
    let n = first.len() as int;
    let by = offset(all, n + 1);
    lemma_offset_upto(all, first, n);
    lemma_offset_grows(all, n, all.len() as int);
    assert(begins(all, first));
    assert(all[n] == '\n');
    assert(by == offset(first, n) + 1);
    assert(finishes(all, second, n + 1, by));
    lemma_offset_finishes(second, all, n + 1, by, second.len() as int);
    lemma_rest_begins(start, first, all);
    let before = Lexed { at: n, tokens: lexed(first).tokens.drop_last(), errors: Seq::empty() };
    let broken = before.step(all);
    assert(broken =~= behind(before, start, n + 1, by));
    assert(before.rest(all) == broken.rest(all));
    lemma_rest_finishes(before, start, second, all, n + 1, by);
}

} // verus!
