//! What texts say: numbers, order, parts, and what stands around them.

use vstd::prelude::*;

use crate::plan::{entry_spellings, spelling, spellings, CheckModel, Literal};
use crate::schema::CmpOp;
use crate::text::{
    all_digits, decimal, digit, digits_value, is_digit, joined, number, signed_decimal, text_order,
    trimmed, trimmed_end, trimmed_start, white, Order,
};

verus! {

/// A number reads back as itself from its digits, of which the first is not a
/// nought unless it is the only one.
pub proof fn lemma_number_reads_back(n: nat)
    ensures
        decimal(n).len() > 0,
        all_digits(decimal(n)),
        digits_value(decimal(n)) == n,
        decimal(n).len() > 1 ==> decimal(n)[0] != '0',
        n == 0 ==> decimal(n) == seq!['0'],
        n > 0 ==> decimal(n)[0] != '0',
    decreases n,
{
    let d = n % 10;
    assert(digit(d) as u32 == 48 + d && is_digit(digit(d)));
    if n < 10 {
        assert(decimal(n).drop_last() =~= Seq::empty());
        assert(digits_value(decimal(n).drop_last()) == 0);
    } else {
        lemma_number_reads_back(n / 10);
        assert(decimal(n).drop_last() =~= decimal(n / 10));
        assert(n == (n / 10) * 10 + n % 10);
    }
}

/// A count is read back from its digits, with a plus before them or not. A sign is
/// read back from what stands before a number that is below nothing.
pub proof fn lemma_count_reads_back(n: u32)
    ensures
        number(decimal(n as nat)) == Some(n),
        number(seq!['+'] + decimal(n as nat)) == Some(n),
        number(seq!['-'] + decimal(n as nat)) is None,
        number(Seq::empty()) is None,
        signed_decimal(n as int) == decimal(n as nat),
        n > 0 ==> signed_decimal(-(n as int)) == seq!['-'] + decimal(n as nat),
{
    lemma_number_reads_back(n as nat);
    let s = decimal(n as nat);
    assert(is_digit(s[0]));
    assert((seq!['+'] + s).skip(1) =~= s);
    assert((seq!['-'] + s)[0] == '-');
    assert(!is_digit('-'));
}

/// Whether one text comes before another: at the first place they part its
/// character is the lower, or it ends there and the other goes on.
pub open spec fn comes_before(a: Seq<char>, b: Seq<char>) -> bool {
    exists|k: int| #[trigger] parts_below(a, b, k)
}

/// Whether two texts part at `k`, with the first the lower there.
pub open spec fn parts_below(a: Seq<char>, b: Seq<char>, k: int) -> bool {
    &&& 0 <= k <= a.len()
    &&& k < b.len()
    &&& a.take(k) == b.take(k)
    &&& k < a.len() ==> (a[k] as int) < (b[k] as int)
}

/// Texts are ordered by where they first part, and are level only where they are
/// one text.
pub proof fn lemma_texts_order(a: Seq<char>, b: Seq<char>)
    ensures
        text_order(a, b) == Order::Less <==> comes_before(a, b),
        text_order(a, b) == Order::Greater <==> comes_before(b, a),
        text_order(a, b) == Order::Equal <==> a == b,
    decreases a.len(),
{
    if a.len() == 0 {
        assert(a.take(0) =~= b.take(0));
        if b.len() > 0 {
            assert(parts_below(a, b, 0));
        }
        if comes_before(b, a) {
            let k = choose|k: int| #[trigger] parts_below(b, a, k);
        }
        if comes_before(a, b) {
            let k = choose|k: int| #[trigger] parts_below(a, b, k);
        }
        if b.len() == 0 {
            assert(a =~= b);
        }
    } else if b.len() == 0 {
        assert(a.take(0) =~= b.take(0));
        assert(parts_below(b, a, 0));
        if comes_before(a, b) {
            let k = choose|k: int| #[trigger] parts_below(a, b, k);
        }
    } else {
        assert(a.take(0) =~= b.take(0));
        if a[0] != b[0] {
            lemma_parts_at_once(a, b);
            lemma_parts_at_once(b, a);
        } else {
            lemma_texts_order(a.skip(1), b.skip(1));
            lemma_parts_later(a, b);
            lemma_parts_later(b, a);
            if a.skip(1) == b.skip(1) {
                assert(a =~= seq![a[0]] + a.skip(1));
                assert(b =~= seq![b[0]] + b.skip(1));
            }
        }
    }
}

proof fn lemma_parts_at_once(a: Seq<char>, b: Seq<char>)
    requires
        a.len() > 0,
        b.len() > 0,
        a[0] != b[0],
    ensures
        comes_before(a, b) <==> (a[0] as int) < (b[0] as int),
{
    assert(a.take(0) =~= b.take(0));
    if (a[0] as int) < (b[0] as int) {
        assert(parts_below(a, b, 0));
    }
    if comes_before(a, b) {
        let k = choose|k: int| #[trigger] parts_below(a, b, k);
        if k > 0 {
            assert(a.take(k)[0] == b.take(k)[0]);
        }
    }
}

proof fn lemma_parts_later(a: Seq<char>, b: Seq<char>)
    requires
        a.len() > 0,
        b.len() > 0,
        a[0] == b[0],
    ensures
        comes_before(a, b) <==> comes_before(a.skip(1), b.skip(1)),
{
    let x = a.skip(1);
    let y = b.skip(1);
    if comes_before(a, b) {
        let k = choose|k: int| #[trigger] parts_below(a, b, k);
        assert(k > 0);
        assert(x.take(k - 1) =~= a.take(k).skip(1));
        assert(y.take(k - 1) =~= b.take(k).skip(1));
        assert(parts_below(x, y, k - 1));
    }
    if comes_before(x, y) {
        let k = choose|k: int| #[trigger] parts_below(x, y, k);
        assert(a.take(k + 1) =~= seq![a[0]] + x.take(k));
        assert(b.take(k + 1) =~= seq![b[0]] + y.take(k));
        assert(parts_below(a, b, k + 1));
    }
}

/// Parts are joined with the separator behind each but the last.
pub proof fn lemma_joined(first: Seq<char>, rest: Seq<Seq<char>>, separator: Seq<char>)
    ensures
        joined(Seq::empty(), separator) == Seq::<char>::empty(),
        joined(seq![first], separator) == first,
        rest.len() > 0 ==> joined(seq![first] + rest, separator) == first + separator + joined(
            rest,
            separator,
        ),
    decreases rest.len(),
{
    let all = seq![first] + rest;
    if rest.len() == 1 {
        assert(all.drop_last() =~= seq![first]);
        assert(joined(seq![first], separator) == first);
        assert(all.last() == rest[0]);
        assert(joined(rest, separator) == rest[0]);
    } else if rest.len() > 1 {
        let fewer = rest.drop_last();
        lemma_joined(first, fewer, separator);
        assert(all.drop_last() =~= seq![first] + fewer);
        assert(all.last() == rest.last());
        assert(joined(all, separator) =~= first + separator + joined(rest, separator));
    }
}

/// Whether every character of a text is white space.
pub open spec fn all_white(s: Seq<char>) -> bool {
    forall|k: int| 0 <= k < s.len() ==> white(#[trigger] s[k])
}

proof fn lemma_trimmed_start(s: Seq<char>)
    ensures
        exists|lead: Seq<char>| #[trigger] all_white(lead) && s == lead + trimmed_start(s),
        trimmed_start(s).len() > 0 ==> !white(trimmed_start(s)[0]),
    decreases s.len(),
{
    let none = Seq::<char>::empty();
    if s.len() > 0 && white(s[0]) {
        lemma_trimmed_start(s.skip(1));
        let lead = choose|lead: Seq<char>| #[trigger]
            all_white(lead) && s.skip(1) == lead + trimmed_start(s.skip(1));
        let more = seq![s[0]] + lead;
        assert(s =~= seq![s[0]] + s.skip(1));
        assert(s =~= more + trimmed_start(s));
        assert forall|k: int| 0 <= k < more.len() implies white(#[trigger] more[k]) by {
            if k > 0 {
                assert(more[k] == lead[k - 1]);
            }
        }
        assert(all_white(more));
    } else {
        assert(all_white(none));
        assert(s =~= none + trimmed_start(s));
    }
}

proof fn lemma_trimmed_end(s: Seq<char>)
    ensures
        exists|trail: Seq<char>| #[trigger] all_white(trail) && s == trimmed_end(s) + trail,
        trimmed_end(s).len() > 0 ==> !white(trimmed_end(s).last()),
        trimmed_end(s).len() > 0 ==> trimmed_end(s)[0] == s[0],
    decreases s.len(),
{
    let none = Seq::<char>::empty();
    if s.len() > 0 && white(s.last()) {
        let fewer = s.drop_last();
        lemma_trimmed_end(fewer);
        let trail = choose|trail: Seq<char>| #[trigger]
            all_white(trail) && fewer == trimmed_end(fewer) + trail;
        let more = trail.push(s.last());
        assert(s =~= fewer.push(s.last()));
        assert(s =~= trimmed_end(s) + more);
        assert forall|k: int| 0 <= k < more.len() implies white(#[trigger] more[k]) by {
            if k < trail.len() {
                assert(more[k] == trail[k]);
            }
        }
        assert(all_white(more));
    } else {
        assert(all_white(none));
        assert(s =~= trimmed_end(s) + none);
    }
}

/// A text is what is left of it once the white space around it is taken away, with
/// that white space around it. What is left neither starts nor ends with any.
pub proof fn lemma_trimmed(s: Seq<char>)
    ensures
        exists|lead: Seq<char>, trail: Seq<char>| #[trigger]
            all_white(lead) && #[trigger] all_white(trail) && s == lead + trimmed(s) + trail,
        trimmed(s).len() > 0 ==> !white(trimmed(s)[0]) && !white(trimmed(s).last()),
{
    lemma_trimmed_start(s);
    let then = trimmed_start(s);
    lemma_trimmed_end(then);
    let lead = choose|lead: Seq<char>| #[trigger] all_white(lead) && s == lead + then;
    let trail = choose|trail: Seq<char>| #[trigger]
        all_white(trail) && then == trimmed_end(then) + trail;
    assert(s =~= lead + trimmed(s) + trail);
}

/// One part more is joined behind the separator.
proof fn lemma_joined_push(parts: Seq<Seq<char>>, part: Seq<char>, separator: Seq<char>)
    ensures
        parts.len() > 0 ==> joined(parts.push(part), separator) == joined(parts, separator)
            + separator + part,
        parts.len() == 0 ==> joined(parts.push(part), separator) == part,
{
    assert(parts.push(part).drop_last() =~= parts);
}

/// A list is spelled between square brackets, and one item more behind a comma. A
/// map is spelled between braces, and one entry more behind a comma, as its key, a
/// colon and what it holds.
pub proof fn lemma_value_spelled(
    items: Seq<Literal>,
    item: Literal,
    entries: Seq<(Seq<char>, Literal)>,
    entry: (Seq<char>, Literal),
)
    ensures
        spelling(Literal::List(Seq::empty())) == "["@ + "]"@,
        spelling(Literal::List(seq![item])) == "["@ + spelling(item) + "]"@,
        items.len() > 0 ==> exists|inside: Seq<char>| #[trigger]
            bracketed(spelling(Literal::List(items)), "["@, inside, "]"@) && bracketed(
                spelling(Literal::List(items.push(item))),
                "["@,
                inside + ", "@ + spelling(item),
                "]"@,
            ),
        spelling(Literal::Mapping(seq![entry])) == "{ "@ + (entry.0 + ": "@ + spelling(entry.1)) + " }"@,
        entries.len() > 0 ==> exists|inside: Seq<char>| #[trigger]
            bracketed(spelling(Literal::Mapping(entries)), "{ "@, inside, " }"@) && bracketed(
                spelling(Literal::Mapping(entries.push(entry))),
                "{ "@,
                inside + ", "@ + (entry.0 + ": "@ + spelling(entry.1)),
                " }"@,
            ),
        spelling(Literal::Bool(true)) == "true"@,
        spelling(Literal::Bool(false)) == "false"@,
        spelling(Literal::Null) == "null"@,
        forall|name: Seq<char>| #[trigger] spelling(Literal::Ident(name)) == name,
{
    let none = Seq::<Literal>::empty();
    assert(spellings(none) =~= Seq::<Seq<char>>::empty());
    assert(spelling(Literal::List(none)) =~= "["@ + "]"@);
    assert(spellings(seq![item]) =~= seq![spelling(item)]);
    assert(spellings(items.push(item)) =~= spellings(items).push(spelling(item)));
    lemma_joined_push(spellings(items), spelling(item), ", "@);
    if items.len() > 0 {
        let inside = joined(spellings(items), ", "@);
        assert(bracketed(spelling(Literal::List(items)), "["@, inside, "]"@));
    }
    let word = entry.0 + ": "@ + spelling(entry.1);
    assert(entry_spellings(seq![entry]) =~= seq![word]);
    assert(entry_spellings(entries.push(entry)) =~= entry_spellings(entries).push(word));
    lemma_joined_push(entry_spellings(entries), word, ", "@);
    if entries.len() > 0 {
        let inside = joined(entry_spellings(entries), ", "@);
        assert(bracketed(spelling(Literal::Mapping(entries)), "{ "@, inside, " }"@));
    }
}

/// Whether a text is `inside` with those two around it.
pub open spec fn bracketed(text: Seq<char>, open: Seq<char>, inside: Seq<char>, close: Seq<char>) -> bool {
    text == open + inside + close
}

/// What a check reads is spelled as its path with dots, each argument behind a
/// space, and behind them what it is narrowed to. What it states is spelled behind
/// that: how the two are held to one another, and the value.
pub proof fn lemma_check_spelled(
    check: CheckModel,
    part: Seq<char>,
    arg: Literal,
    column: Seq<char>,
    value: Literal,
)
    ensures
        check.args.len() == 0 && check.filter is None && check.observable.len() == 1
            ==> check.observed() == check.observable[0],
        check.args.len() == 0 && check.filter is None && check.observable.len() > 0 ==> (CheckModel {
            observable: check.observable.push(part),
            ..check
        }).observed() == check.observed() + "."@ + part,
        check.filter is None ==> (CheckModel { args: check.args.push(arg), ..check }).observed()
            == check.observed() + " "@ + spelling(arg),
        check.filter is None ==> (CheckModel {
            filter: Some((column, value)),
            ..check
        }).observed() == check.observed() + " "@ + ("where "@ + column + " = "@ + spelling(value)),
        check.clause() == check.observed() + " "@ + (match check.op {
            CmpOp::Eq => "=="@,
            CmpOp::Ne => "!="@,
            CmpOp::Lt => "<"@,
            CmpOp::Le => "<="@,
            CmpOp::Gt => ">"@,
            CmpOp::Ge => ">="@,
        }) + " "@ + spelling(check.value),
{
    let words = check.words();
    if check.filter is None {
        let more = CheckModel { args: check.args.push(arg), ..check };
        assert(spellings(check.args.push(arg)) =~= spellings(check.args).push(spelling(arg)));
        assert(more.words() =~= words.push(spelling(arg)));
        lemma_joined_push(words, spelling(arg), " "@);
        let narrowed = CheckModel { filter: Some((column, value)), ..check };
        let word = "where "@ + column + " = "@ + spelling(value);
        assert(narrowed.words() =~= words.push(word));
        lemma_joined_push(words, word, " "@);
        if check.args.len() == 0 {
            assert(words =~= seq![joined(check.observable, "."@)]);
            let deeper = CheckModel { observable: check.observable.push(part), ..check };
            assert(deeper.words() =~= seq![joined(deeper.observable, "."@)]);
            lemma_joined_push(check.observable, part, "."@);
            assert(joined(seq![joined(deeper.observable, "."@)], " "@) == joined(
                deeper.observable,
                "."@,
            ));
            assert(joined(seq![joined(check.observable, "."@)], " "@) == joined(
                check.observable,
                "."@,
            ));
        }
    }
}

} // verus!
