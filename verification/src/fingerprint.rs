//! The content hash of a plan: what of a plan is hashed, and that it is all of
//! it.

use std::collections::hash_map::DefaultHasher;
use std::hash::Hasher;

use vstd::prelude::*;
use vstd::std_specs::hash::*;
use vstd::utf8::encode_utf8;

use crate::plan::{
    lemma_list_literal, lemma_map_literal, Check, CheckModel, Fleet, FleetModel, Literal, Plan,
    PlanModel, Scenario, ScenarioModel, ServiceModel, SpecHash, Step, StepModel, Value,
};
use crate::schema::CmpOp;
use crate::time::{lemma_span_is_its_parts, Duration};

verus! {

/// What is written to the hasher, one write after another.
pub type Writes = Seq<Seq<u8>>;

/// A number in that many bytes, least significant first.
pub open spec fn little(n: nat, size: nat) -> Seq<u8>
    decreases size,
{
    if size == 0 {
        Seq::empty()
    } else {
        seq![(n % 256) as u8] + little(n / 256, (size - 1) as nat)
    }
}

/// A number as it is written.
pub open spec fn number(n: nat) -> Writes {
    seq![little(n, 8)]
}

/// A signed number as it is written, which is in two's complement.
pub open spec fn signed(n: i64) -> Writes {
    number(
        if n >= 0 {
            n as nat
        } else {
            (n + 0x1_0000_0000_0000_0000) as nat
        },
    )
}

/// A text as it is written.
pub open spec fn text(s: Seq<char>) -> Writes {
    seq![encode_utf8(s), seq![0xffu8]]
}

/// A span as it is written.
pub open spec fn span(d: Duration) -> Writes {
    seq![little(d.spec_secs() as nat, 8), little(d.spec_nanos() as nat, 4)]
}

/// A literal as it is written: which shape it has, and then what it holds.
pub open spec fn value(v: Literal) -> Writes
    decreases v,
{
    match v {
        Literal::Null => number(0),
        Literal::Str(s) => number(1) + text(s),
        Literal::Int(n) => number(2) + signed(n),
        Literal::Bool(b) => number(3) + seq![
            seq![
                if b {
                    1u8
                } else {
                    0u8
                },
            ],
        ],
        Literal::Duration(d) => number(4) + span(d),
        Literal::Ident(s) => number(5) + text(s),
        Literal::List(items) => number(6) + (number(items.len()) + values(items)),
        Literal::Mapping(held) => number(7) + (number(held.len()) + entries(held)),
    }
}

/// Literals as they are written, one behind another.
pub open spec fn values(items: Seq<Literal>) -> Writes
    decreases items,
{
    if items.len() == 0 {
        Seq::empty()
    } else {
        values(items.drop_last()) + value(items.last())
    }
}

/// Named literals as they are written, one behind another.
pub open spec fn entries(held: Seq<(Seq<char>, Literal)>) -> Writes
    decreases held,
{
    if held.len() == 0 {
        Seq::empty()
    } else {
        entries(held.drop_last()) + (text(held.last().0) + value(held.last().1))
    }
}

/// Texts as they are written, one behind another.
pub open spec fn texts(items: Seq<Seq<char>>) -> Writes
    decreases items.len(),
{
    if items.len() == 0 {
        Seq::empty()
    } else {
        texts(items.drop_last()) + text(items.last())
    }
}

/// A service as it is written.
pub open spec fn service(s: ServiceModel) -> Writes {
    text(s.name) + (number(s.kinds.len()) + (texts(s.kinds) + (number(s.attrs.len()) + entries(
        s.attrs,
    ))))
}

/// Services as they are written, one behind another.
pub open spec fn services(items: Seq<ServiceModel>) -> Writes
    decreases items.len(),
{
    if items.len() == 0 {
        Seq::empty()
    } else {
        services(items.drop_last()) + service(items.last())
    }
}

/// A fleet as it is written.
pub open spec fn fleet(f: FleetModel) -> Writes {
    text(f.name) + (text(f.deployment) + (number(f.services.len()) + services(f.services)))
}

/// A payload as it is written, whether there is one and then what it holds.
pub open spec fn payload(body: Option<Seq<(Seq<char>, Literal)>>) -> Writes {
    match body {
        None => number(0),
        Some(held) => number(1) + (number(held.len()) + entries(held)),
    }
}

/// A literal as it is written, where there is one.
pub open spec fn expectation(expect: Option<Literal>) -> Writes {
    match expect {
        None => number(0),
        Some(v) => number(1) + value(v),
    }
}

/// A step as it is written.
pub open spec fn step(s: StepModel) -> Writes {
    text(s.driver) + (text(s.operation) + (number(s.args.len()) + (values(s.args) + (payload(s.body)
        + expectation(s.expect)))))
}

/// Steps as they are written, one behind another.
pub open spec fn steps(items: Seq<StepModel>) -> Writes
    decreases items.len(),
{
    if items.len() == 0 {
        Seq::empty()
    } else {
        steps(items.drop_last()) + step(items.last())
    }
}

/// A filter as it is written, where there is one.
pub open spec fn filter(f: Option<(Seq<char>, Literal)>) -> Writes {
    match f {
        None => number(0),
        Some(named) => number(1) + (text(named.0) + value(named.1)),
    }
}

/// Where a comparison stands among the comparisons.
pub open spec fn rank(op: CmpOp) -> nat {
    match op {
        CmpOp::Eq => 0,
        CmpOp::Ne => 1,
        CmpOp::Lt => 2,
        CmpOp::Le => 3,
        CmpOp::Gt => 4,
        CmpOp::Ge => 5,
    }
}

/// A check as it is written.
pub open spec fn check(c: CheckModel) -> Writes {
    text(c.service) + (text(c.observer) + (number(c.observable.len()) + (texts(c.observable) + (
    number(c.args.len()) + (values(c.args) + (filter(c.filter) + (number(rank(c.op)) + value(
        c.value,
    ))))))))
}

/// Checks as they are written, one behind another.
pub open spec fn checks(items: Seq<CheckModel>) -> Writes
    decreases items.len(),
{
    if items.len() == 0 {
        Seq::empty()
    } else {
        checks(items.drop_last()) + check(items.last())
    }
}

/// A budget as it is written, where there is one.
pub open spec fn budget(b: Option<Duration>) -> Writes {
    match b {
        None => number(0),
        Some(d) => number(1) + span(d),
    }
}

/// A scenario as it is written.
pub open spec fn scenario(s: ScenarioModel) -> Writes {
    text(s.name) + (budget(s.budget) + (span(s.consistent_within) + (number(s.steps.len()) + (steps(
        s.steps,
    ) + (number(s.checks.len()) + checks(s.checks))))))
}

/// Scenarios as they are written, one behind another.
pub open spec fn scenarios(items: Seq<ScenarioModel>) -> Writes
    decreases items.len(),
{
    if items.len() == 0 {
        Seq::empty()
    } else {
        scenarios(items.drop_last()) + scenario(items.last())
    }
}

/// A plan as it is written.
pub open spec fn plan(p: PlanModel) -> Writes {
    fleet(p.fleet) + (number(p.scenarios.len()) + scenarios(p.scenarios))
}

fn little_endian(n: u64, size: usize) -> (r: Vec<u8>)
    ensures
        r@ == little(n as nat, size as nat),
{
    let mut out: Vec<u8> = Vec::new();
    let mut rest: u64 = n;
    let ghost whole = little(n as nat, size as nat);
    for i in 0..size
        invariant
            out@ + little(rest as nat, (size - i) as nat) == whole,
    {
        let ghost tail = little(rest as nat / 256, (size - i - 1) as nat);
        let ghost before = out@;
        out.push((rest % 256) as u8);
        rest = rest / 256;
        proof {
            assert(before + (seq![out@.last()] + tail) =~= out@ + tail);
        }
    }
    assert(out@ + Seq::<u8>::empty() =~= out@);
    out
}

fn write_number(h: &mut DefaultHasher, n: u64)
    ensures
        final(h)@ == old(h)@ + number(n as nat),
{
    let bytes = little_endian(n, 8);
    h.write(bytes.as_slice());
    assert(h@ =~= old(h)@ + number(n as nat));
}

fn write_text(h: &mut DefaultHasher, s: &str)
    ensures
        final(h)@ == old(h)@ + text(s@),
{
    h.write(s.as_bytes());
    let end = vec![0xffu8];
    assert(end@ =~= seq![0xffu8]);
    h.write(end.as_slice());
    assert(h@ =~= old(h)@ + text(s@));
}

fn write_span(h: &mut DefaultHasher, d: &Duration)
    ensures
        final(h)@ == old(h)@ + span(*d),
{
    let secs = little_endian(d.as_secs(), 8);
    h.write(secs.as_slice());
    let nanos = little_endian(d.subsec_nanos() as u64, 4);
    h.write(nanos.as_slice());
    assert(h@ =~= old(h)@ + span(*d));
}

fn write_value(h: &mut DefaultHasher, v: &Value)
    ensures
        final(h)@ == old(h)@ + value(v.deep_view()),
    decreases v,
{
    let ghost start = h@;
    match v {
        Value::Null => write_number(h, 0),
        Value::Str(s) => {
            write_number(h, 1);
            write_text(h, s.as_str());
        },
        Value::Int(n) => {
            write_number(h, 2);
            let n: i64 = *n;
            let bits: u64 = if n >= 0 {
                n as u64
            } else {
                (n as i128 + 0x1_0000_0000_0000_0000i128) as u64
            };
            write_number(h, bits);
        },
        Value::Bool(b) => {
            write_number(h, 3);
            let byte: u8 = if *b {
                1
            } else {
                0
            };
            let bytes = vec![byte];
            assert(bytes@ =~= seq![byte]);
            h.write(bytes.as_slice());
        },
        Value::Duration(d) => {
            write_number(h, 4);
            write_span(h, d);
        },
        Value::Ident(s) => {
            write_number(h, 5);
            write_text(h, s.as_str());
        },
        Value::List(items) => {
            write_number(h, 6);
            write_number(h, items.len() as u64);
            let ghost model = items.deep_view();
            let ghost head = h@;
            assert(head + values(model.take(0)) =~= head);
            for i in 0..items.len()
                invariant
                    v is List,
                    *items == v->List_0,
                    model == items.deep_view(),
                    h@ == head + values(model.take(i as int)),
            {
                let ghost so_far = values(model.take(i as int));
                write_value(h, &items[i]);
                proof {
                    assert(model[i as int] == items@[i as int].deep_view());
                    assert(model.take(i + 1).drop_last() =~= model.take(i as int));
                    assert(head + so_far + value(model[i as int]) =~= head + (so_far + value(
                        model[i as int],
                    )));
                }
            }
            proof {
                lemma_list_literal(*items);
                assert(model.take(model.len() as int) =~= model);
            }
        },
        Value::Mapping(held) => {
            write_number(h, 7);
            write_number(h, held.len() as u64);
            let ghost model = held.deep_view();
            let ghost head = h@;
            assert(head + entries(model.take(0)) =~= head);
            for i in 0..held.len()
                invariant
                    v is Mapping,
                    *held == v->Mapping_0,
                    model == held.deep_view(),
                    h@ == head + entries(model.take(i as int)),
            {
                let ghost so_far = entries(model.take(i as int));
                write_text(h, held[i].0.as_str());
                write_value(h, &held[i].1);
                proof {
                    assert(model[i as int] == held@[i as int].deep_view());
                    assert(model.take(i + 1).drop_last() =~= model.take(i as int));
                    let more = text(model[i as int].0) + value(model[i as int].1);
                    assert(head + so_far + text(model[i as int].0) + value(model[i as int].1)
                        =~= head + (so_far + more));
                }
            }
            proof {
                lemma_map_literal(*held);
                assert(model.take(model.len() as int) =~= model);
            }
        },
    }
    assert(h@ =~= start + value(v.deep_view()));
}

fn write_values(h: &mut DefaultHasher, items: &[Value])
    ensures
        final(h)@ == old(h)@ + (number(items.deep_view().len()) + values(items.deep_view())),
{
    let ghost start = h@;
    write_number(h, items.len() as u64);
    let ghost model = items.deep_view();
    let ghost head = h@;
    assert(head + values(model.take(0)) =~= head);
    for i in 0..items.len()
        invariant
            model == items.deep_view(),
            h@ == head + values(model.take(i as int)),
    {
        let ghost so_far = values(model.take(i as int));
        write_value(h, &items[i]);
        proof {
            assert(model[i as int] == items@[i as int].deep_view());
            assert(model.take(i + 1).drop_last() =~= model.take(i as int));
            let more = value(model[i as int]);
            assert(head + so_far + more =~= head + (so_far + more));
        }
    }
    assert(model.take(model.len() as int) =~= model);
    assert(h@ =~= start + (number(model.len()) + values(model)));
}

fn write_entries(h: &mut DefaultHasher, held: &[(String, Value)])
    ensures
        final(h)@ == old(h)@ + (number(held.deep_view().len()) + entries(held.deep_view())),
{
    let ghost start = h@;
    write_number(h, held.len() as u64);
    let ghost model = held.deep_view();
    let ghost head = h@;
    assert(head + entries(model.take(0)) =~= head);
    for i in 0..held.len()
        invariant
            model == held.deep_view(),
            h@ == head + entries(model.take(i as int)),
    {
        let ghost so_far = entries(model.take(i as int));
        write_text(h, held[i].0.as_str());
        write_value(h, &held[i].1);
        proof {
            assert(model[i as int] == held@[i as int].deep_view());
            assert(model.take(i + 1).drop_last() =~= model.take(i as int));
            let more = text(model[i as int].0) + value(model[i as int].1);
            assert(head + so_far + text(model[i as int].0) + value(model[i as int].1) =~= head + (
            so_far + more));
        }
    }
    assert(model.take(model.len() as int) =~= model);
    assert(h@ =~= start + (number(model.len()) + entries(model)));
}

fn write_texts(h: &mut DefaultHasher, items: &[String])
    ensures
        final(h)@ == old(h)@ + (number(items.deep_view().len()) + texts(items.deep_view())),
{
    let ghost start = h@;
    write_number(h, items.len() as u64);
    let ghost model = items.deep_view();
    let ghost head = h@;
    assert(head + texts(model.take(0)) =~= head);
    for i in 0..items.len()
        invariant
            model == items.deep_view(),
            h@ == head + texts(model.take(i as int)),
    {
        let ghost so_far = texts(model.take(i as int));
        write_text(h, items[i].as_str());
        proof {
            assert(model[i as int] == items@[i as int]@);
            assert(model.take(i + 1).drop_last() =~= model.take(i as int));
            let more = text(model[i as int]);
            assert(head + so_far + more =~= head + (so_far + more));
        }
    }
    assert(model.take(model.len() as int) =~= model);
    assert(h@ =~= start + (number(model.len()) + texts(model)));
}

fn write_fleet(h: &mut DefaultHasher, f: &Fleet)
    ensures
        final(h)@ == old(h)@ + fleet(f.deep_view()),
{
    let ghost start = h@;
    write_text(h, f.name.as_str());
    write_text(h, f.deployment.as_str());
    write_number(h, f.services.len() as u64);
    let ghost model = f.services.deep_view();
    let ghost head = h@;
    assert(head + services(model.take(0)) =~= head);
    for i in 0..f.services.len()
        invariant
            model == f.services.deep_view(),
            h@ == head + services(model.take(i as int)),
    {
        let ghost so_far = h@;
        let s = &f.services[i];
        write_text(h, s.name.as_str());
        let kinds = s.kinds.as_slice();
        write_texts(h, kinds);
        let attrs = s.attrs.as_slice();
        write_entries(h, attrs);
        proof {
            assert(model[i as int] == f.services@[i as int].deep_view());
            assert(model.take(i + 1).drop_last() =~= model.take(i as int));
            assert(kinds.deep_view() =~= s.kinds.deep_view());
            assert(attrs.deep_view() =~= s.attrs.deep_view());
            assert(h@ =~= so_far + service(model[i as int]));
            assert(h@ =~= head + (services(model.take(i as int)) + service(model[i as int])));
        }
    }
    assert(model.take(model.len() as int) =~= model);
    assert(h@ =~= start + fleet(f.deep_view()));
}

fn write_step(h: &mut DefaultHasher, s: &Step)
    ensures
        final(h)@ == old(h)@ + step(s.deep_view()),
{
    let ghost start = h@;
    write_text(h, s.driver.as_str());
    write_text(h, s.operation.as_str());
    let args = s.args.as_slice();
    write_values(h, args);
    let ghost before_body = h@;
    match &s.body {
        None => write_number(h, 0),
        Some(held) => {
            write_number(h, 1);
            let body = held.as_slice();
            write_entries(h, body);
            assert(body.deep_view() =~= held.deep_view());
        },
    }
    assert(h@ =~= before_body + payload(s.body.deep_view()));
    let ghost before_expect = h@;
    match &s.expect {
        None => write_number(h, 0),
        Some(v) => {
            write_number(h, 1);
            write_value(h, v);
        },
    }
    proof {
        assert(h@ =~= before_expect + expectation(s.expect.deep_view()));
        assert(args.deep_view() =~= s.args.deep_view());
        assert(h@ =~= start + step(s.deep_view()));
    }
}

fn write_op(h: &mut DefaultHasher, op: CmpOp)
    ensures
        final(h)@ == old(h)@ + number(rank(op)),
{
    match op {
        CmpOp::Eq => write_number(h, 0),
        CmpOp::Ne => write_number(h, 1),
        CmpOp::Lt => write_number(h, 2),
        CmpOp::Le => write_number(h, 3),
        CmpOp::Gt => write_number(h, 4),
        CmpOp::Ge => write_number(h, 5),
    }
}

fn write_check(h: &mut DefaultHasher, c: &Check)
    ensures
        final(h)@ == old(h)@ + check(c.deep_view()),
{
    let ghost start = h@;
    write_text(h, c.service.as_str());
    write_text(h, c.observer.as_str());
    let observable = c.observable.as_slice();
    write_texts(h, observable);
    let args = c.args.as_slice();
    write_values(h, args);
    let ghost before_filter = h@;
    match &c.filter {
        None => write_number(h, 0),
        Some(named) => {
            write_number(h, 1);
            write_text(h, named.0.as_str());
            write_value(h, &named.1);
        },
    }
    assert(h@ =~= before_filter + filter(c.filter.deep_view()));
    write_op(h, c.op);
    write_value(h, &c.value);
    proof {
        assert(observable.deep_view() =~= c.observable.deep_view());
        assert(args.deep_view() =~= c.args.deep_view());
        assert(h@ =~= start + check(c.deep_view()));
    }
}

fn write_steps(h: &mut DefaultHasher, items: &[Step])
    ensures
        final(h)@ == old(h)@ + (number(items.deep_view().len()) + steps(items.deep_view())),
{
    let ghost start = h@;
    write_number(h, items.len() as u64);
    let ghost model = items.deep_view();
    let ghost head = h@;
    assert(head + steps(model.take(0)) =~= head);
    for i in 0..items.len()
        invariant
            model == items.deep_view(),
            h@ == head + steps(model.take(i as int)),
    {
        let ghost so_far = steps(model.take(i as int));
        write_step(h, &items[i]);
        proof {
            assert(model[i as int] == items@[i as int].deep_view());
            assert(model.take(i + 1).drop_last() =~= model.take(i as int));
            let more = step(model[i as int]);
            assert(head + so_far + more =~= head + (so_far + more));
        }
    }
    assert(model.take(model.len() as int) =~= model);
    assert(h@ =~= start + (number(model.len()) + steps(model)));
}

fn write_checks(h: &mut DefaultHasher, items: &[Check])
    ensures
        final(h)@ == old(h)@ + (number(items.deep_view().len()) + checks(items.deep_view())),
{
    let ghost start = h@;
    write_number(h, items.len() as u64);
    let ghost model = items.deep_view();
    let ghost head = h@;
    assert(head + checks(model.take(0)) =~= head);
    for i in 0..items.len()
        invariant
            model == items.deep_view(),
            h@ == head + checks(model.take(i as int)),
    {
        let ghost so_far = checks(model.take(i as int));
        write_check(h, &items[i]);
        proof {
            assert(model[i as int] == items@[i as int].deep_view());
            assert(model.take(i + 1).drop_last() =~= model.take(i as int));
            let more = check(model[i as int]);
            assert(head + so_far + more =~= head + (so_far + more));
        }
    }
    assert(model.take(model.len() as int) =~= model);
    assert(h@ =~= start + (number(model.len()) + checks(model)));
}

fn write_budget(h: &mut DefaultHasher, b: &Option<Duration>)
    ensures
        final(h)@ == old(h)@ + budget(*b),
{
    let ghost start = h@;
    match b {
        None => write_number(h, 0),
        Some(d) => {
            write_number(h, 1);
            write_span(h, d);
        },
    }
    assert(h@ =~= start + budget(*b));
}

fn write_scenario(h: &mut DefaultHasher, s: &Scenario)
    ensures
        final(h)@ == old(h)@ + scenario(s.deep_view()),
{
    let ghost start = h@;
    write_text(h, s.name.as_str());
    write_budget(h, &s.budget);
    write_span(h, &s.consistent_within);
    let steps_of = s.steps.as_slice();
    write_steps(h, steps_of);
    let checks_of = s.checks.as_slice();
    write_checks(h, checks_of);
    proof {
        assert(steps_of.deep_view() =~= s.steps.deep_view());
        assert(checks_of.deep_view() =~= s.checks.deep_view());
        let model = s.deep_view();
        let (a, b, c) = (text(model.name), budget(model.budget), span(model.consistent_within));
        let (n, d) = (number(model.steps.len()), steps(model.steps));
        let rest = number(model.checks.len()) + checks(model.checks);
        assert(start + a + b + c + (n + d) + rest =~= start + (a + (b + (c + (n + (d + rest))))));
    }
}

impl Plan {
    /// A content hash over the lowered plan, for the recording-cache drift key.
    pub fn spec_hash(&self) -> (r: SpecHash)
        ensures
            r.0 == DefaultHasher::spec_finish(plan(self.deep_view())),
    {
        let mut hasher = DefaultHasher::new();
        write_fleet(&mut hasher, &self.fleet);
        write_number(&mut hasher, self.scenarios.len() as u64);
        let ghost model = self.scenarios.deep_view();
        let ghost head = hasher@;
        assert(head + scenarios(model.take(0)) =~= head);
        for i in 0..self.scenarios.len()
            invariant
                model == self.scenarios.deep_view(),
                hasher@ == head + scenarios(model.take(i as int)),
        {
            let ghost so_far = scenarios(model.take(i as int));
            write_scenario(&mut hasher, &self.scenarios[i]);
            proof {
                assert(model[i as int] == self.scenarios@[i as int].deep_view());
                assert(model.take(i + 1).drop_last() =~= model.take(i as int));
                let more = scenario(model[i as int]);
                assert(head + so_far + more =~= head + (so_far + more));
            }
        }
        assert(model.take(model.len() as int) =~= model);
        assert(hasher@ =~= plan(self.deep_view()));
        SpecHash(hasher.finish())
    }
}

/// Whether a length is one a collection can have.
pub open spec fn countable(n: nat) -> bool {
    n <= u64::MAX
}

/// Whether every collection in a literal has a length one can have.
pub open spec fn measured(v: Literal) -> bool
    decreases v,
{
    match v {
        Literal::List(items) => countable(items.len()) && all_measured(items),
        Literal::Mapping(held) => countable(held.len()) && entries_measured(held),
        _ => true,
    }
}

/// Whether every collection in each literal has a length one can have.
pub open spec fn all_measured(items: Seq<Literal>) -> bool
    decreases items,
{
    items.len() > 0 ==> all_measured(items.drop_last()) && measured(items.last())
}

/// Whether every collection in each named literal has a length one can have.
pub open spec fn entries_measured(held: Seq<(Seq<char>, Literal)>) -> bool
    decreases held,
{
    held.len() > 0 ==> entries_measured(held.drop_last()) && measured(held.last().1)
}

/// Whether every collection in a service has a length one can have.
pub open spec fn service_measured(s: ServiceModel) -> bool {
    countable(s.kinds.len()) && countable(s.attrs.len()) && entries_measured(s.attrs)
}

/// Whether every collection in a step has a length one can have.
pub open spec fn step_measured(s: StepModel) -> bool {
    &&& countable(s.args.len()) && all_measured(s.args)
    &&& s.body matches Some(held) ==> countable(held.len()) && entries_measured(held)
    &&& s.expect matches Some(v) ==> measured(v)
}

/// Whether every collection in a check has a length one can have.
pub open spec fn check_measured(c: CheckModel) -> bool {
    &&& countable(c.observable.len())
    &&& countable(c.args.len()) && all_measured(c.args)
    &&& c.filter matches Some(named) ==> measured(named.1)
    &&& measured(c.value)
}

/// Whether every collection in a scenario has a length one can have.
pub open spec fn scenario_measured(s: ScenarioModel) -> bool {
    &&& countable(s.steps.len()) && countable(s.checks.len())
    &&& forall|i: int| 0 <= i < s.steps.len() ==> step_measured(#[trigger] s.steps[i])
    &&& forall|i: int| 0 <= i < s.checks.len() ==> check_measured(#[trigger] s.checks[i])
}

/// Whether every collection in a plan has a length one can have.
pub open spec fn plan_measured(p: PlanModel) -> bool {
    &&& countable(p.fleet.services.len()) && countable(p.scenarios.len())
    &&& forall|i: int|
        0 <= i < p.fleet.services.len() ==> service_measured(#[trigger] p.fleet.services[i])
    &&& forall|i: int| 0 <= i < p.scenarios.len() ==> scenario_measured(#[trigger] p.scenarios[i])
}

/// Where two runs of writes agree and so do the lengths they start with, what
/// they start with agrees, and so does the rest.
proof fn lemma_split(a: Writes, x: Writes, b: Writes, y: Writes)
    requires
        a + x == b + y,
        a.len() == b.len(),
    ensures
        a == b,
        x == y,
{
    let n = a.len() as int;
    assert((a + x).take(n) =~= a);
    assert((b + y).take(n) =~= b);
    assert((a + x).skip(n) =~= x);
    assert((b + y).skip(n) =~= y);
}

proof fn lemma_assoc(a: Writes, b: Writes, c: Writes)
    ensures
        a + (b + c) == a + b + c,
{
    assert(a + (b + c) =~= a + b + c);
}

/// Whether a number fits in that many bytes.
spec fn bounded(n: nat, size: nat) -> bool
    decreases size,
{
    if size == 0 {
        n == 0
    } else {
        bounded(n / 256, (size - 1) as nat)
    }
}

proof fn lemma_little(a: nat, b: nat, size: nat)
    requires
        little(a, size) == little(b, size),
        bounded(a, size),
        bounded(b, size),
    ensures
        a == b,
    decreases size,
{
    if size > 0 {
        let x = little(a, size);
        let y = little(b, size);
        assert(x[0] == (a % 256) as u8 && y[0] == (b % 256) as u8);
        assert(x.skip(1) =~= little(a / 256, (size - 1) as nat));
        assert(y.skip(1) =~= little(b / 256, (size - 1) as nat));
        lemma_little(a / 256, b / 256, (size - 1) as nat);
    }
}

proof fn lemma_number(a: nat, x: Writes, b: nat, y: Writes)
    requires
        number(a) + x == number(b) + y,
        countable(a),
        countable(b),
    ensures
        a == b,
        x == y,
{
    lemma_split(number(a), x, number(b), y);
    assert(number(a)[0] == number(b)[0]);
    reveal_with_fuel(bounded, 9);
    lemma_little(a, b, 8);
}

proof fn lemma_text(a: Seq<char>, x: Writes, b: Seq<char>, y: Writes)
    requires
        text(a) + x == text(b) + y,
    ensures
        a == b,
        x == y,
{
    lemma_split(text(a), x, text(b), y);
    assert(text(a)[0] == text(b)[0]);
    vstd::utf8::encode_utf8_decode_utf8(a);
    vstd::utf8::encode_utf8_decode_utf8(b);
}

proof fn lemma_span(a: Duration, x: Writes, b: Duration, y: Writes)
    requires
        span(a) + x == span(b) + y,
    ensures
        a == b,
        x == y,
{
    lemma_split(span(a), x, span(b), y);
    assert(span(a)[0] == span(b)[0] && span(a)[1] == span(b)[1]);
    reveal_with_fuel(bounded, 9);
    lemma_little(a.spec_secs() as nat, b.spec_secs() as nat, 8);
    lemma_little(a.spec_nanos() as nat, b.spec_nanos() as nat, 4);
    lemma_span_is_its_parts(a, b);
}

/// Which shape a literal has.
spec fn shape(v: Literal) -> nat {
    match v {
        Literal::Null => 0,
        Literal::Str(_) => 1,
        Literal::Int(_) => 2,
        Literal::Bool(_) => 3,
        Literal::Duration(_) => 4,
        Literal::Ident(_) => 5,
        Literal::List(_) => 6,
        Literal::Mapping(_) => 7,
    }
}

/// What is written of a literal behind its shape.
spec fn inner(v: Literal) -> Writes {
    value(v).skip(1)
}

proof fn lemma_shape(v: Literal)
    ensures
        value(v) == number(shape(v)) + inner(v),
{
    assert(value(v)[0] == little(shape(v), 8));
    assert(value(v) =~= number(shape(v)) + inner(v));
}

proof fn lemma_value(a: Literal, x: Writes, b: Literal, y: Writes)
    requires
        value(a) + x == value(b) + y,
        measured(a),
        measured(b),
    ensures
        a == b,
        x == y,
    decreases a,
{
    lemma_shape(a);
    lemma_shape(b);
    lemma_assoc(number(shape(a)), inner(a), x);
    lemma_assoc(number(shape(b)), inner(b), y);
    lemma_number(shape(a), inner(a) + x, shape(b), inner(b) + y);
    match (a, b) {
        (Literal::Null, Literal::Null) => {
            assert(inner(a) =~= Seq::empty());
            assert(inner(a) + x =~= x);
            assert(inner(b) + y =~= y);
        },
        (Literal::Str(s), Literal::Str(t)) => {
            assert(inner(a) =~= text(s));
            assert(inner(b) =~= text(t));
            lemma_text(s, x, t, y);
        },
        (Literal::Int(m), Literal::Int(n)) => {
            assert(inner(a) =~= signed(m));
            assert(inner(b) =~= signed(n));
            let u = if m >= 0 {
                m as nat
            } else {
                (m + 0x1_0000_0000_0000_0000) as nat
            };
            let w = if n >= 0 {
                n as nat
            } else {
                (n + 0x1_0000_0000_0000_0000) as nat
            };
            lemma_number(u, x, w, y);
        },
        (Literal::Bool(_), Literal::Bool(_)) => {
            lemma_split(inner(a), x, inner(b), y);
            assert(inner(a)[0][0] == inner(b)[0][0]);
        },
        (Literal::Duration(c), Literal::Duration(d)) => {
            assert(inner(a) =~= span(c));
            assert(inner(b) =~= span(d));
            lemma_span(c, x, d, y);
        },
        (Literal::Ident(s), Literal::Ident(t)) => {
            assert(inner(a) =~= text(s));
            assert(inner(b) =~= text(t));
            lemma_text(s, x, t, y);
        },
        (Literal::List(c), Literal::List(d)) => {
            assert(inner(a) =~= number(c.len()) + values(c));
            assert(inner(b) =~= number(d.len()) + values(d));
            lemma_assoc(number(c.len()), values(c), x);
            lemma_assoc(number(d.len()), values(d), y);
            lemma_number(c.len(), values(c) + x, d.len(), values(d) + y);
            lemma_values(c, x, d, y);
        },
        (Literal::Mapping(c), Literal::Mapping(d)) => {
            assert(inner(a) =~= number(c.len()) + entries(c));
            assert(inner(b) =~= number(d.len()) + entries(d));
            lemma_assoc(number(c.len()), entries(c), x);
            lemma_assoc(number(d.len()), entries(d), y);
            lemma_number(c.len(), entries(c) + x, d.len(), entries(d) + y);
            lemma_entries(c, x, d, y);
        },
        _ => {},
    }
}

proof fn lemma_values(a: Seq<Literal>, x: Writes, b: Seq<Literal>, y: Writes)
    requires
        values(a) + x == values(b) + y,
        a.len() == b.len(),
        all_measured(a),
        all_measured(b),
    ensures
        a == b,
        x == y,
    decreases a,
{
    if a.len() > 0 {
        let (c, v) = (a.drop_last(), a.last());
        let (d, w) = (b.drop_last(), b.last());
        lemma_assoc(values(c), value(v), x);
        lemma_assoc(values(d), value(w), y);
        lemma_values(c, value(v) + x, d, value(w) + y);
        lemma_value(v, x, w, y);
        assert(a =~= c.push(v));
        assert(b =~= d.push(w));
    } else {
        assert(values(a) + x =~= x);
        assert(values(b) + y =~= y);
        assert(a =~= b);
    }
}

proof fn lemma_entries(
    a: Seq<(Seq<char>, Literal)>,
    x: Writes,
    b: Seq<(Seq<char>, Literal)>,
    y: Writes,
)
    requires
        entries(a) + x == entries(b) + y,
        a.len() == b.len(),
        entries_measured(a),
        entries_measured(b),
    ensures
        a == b,
        x == y,
    decreases a,
{
    if a.len() > 0 {
        let (c, v) = (a.drop_last(), a.last());
        let (d, w) = (b.drop_last(), b.last());
        lemma_assoc(entries(c), text(v.0) + value(v.1), x);
        lemma_assoc(entries(d), text(w.0) + value(w.1), y);
        lemma_entries(c, text(v.0) + value(v.1) + x, d, text(w.0) + value(w.1) + y);
        lemma_assoc(text(v.0), value(v.1), x);
        lemma_assoc(text(w.0), value(w.1), y);
        lemma_text(v.0, value(v.1) + x, w.0, value(w.1) + y);
        lemma_value(v.1, x, w.1, y);
        assert(a =~= c.push(v));
        assert(b =~= d.push(w));
    } else {
        assert(entries(a) + x =~= x);
        assert(entries(b) + y =~= y);
        assert(a =~= b);
    }
}

proof fn lemma_texts(a: Seq<Seq<char>>, x: Writes, b: Seq<Seq<char>>, y: Writes)
    requires
        texts(a) + x == texts(b) + y,
        a.len() == b.len(),
    ensures
        a == b,
        x == y,
    decreases a.len(),
{
    if a.len() > 0 {
        let (c, v) = (a.drop_last(), a.last());
        let (d, w) = (b.drop_last(), b.last());
        lemma_assoc(texts(c), text(v), x);
        lemma_assoc(texts(d), text(w), y);
        lemma_texts(c, text(v) + x, d, text(w) + y);
        lemma_text(v, x, w, y);
        assert(a =~= c.push(v));
        assert(b =~= d.push(w));
    } else {
        assert(texts(a) + x =~= x);
        assert(texts(b) + y =~= y);
        assert(a =~= b);
    }
}

proof fn lemma_counted_texts(a: Seq<Seq<char>>, x: Writes, b: Seq<Seq<char>>, y: Writes)
    requires
        number(a.len()) + (texts(a) + x) == number(b.len()) + (texts(b) + y),
        countable(a.len()),
        countable(b.len()),
    ensures
        a == b,
        x == y,
{
    lemma_number(a.len(), texts(a) + x, b.len(), texts(b) + y);
    lemma_texts(a, x, b, y);
}

proof fn lemma_counted_values(a: Seq<Literal>, x: Writes, b: Seq<Literal>, y: Writes)
    requires
        number(a.len()) + (values(a) + x) == number(b.len()) + (values(b) + y),
        countable(a.len()) && all_measured(a),
        countable(b.len()) && all_measured(b),
    ensures
        a == b,
        x == y,
{
    lemma_number(a.len(), values(a) + x, b.len(), values(b) + y);
    lemma_values(a, x, b, y);
}

proof fn lemma_counted_entries(
    a: Seq<(Seq<char>, Literal)>,
    x: Writes,
    b: Seq<(Seq<char>, Literal)>,
    y: Writes,
)
    requires
        number(a.len()) + (entries(a) + x) == number(b.len()) + (entries(b) + y),
        countable(a.len()) && entries_measured(a),
        countable(b.len()) && entries_measured(b),
    ensures
        a == b,
        x == y,
{
    lemma_number(a.len(), entries(a) + x, b.len(), entries(b) + y);
    lemma_entries(a, x, b, y);
}

proof fn lemma_service(a: ServiceModel, x: Writes, b: ServiceModel, y: Writes)
    requires
        service(a) + x == service(b) + y,
        service_measured(a),
        service_measured(b),
    ensures
        a == b,
        x == y,
{
    let held_a = entries(a.attrs);
    let held_b = entries(b.attrs);
    let (na, nb) = (number(a.attrs.len()), number(b.attrs.len()));
    let (ka, kb) = (texts(a.kinds), texts(b.kinds));
    let (ma, mb) = (number(a.kinds.len()), number(b.kinds.len()));
    let rest_a = na + (held_a + x);
    let rest_b = nb + (held_b + y);
    assert(service(a) + x =~= text(a.name) + (ma + (ka + rest_a)));
    assert(service(b) + y =~= text(b.name) + (mb + (kb + rest_b)));
    lemma_text(a.name, ma + (ka + rest_a), b.name, mb + (kb + rest_b));
    lemma_counted_texts(a.kinds, rest_a, b.kinds, rest_b);
    lemma_counted_entries(a.attrs, x, b.attrs, y);
}

proof fn lemma_services(a: Seq<ServiceModel>, x: Writes, b: Seq<ServiceModel>, y: Writes)
    requires
        services(a) + x == services(b) + y,
        a.len() == b.len(),
        forall|i: int| 0 <= i < a.len() ==> service_measured(#[trigger] a[i]),
        forall|i: int| 0 <= i < b.len() ==> service_measured(#[trigger] b[i]),
    ensures
        a == b,
        x == y,
    decreases a.len(),
{
    if a.len() > 0 {
        let (c, v) = (a.drop_last(), a.last());
        let (d, w) = (b.drop_last(), b.last());
        lemma_assoc(services(c), service(v), x);
        lemma_assoc(services(d), service(w), y);
        lemma_services(c, service(v) + x, d, service(w) + y);
        lemma_service(v, x, w, y);
        assert(a =~= c.push(v));
        assert(b =~= d.push(w));
    } else {
        assert(services(a) + x =~= x);
        assert(services(b) + y =~= y);
        assert(a =~= b);
    }
}

proof fn lemma_fleet(a: FleetModel, x: Writes, b: FleetModel, y: Writes)
    requires
        fleet(a) + x == fleet(b) + y,
        countable(a.services.len()),
        countable(b.services.len()),
        forall|i: int| 0 <= i < a.services.len() ==> service_measured(#[trigger] a.services[i]),
        forall|i: int| 0 <= i < b.services.len() ==> service_measured(#[trigger] b.services[i]),
    ensures
        a == b,
        x == y,
{
    let rest_a = number(a.services.len()) + (services(a.services) + x);
    let rest_b = number(b.services.len()) + (services(b.services) + y);
    assert(fleet(a) + x =~= text(a.name) + (text(a.deployment) + rest_a));
    assert(fleet(b) + y =~= text(b.name) + (text(b.deployment) + rest_b));
    lemma_text(a.name, text(a.deployment) + rest_a, b.name, text(b.deployment) + rest_b);
    lemma_text(a.deployment, rest_a, b.deployment, rest_b);
    lemma_number(
        a.services.len(),
        services(a.services) + x,
        b.services.len(),
        services(b.services) + y,
    );
    lemma_services(a.services, x, b.services, y);
}

proof fn lemma_payload(
    a: Option<Seq<(Seq<char>, Literal)>>,
    x: Writes,
    b: Option<Seq<(Seq<char>, Literal)>>,
    y: Writes,
)
    requires
        payload(a) + x == payload(b) + y,
        a matches Some(held) ==> countable(held.len()) && entries_measured(held),
        b matches Some(held) ==> countable(held.len()) && entries_measured(held),
    ensures
        a == b,
        x == y,
{
    let rest_a = match a {
        None => x,
        Some(held) => number(held.len()) + (entries(held) + x),
    };
    let rest_b = match b {
        None => y,
        Some(held) => number(held.len()) + (entries(held) + y),
    };
    let tag_a: nat = if a is Some {
        1
    } else {
        0
    };
    let tag_b: nat = if b is Some {
        1
    } else {
        0
    };
    assert(payload(a) + x =~= number(tag_a) + rest_a);
    assert(payload(b) + y =~= number(tag_b) + rest_b);
    lemma_number(tag_a, rest_a, tag_b, rest_b);
    if a is Some {
        lemma_counted_entries(a->0, x, b->0, y);
    }
}

proof fn lemma_expectation(a: Option<Literal>, x: Writes, b: Option<Literal>, y: Writes)
    requires
        expectation(a) + x == expectation(b) + y,
        a matches Some(v) ==> measured(v),
        b matches Some(v) ==> measured(v),
    ensures
        a == b,
        x == y,
{
    let rest_a = match a {
        None => x,
        Some(v) => value(v) + x,
    };
    let rest_b = match b {
        None => y,
        Some(v) => value(v) + y,
    };
    let tag_a: nat = if a is Some {
        1
    } else {
        0
    };
    let tag_b: nat = if b is Some {
        1
    } else {
        0
    };
    assert(expectation(a) + x =~= number(tag_a) + rest_a);
    assert(expectation(b) + y =~= number(tag_b) + rest_b);
    lemma_number(tag_a, rest_a, tag_b, rest_b);
    if a is Some {
        lemma_value(a->0, x, b->0, y);
    }
}

proof fn lemma_filter(
    a: Option<(Seq<char>, Literal)>,
    x: Writes,
    b: Option<(Seq<char>, Literal)>,
    y: Writes,
)
    requires
        filter(a) + x == filter(b) + y,
        a matches Some(named) ==> measured(named.1),
        b matches Some(named) ==> measured(named.1),
    ensures
        a == b,
        x == y,
{
    let rest_a = match a {
        None => x,
        Some(named) => text(named.0) + (value(named.1) + x),
    };
    let rest_b = match b {
        None => y,
        Some(named) => text(named.0) + (value(named.1) + y),
    };
    let tag_a: nat = if a is Some {
        1
    } else {
        0
    };
    let tag_b: nat = if b is Some {
        1
    } else {
        0
    };
    assert(filter(a) + x =~= number(tag_a) + rest_a);
    assert(filter(b) + y =~= number(tag_b) + rest_b);
    lemma_number(tag_a, rest_a, tag_b, rest_b);
    if a is Some {
        let (c, d) = (a->0, b->0);
        lemma_text(c.0, value(c.1) + x, d.0, value(d.1) + y);
        lemma_value(c.1, x, d.1, y);
    }
}

proof fn lemma_budget(a: Option<Duration>, x: Writes, b: Option<Duration>, y: Writes)
    requires
        budget(a) + x == budget(b) + y,
    ensures
        a == b,
        x == y,
{
    let rest_a = match a {
        None => x,
        Some(d) => span(d) + x,
    };
    let rest_b = match b {
        None => y,
        Some(d) => span(d) + y,
    };
    let tag_a: nat = if a is Some {
        1
    } else {
        0
    };
    let tag_b: nat = if b is Some {
        1
    } else {
        0
    };
    assert(budget(a) + x =~= number(tag_a) + rest_a);
    assert(budget(b) + y =~= number(tag_b) + rest_b);
    lemma_number(tag_a, rest_a, tag_b, rest_b);
    if a is Some {
        lemma_span(a->0, x, b->0, y);
    }
}

proof fn lemma_step_parts(s: StepModel, x: Writes)
    ensures
        step(s) + x == text(s.driver) + (text(s.operation) + (number(s.args.len()) + (values(
            s.args,
        ) + (payload(s.body) + (expectation(s.expect) + x))))),
{
    let (a, b, c) = (text(s.driver), text(s.operation), number(s.args.len()));
    let (d, e, f) = (values(s.args), payload(s.body), expectation(s.expect));
    lemma_assoc(a, b + (c + (d + (e + f))), x);
    lemma_assoc(b, c + (d + (e + f)), x);
    lemma_assoc(c, d + (e + f), x);
    lemma_assoc(d, e + f, x);
    lemma_assoc(e, f, x);
}

proof fn lemma_step(a: StepModel, x: Writes, b: StepModel, y: Writes)
    requires
        step(a) + x == step(b) + y,
        step_measured(a),
        step_measured(b),
    ensures
        a == b,
        x == y,
{
    lemma_step_parts(a, x);
    lemma_step_parts(b, y);
    let last_a = expectation(a.expect) + x;
    let last_b = expectation(b.expect) + y;
    let body_a = payload(a.body) + last_a;
    let body_b = payload(b.body) + last_b;
    let args_a = number(a.args.len()) + (values(a.args) + body_a);
    let args_b = number(b.args.len()) + (values(b.args) + body_b);
    lemma_text(a.driver, text(a.operation) + args_a, b.driver, text(b.operation) + args_b);
    lemma_text(a.operation, args_a, b.operation, args_b);
    lemma_counted_values(a.args, body_a, b.args, body_b);
    lemma_payload(a.body, last_a, b.body, last_b);
    lemma_expectation(a.expect, x, b.expect, y);
}

proof fn lemma_steps(a: Seq<StepModel>, x: Writes, b: Seq<StepModel>, y: Writes)
    requires
        steps(a) + x == steps(b) + y,
        a.len() == b.len(),
        forall|i: int| 0 <= i < a.len() ==> step_measured(#[trigger] a[i]),
        forall|i: int| 0 <= i < b.len() ==> step_measured(#[trigger] b[i]),
    ensures
        a == b,
        x == y,
    decreases a.len(),
{
    if a.len() > 0 {
        let (c, v) = (a.drop_last(), a.last());
        let (d, w) = (b.drop_last(), b.last());
        lemma_assoc(steps(c), step(v), x);
        lemma_assoc(steps(d), step(w), y);
        lemma_steps(c, step(v) + x, d, step(w) + y);
        lemma_step(v, x, w, y);
        assert(a =~= c.push(v));
        assert(b =~= d.push(w));
    } else {
        assert(steps(a) + x =~= x);
        assert(steps(b) + y =~= y);
        assert(a =~= b);
    }
}

proof fn lemma_check_parts(c: CheckModel, x: Writes)
    ensures
        check(c) + x == text(c.service) + (text(c.observer) + (number(c.observable.len()) + (texts(
            c.observable,
        ) + (number(c.args.len()) + (values(c.args) + (filter(c.filter) + (number(rank(c.op)) + (
        value(c.value) + x)))))))),
{
    let (a, b, n) = (text(c.service), text(c.observer), number(c.observable.len()));
    let (d, m, e) = (texts(c.observable), number(c.args.len()), values(c.args));
    let (f, g, h) = (filter(c.filter), number(rank(c.op)), value(c.value));
    lemma_assoc(a, b + (n + (d + (m + (e + (f + (g + h)))))), x);
    lemma_assoc(b, n + (d + (m + (e + (f + (g + h))))), x);
    lemma_assoc(n, d + (m + (e + (f + (g + h)))), x);
    lemma_assoc(d, m + (e + (f + (g + h))), x);
    lemma_assoc(m, e + (f + (g + h)), x);
    lemma_assoc(e, f + (g + h), x);
    lemma_assoc(f, g + h, x);
    lemma_assoc(g, h, x);
}

proof fn lemma_check(a: CheckModel, x: Writes, b: CheckModel, y: Writes)
    requires
        check(a) + x == check(b) + y,
        check_measured(a),
        check_measured(b),
    ensures
        a == b,
        x == y,
{
    lemma_check_parts(a, x);
    lemma_check_parts(b, y);
    let last_a = value(a.value) + x;
    let last_b = value(b.value) + y;
    let op_a = number(rank(a.op)) + last_a;
    let op_b = number(rank(b.op)) + last_b;
    let filter_a = filter(a.filter) + op_a;
    let filter_b = filter(b.filter) + op_b;
    let args_a = number(a.args.len()) + (values(a.args) + filter_a);
    let args_b = number(b.args.len()) + (values(b.args) + filter_b);
    let path_a = number(a.observable.len()) + (texts(a.observable) + args_a);
    let path_b = number(b.observable.len()) + (texts(b.observable) + args_b);
    lemma_text(a.service, text(a.observer) + path_a, b.service, text(b.observer) + path_b);
    lemma_text(a.observer, path_a, b.observer, path_b);
    lemma_counted_texts(a.observable, args_a, b.observable, args_b);
    lemma_counted_values(a.args, filter_a, b.args, filter_b);
    lemma_filter(a.filter, op_a, b.filter, op_b);
    lemma_number(rank(a.op), last_a, rank(b.op), last_b);
    lemma_value(a.value, x, b.value, y);
}

proof fn lemma_checks(a: Seq<CheckModel>, x: Writes, b: Seq<CheckModel>, y: Writes)
    requires
        checks(a) + x == checks(b) + y,
        a.len() == b.len(),
        forall|i: int| 0 <= i < a.len() ==> check_measured(#[trigger] a[i]),
        forall|i: int| 0 <= i < b.len() ==> check_measured(#[trigger] b[i]),
    ensures
        a == b,
        x == y,
    decreases a.len(),
{
    if a.len() > 0 {
        let (c, v) = (a.drop_last(), a.last());
        let (d, w) = (b.drop_last(), b.last());
        lemma_assoc(checks(c), check(v), x);
        lemma_assoc(checks(d), check(w), y);
        lemma_checks(c, check(v) + x, d, check(w) + y);
        lemma_check(v, x, w, y);
        assert(a =~= c.push(v));
        assert(b =~= d.push(w));
    } else {
        assert(checks(a) + x =~= x);
        assert(checks(b) + y =~= y);
        assert(a =~= b);
    }
}

proof fn lemma_scenario_parts(s: ScenarioModel, x: Writes)
    ensures
        scenario(s) + x == text(s.name) + (budget(s.budget) + (span(s.consistent_within) + (number(
            s.steps.len(),
        ) + (steps(s.steps) + (number(s.checks.len()) + (checks(s.checks) + x)))))),
{
    let (a, b, c) = (text(s.name), budget(s.budget), span(s.consistent_within));
    let (m, d) = (number(s.steps.len()), steps(s.steps));
    let (n, e) = (number(s.checks.len()), checks(s.checks));
    lemma_assoc(a, b + (c + (m + (d + (n + e)))), x);
    lemma_assoc(b, c + (m + (d + (n + e))), x);
    lemma_assoc(c, m + (d + (n + e)), x);
    lemma_assoc(m, d + (n + e), x);
    lemma_assoc(d, n + e, x);
    lemma_assoc(n, e, x);
}

proof fn lemma_scenario(a: ScenarioModel, x: Writes, b: ScenarioModel, y: Writes)
    requires
        scenario(a) + x == scenario(b) + y,
        scenario_measured(a),
        scenario_measured(b),
    ensures
        a == b,
        x == y,
{
    lemma_scenario_parts(a, x);
    lemma_scenario_parts(b, y);
    let checks_a = number(a.checks.len()) + (checks(a.checks) + x);
    let checks_b = number(b.checks.len()) + (checks(b.checks) + y);
    let steps_a = number(a.steps.len()) + (steps(a.steps) + checks_a);
    let steps_b = number(b.steps.len()) + (steps(b.steps) + checks_b);
    let within_a = span(a.consistent_within) + steps_a;
    let within_b = span(b.consistent_within) + steps_b;
    lemma_text(a.name, budget(a.budget) + within_a, b.name, budget(b.budget) + within_b);
    lemma_budget(a.budget, within_a, b.budget, within_b);
    lemma_span(a.consistent_within, steps_a, b.consistent_within, steps_b);
    lemma_number(a.steps.len(), steps(a.steps) + checks_a, b.steps.len(), steps(b.steps) + checks_b);
    lemma_steps(a.steps, checks_a, b.steps, checks_b);
    lemma_number(a.checks.len(), checks(a.checks) + x, b.checks.len(), checks(b.checks) + y);
    lemma_checks(a.checks, x, b.checks, y);
}

proof fn lemma_scenarios(a: Seq<ScenarioModel>, x: Writes, b: Seq<ScenarioModel>, y: Writes)
    requires
        scenarios(a) + x == scenarios(b) + y,
        a.len() == b.len(),
        forall|i: int| 0 <= i < a.len() ==> scenario_measured(#[trigger] a[i]),
        forall|i: int| 0 <= i < b.len() ==> scenario_measured(#[trigger] b[i]),
    ensures
        a == b,
        x == y,
    decreases a.len(),
{
    if a.len() > 0 {
        let (c, v) = (a.drop_last(), a.last());
        let (d, w) = (b.drop_last(), b.last());
        lemma_assoc(scenarios(c), scenario(v), x);
        lemma_assoc(scenarios(d), scenario(w), y);
        lemma_scenarios(c, scenario(v) + x, d, scenario(w) + y);
        lemma_scenario(v, x, w, y);
        assert(a =~= c.push(v));
        assert(b =~= d.push(w));
    } else {
        assert(scenarios(a) + x =~= x);
        assert(scenarios(b) + y =~= y);
        assert(a =~= b);
    }
}

/// All of a plan is hashed: two plans the hasher is told the same of are one
/// plan, so only a collision of the hash itself can keep a change from showing.
pub proof fn lemma_all_of_a_plan_is_hashed(a: PlanModel, b: PlanModel)
    requires
        plan_measured(a),
        plan_measured(b),
    ensures
        plan(a) == plan(b) <==> a == b,
{
    if plan(a) == plan(b) {
        let (m, n) = (a.scenarios.len(), b.scenarios.len());
        let rest_a = number(m) + scenarios(a.scenarios);
        let rest_b = number(n) + scenarios(b.scenarios);
        lemma_fleet(a.fleet, rest_a, b.fleet, rest_b);
        lemma_number(m, scenarios(a.scenarios), n, scenarios(b.scenarios));
        let none: Writes = Seq::empty();
        assert(scenarios(a.scenarios) + none =~= scenarios(a.scenarios));
        assert(scenarios(b.scenarios) + none =~= scenarios(b.scenarios));
        lemma_scenarios(a.scenarios, none, b.scenarios, none);
    }
}

proof fn lemma_value_measured(v: Value)
    ensures
        measured(v.deep_view()),
    decreases v,
{
    match v {
        Value::List(items) => {
            lemma_list_literal(items);
            assert(items.len() == items@.len());
            lemma_list_measured(items@);
            assert(items.deep_view() =~= items@.map_values(|item: Value| item.deep_view()));
        },
        Value::Mapping(held) => {
            lemma_map_literal(held);
            assert(held.len() == held@.len());
            lemma_held_measured(held@);
            assert(held.deep_view() =~= held@.map_values(|entry: (String, Value)| entry.deep_view()));
        },
        _ => {},
    }
}

proof fn lemma_list_measured(items: Seq<Value>)
    ensures
        all_measured(items.map_values(|item: Value| item.deep_view())),
    decreases items,
{
    if items.len() > 0 {
        let model = items.map_values(|item: Value| item.deep_view());
        lemma_list_measured(items.drop_last());
        lemma_value_measured(items.last());
        assert(model.drop_last() =~= items.drop_last().map_values(|item: Value| item.deep_view()));
    }
}

proof fn lemma_held_measured(held: Seq<(String, Value)>)
    ensures
        entries_measured(held.map_values(|entry: (String, Value)| entry.deep_view())),
    decreases held,
{
    if held.len() > 0 {
        let model = held.map_values(|entry: (String, Value)| entry.deep_view());
        lemma_held_measured(held.drop_last());
        lemma_value_measured(held.last().1);
        assert(model.drop_last() =~= held.drop_last().map_values(
            |entry: (String, Value)| entry.deep_view(),
        ));
        assert(model.last() == held.last().deep_view());
    }
}

proof fn lemma_values_measured(items: Vec<Value>)
    ensures
        countable(items.deep_view().len()),
        all_measured(items.deep_view()),
{
    assert(items.len() == items@.len());
    lemma_list_measured(items@);
    assert(items.deep_view() =~= items@.map_values(|item: Value| item.deep_view()));
}

proof fn lemma_entries_measured(held: Vec<(String, Value)>)
    ensures
        countable(held.deep_view().len()),
        entries_measured(held.deep_view()),
{
    assert(held.len() == held@.len());
    lemma_held_measured(held@);
    assert(held.deep_view() =~= held@.map_values(|entry: (String, Value)| entry.deep_view()));
}

proof fn lemma_scenario_measured(s: Scenario)
    ensures
        scenario_measured(s.deep_view()),
{
    assert(s.steps.len() == s.steps@.len());
    assert(s.checks.len() == s.checks@.len());
    assert forall|i: int| 0 <= i < s.steps@.len() implies step_measured(
        #[trigger] s.deep_view().steps[i],
    ) by {
        let one = s.steps@[i];
        assert(s.deep_view().steps[i] == one.deep_view());
        lemma_values_measured(one.args);
        if let Some(held) = one.body {
            lemma_entries_measured(held);
        }
        if let Some(v) = one.expect {
            lemma_value_measured(v);
        }
    }
    assert forall|i: int| 0 <= i < s.checks@.len() implies check_measured(
        #[trigger] s.deep_view().checks[i],
    ) by {
        let one = s.checks@[i];
        assert(s.deep_view().checks[i] == one.deep_view());
        assert(one.observable.len() == one.observable@.len());
        lemma_values_measured(one.args);
        if let Some(named) = one.filter {
            lemma_value_measured(named.1);
        }
        lemma_value_measured(one.value);
    }
}

/// Every plan there can be is measured.
pub proof fn lemma_plans_are_measured(p: Plan)
    ensures
        plan_measured(p.deep_view()),
{
    assert(p.fleet.services.len() == p.fleet.services@.len());
    assert(p.scenarios.len() == p.scenarios@.len());
    assert forall|i: int| 0 <= i < p.fleet.services@.len() implies service_measured(
        #[trigger] p.deep_view().fleet.services[i],
    ) by {
        let one = p.fleet.services@[i];
        assert(p.deep_view().fleet.services[i] == one.deep_view());
        assert(one.kinds.len() == one.kinds@.len());
        lemma_entries_measured(one.attrs);
    }
    assert forall|i: int| 0 <= i < p.scenarios@.len() implies scenario_measured(
        #[trigger] p.deep_view().scenarios[i],
    ) by {
        lemma_scenario_measured(p.scenarios@[i]);
        assert(p.deep_view().scenarios[i] == p.scenarios@[i].deep_view());
    }
}

} // verus!
