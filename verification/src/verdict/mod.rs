//! Invariants, observations, and the one reading that turns them into a
//! verdict.

pub mod driven;
pub mod drivers;
pub mod judging;
pub mod landed;
pub mod laws;
pub mod reading;
pub mod telling;

use vstd::prelude::*;
use vstd::string::*;

use self::landed::{
    comes_before, lemma_steps_before_orders, lemma_steps_before_parts, steps_before,
};
use crate::ipc::message::{Verdict, VerdictModel};
use crate::plan::{entry_of, Check, CheckModel, Literal, Value};
use crate::protocol::{
    FaultReport, FaultReportModel, Primitive, Primitives, Reached, ReachedModel, Session, SessionModel,
};
use crate::schema::CmpOp;
use crate::text::{int_order, join, joined, order_texts, text_order, Order};

verus! {

/// The four canonical event-driven invariants Crucible checks.
#[derive(Clone, Copy, Debug, PartialEq, Eq, PartialOrd, Ord, Structural)]
pub enum Invariant {
    Idempotent,
    Converges,
    Durable,
    Recovers,
}

impl DeepView for Invariant {
    type V = Invariant;

    open spec fn deep_view(&self) -> Invariant {
        *self
    }
}

/// What breaking the fleet by `primitive` part way through a run can show.
pub open spec fn shown_by(primitive: Primitive) -> Seq<Invariant> {
    match primitive {
        Primitive::Redeliver => seq![Invariant::Idempotent],
        Primitive::Reorder => seq![Invariant::Converges],
        Primitive::Kill | Primitive::Cut | Primitive::Drop => seq![
            Invariant::Durable,
            Invariant::Idempotent,
            Invariant::Converges,
        ],
    }
}

/// What a run held degraded from start to finish can show.
pub open spec fn shown_degraded() -> Seq<Invariant> {
    seq![Invariant::Recovers, Invariant::Durable, Invariant::Idempotent, Invariant::Converges]
}

impl Invariant {
    /// The invariant as the thing a verdict says broke.
    pub open spec fn spelling(self) -> Seq<char> {
        match self {
            Invariant::Idempotent => "idempotency"@,
            Invariant::Converges => "convergence"@,
            Invariant::Durable => "durability"@,
            Invariant::Recovers => "recovery"@,
        }
    }

    /// Named as the thing a verdict says broke, so a report reads as a
    /// sentence.
    pub fn spell(&self) -> (r: &'static str)
        ensures
            r@ == self.spelling(),
    {
        match self {
            Invariant::Idempotent => "idempotency",
            Invariant::Converges => "convergence",
            Invariant::Durable => "durability",
            Invariant::Recovers => "recovery",
        }
    }

    /// What a run held degraded from start to finish can show.
    ///
    /// Recovery is what a fleet that accepted work while down and never caught
    /// up has broken. A fleet that accepted nothing had nothing to catch up on,
    /// so what it kept, repeated or resequenced is still read off the run.
    pub fn degraded() -> (r: Vec<Invariant>)
        ensures
            r@ == shown_degraded(),
    {
        vec![Invariant::Recovers, Invariant::Durable, Invariant::Idempotent, Invariant::Converges]
    }

    /// What breaking the fleet this way could show.
    pub fn could_show(throughout: bool, by: Primitive) -> (r: Vec<Invariant>)
        ensures
            r@ == (if throughout {
                shown_degraded()
            } else {
                shown_by(by)
            }),
    {
        if throughout {
            Invariant::degraded()
        } else {
            Invariant::shown_by(by)
        }
    }

    /// Making a message arrive twice can only ask whether handling it twice
    /// leaves what handling it once would. Making messages arrive out of order
    /// can only ask whether the order mattered. Taking something away asks
    /// nothing so narrow: the fleet is left in doubt, and what it does about
    /// the doubt is what decides which invariant it broke.
    fn shown_by(primitive: Primitive) -> (r: Vec<Invariant>)
        ensures
            r@ == shown_by(primitive),
    {
        match primitive {
            Primitive::Redeliver => vec![Invariant::Idempotent],
            Primitive::Reorder => vec![Invariant::Converges],
            Primitive::Kill | Primitive::Cut | Primitive::Drop => vec![
                Invariant::Durable,
                Invariant::Idempotent,
                Invariant::Converges,
            ],
        }
    }

    /// Every way of breaking the fleet that could show this invariant broken.
    pub open spec fn shows(self) -> Seq<Primitive> {
        match self {
            Invariant::Recovers => seq![Primitive::Kill, Primitive::Cut],
            _ => Primitive::every().filter(|by: Primitive| shown_by(by).contains(self)),
        }
    }

    /// Anything that could show this invariant broken.
    ///
    /// The inverse of what shows an invariant, except for recovery, which needs
    /// a run held degraded throughout.
    pub fn shown_by_any(self) -> (r: Vec<Primitive>)
        ensures
            r@ == self.shows(),
    {
        match self {
            Invariant::Recovers => vec![Primitive::Kill, Primitive::Cut],
            _ => {
                let every = Primitive::all();
                let ghost shows = |by: Primitive| shown_by(by).contains(self);
                let mut out: Vec<Primitive> = Vec::new();
                for i in 0..every.len()
                    invariant
                        every@ == Primitive::every(),
                        shows == (|by: Primitive| shown_by(by).contains(self)),
                        out@ == every@.take(i as int).filter(shows),
                {
                    let shown = Invariant::shown_by(every[i]);
                    let mut found: bool = false;
                    for j in 0..shown.len()
                        invariant
                            found == exists|k: int| 0 <= k < j && shown@[k] == self,
                    {
                        if shown[j] == self {
                            found = true;
                        }
                    }
                    proof {
                        assert(every@.take(i + 1).drop_last() =~= every@.take(i as int));
                        reveal(Seq::filter);
                        assert(found == shown@.contains(self));
                    }
                    if found {
                        out.push(every[i]);
                    }
                }
                proof {
                    assert(every@.take(every@.len() as int) =~= every@);
                }
                out
            },
        }
    }

    /// What shows this invariant broken, of what is available.
    pub open spec fn showing(self, available: Set<Primitive>) -> Seq<Primitive> {
        self.shows().filter(|by: Primitive| available.contains(by))
    }

    /// What a campaign against this fleet could show this invariant broken by,
    /// given what the loaded plugins can do.
    pub fn showable(self, available: &Primitives) -> (r: Result<Vec<Primitive>, Unreachable>)
        ensures
            match r {
                Ok(by) => by@ == self.showing(available.deep_view().to_set()) && by@.len() > 0,
                Err(unreachable) => self.showing(available.deep_view().to_set()).len() == 0
                    && unreachable.0@ == self.shows(),
            },
    {
        let any = self.shown_by_any();
        let mut showable: Vec<Primitive> = Vec::new();
        let ghost among = |by: Primitive| available.deep_view().to_set().contains(by);
        for i in 0..any.len()
            invariant
                among == (|by: Primitive| available.deep_view().to_set().contains(by)),
                showable@ == any@.take(i as int).filter(among),
        {
            proof {
                assert(any@.take(i + 1).drop_last() =~= any@.take(i as int));
                reveal(Seq::filter);
            }
            if available.contains(any[i]) {
                showable.push(any[i]);
            }
        }
        proof {
            assert(any@.take(any@.len() as int) =~= any@);
        }
        if showable.is_empty() {
            return Err(Unreachable(any));
        }
        Ok(showable)
    }
}

/// Nothing the campaign loaded can prove this invariant wrong.
#[derive(Debug, PartialEq, Eq)]
pub struct Unreachable(pub Vec<Primitive>);

/// The primitives as a report names them.
pub open spec fn primitive_spellings(by: Seq<Primitive>) -> Seq<Seq<char>> {
    by.map_values(|by: Primitive| by.spelling())
}

impl Unreachable {
    /// What nothing loaded can do.
    pub fn spell(&self) -> (r: String)
        ensures
            r@ == "nothing loaded can "@ + joined(primitive_spellings(self.0@), " or "@),
    {
        let mut any_of: Vec<String> = Vec::new();
        for i in 0..self.0.len()
            invariant
                any_of.len() == i,
                forall|j: int| 0 <= j < i ==> (#[trigger] any_of@[j])@ == self.0@[j].spelling(),
        {
            any_of.push(self.0[i].spell().to_owned());
        }
        proof {
            assert(any_of.deep_view() =~= primitive_spellings(self.0@));
        }
        let mut out = "nothing loaded can ".to_owned();
        out.append(join(any_of.as_slice(), " or ").as_str());
        out
    }
}

/// What every check the scenario states read at one point in a run.
///
/// `None` where the reading could not be taken.
pub type Checkpoint = Vec<Option<Value>>;

/// What a [`Checkpoint`] read.
pub type Point = Seq<Option<Literal>>;

/// A copy of a checkpoint.
pub fn clone_checkpoint(point: &Checkpoint) -> (r: Checkpoint)
    ensures
        r.deep_view() == point.deep_view(),
{
    let mut out: Checkpoint = Vec::new();
    for i in 0..point.len()
        invariant
            out.len() == i,
            forall|j: int| 0 <= j < i ==> (#[trigger] out@[j]).deep_view() == point@[j].deep_view(),
    {
        out.push(match &point[i] {
            Some(value) => Some(value.clone()),
            None => None,
        });
    }
    assert(out.deep_view() =~= point.deep_view());
    out
}

/// Whether two readings are the same, which two that could not be taken are.
pub fn same_reading(a: &Option<Value>, b: &Option<Value>) -> (r: bool)
    ensures
        r == (a.deep_view() == b.deep_view()),
{
    match (a, b) {
        (Some(a), Some(b)) => a.same(b),
        (None, None) => true,
        _ => false,
    }
}

/// Whether two checkpoints read the same throughout.
pub fn same_checkpoint(a: &Checkpoint, b: &Checkpoint) -> (r: bool)
    ensures
        r == (a.deep_view() == b.deep_view()),
{
    if a.len() != b.len() {
        assert(a.deep_view().len() != b.deep_view().len());
        return false;
    }
    for i in 0..a.len()
        invariant
            a@.len() == b@.len(),
            forall|j: int| 0 <= j < i ==> (#[trigger] a@[j]).deep_view() == b@[j].deep_view(),
    {
        if !same_reading(&a[i], &b[i]) {
            assert(a.deep_view()[i as int] != b.deep_view()[i as int]);
            return false;
        }
    }
    assert(a.deep_view() =~= b.deep_view());
    true
}

/// Where the fleet stood at each point of a run, starting from before the
/// first step.
#[derive(Debug, PartialEq, Eq)]
pub struct Trajectory(Vec<Checkpoint>);

impl DeepView for Trajectory {
    type V = Seq<Point>;

    closed spec fn deep_view(&self) -> Seq<Point> {
        self.0.deep_view()
    }
}

impl Clone for Trajectory {
    fn clone(&self) -> (r: Trajectory)
        ensures
            r.deep_view() == self.deep_view(),
    {
        let mut out: Vec<Checkpoint> = Vec::new();
        for i in 0..self.0.len()
            invariant
                out.len() == i,
                forall|j: int| 0 <= j < i ==> (#[trigger] out@[j]).deep_view() == self.0@[j].deep_view(),
        {
            out.push(clone_checkpoint(&self.0[i]));
        }
        assert(out.deep_view() =~= self.0.deep_view());
        Trajectory(out)
    }
}

impl Default for Trajectory {
    fn default() -> (r: Trajectory)
        ensures
            r.deep_view() == Seq::<Point>::empty(),
    {
        let r = Trajectory(Vec::new());
        assert(r.deep_view() =~= Seq::<Point>::empty());
        r
    }
}

impl Trajectory {
    /// The run that stood at each of `points`.
    pub fn of(points: Vec<Checkpoint>) -> (r: Trajectory)
        ensures
            r.deep_view() == points.deep_view(),
    {
        Trajectory(points)
    }

    /// Where the fleet stood once `n` steps had landed.
    pub fn at(&self, n: usize) -> (r: Option<&Checkpoint>)
        ensures
            r.deep_view() == (if n < self.deep_view().len() {
                Some(self.deep_view()[n as int])
            } else {
                None
            }),
    {
        if n < self.0.len() {
            Some(&self.0[n])
        } else {
            None
        }
    }

    /// How many points it holds, one more than the steps driven.
    pub fn len(&self) -> (r: usize)
        ensures
            r == self.deep_view().len(),
    {
        self.0.len()
    }

    /// Whether it holds no point at all.
    pub fn is_empty(&self) -> (r: bool)
        ensures
            r == (self.deep_view().len() == 0),
    {
        self.0.len() == 0
    }

    /// The points, from before the first step on.
    pub closed spec fn points(&self) -> Seq<Checkpoint> {
        self.0@
    }

    /// The points, from before the first step on.
    pub fn iter(&self) -> (r: std::slice::Iter<'_, Checkpoint>)
        ensures
            vstd::std_specs::iter::IteratorSpec::remaining(&r) == self.points().as_ref(),
            self.points().len() == self.deep_view().len(),
            forall|i: int|
                0 <= i < self.points().len() ==> (#[trigger] self.points()[i]).deep_view()
                    == self.deep_view()[i],
    {
        self.0.iter()
    }

    /// Where the fleet stood once every step had landed.
    pub fn settled(&self) -> (r: Option<&Checkpoint>)
        ensures
            r.deep_view() == (if self.deep_view().len() > 0 {
                Some(self.deep_view().last())
            } else {
                None
            }),
    {
        if self.0.len() > 0 {
            Some(&self.0[self.0.len() - 1])
        } else {
            None
        }
    }

    /// Record where the fleet stands now, which is one more step taken.
    pub fn push(&mut self, point: Checkpoint)
        ensures
            final(self).deep_view() == old(self).deep_view().push(point.deep_view()),
    {
        self.0.push(point);
        assert(self.0.deep_view() =~= old(self).0.deep_view().push(point.deep_view()));
    }
}

/// Where a run of one set of steps left the fleet, and where it stood after
/// each step on the way.
#[derive(Debug, PartialEq, Eq)]
pub struct Baseline {
    /// Where the fleet stood after each step, starting from before the first.
    pub trail: Trajectory,
    /// Where the fleet settled once it went quiet, after a longer wait than any
    /// point of the trail.
    pub settled: Checkpoint,
}

/// What a [`Baseline`] found.
#[verifier::ext_equal]
pub struct BaselineModel {
    pub trail: Seq<Point>,
    pub settled: Point,
}

impl DeepView for Baseline {
    type V = BaselineModel;

    open spec fn deep_view(&self) -> BaselineModel {
        BaselineModel { trail: self.trail.deep_view(), settled: self.settled.deep_view() }
    }
}

impl Clone for Baseline {
    fn clone(&self) -> (r: Baseline)
        ensures
            r.deep_view() == self.deep_view(),
    {
        Baseline { trail: self.trail.clone(), settled: clone_checkpoint(&self.settled) }
    }
}

impl Default for Baseline {
    fn default() -> (r: Baseline)
        ensures
            r.deep_view() == (BaselineModel { trail: Seq::empty(), settled: Seq::empty() }),
    {
        let settled: Checkpoint = Vec::new();
        assert(settled.deep_view() =~= Seq::empty());
        Baseline { trail: Trajectory::default(), settled }
    }
}

impl BaselineModel {
    /// Where the fleet stood having taken the first `n` of these steps: where
    /// it settled at the end of the run, and a point of the trail before it.
    pub open spec fn at(self, n: int) -> Option<Point> {
        if n + 1 == self.trail.len() {
            Some(self.settled)
        } else if 0 <= n < self.trail.len() {
            Some(self.trail[n])
        } else {
            None
        }
    }
}

impl Baseline {
    /// A run that was not read again after its last step.
    pub fn unsettled(points: Vec<Checkpoint>) -> (r: Baseline)
        ensures
            r.deep_view().trail == points.deep_view(),
            r.deep_view().settled == (if points@.len() > 0 {
                points.deep_view().last()
            } else {
                Seq::empty()
            }),
    {
        let settled: Checkpoint = if points.len() > 0 {
            clone_checkpoint(&points[points.len() - 1])
        } else {
            let none: Checkpoint = Vec::new();
            assert(none.deep_view() =~= Seq::empty());
            none
        };
        Baseline { trail: Trajectory::of(points), settled }
    }

    /// Where the fleet stood having taken the first `n` of these steps.
    ///
    /// At the end of the run this is the settled reading, not the trail point.
    pub fn at(&self, n: usize) -> (r: Option<&Checkpoint>)
        ensures
            r.deep_view() == self.deep_view().at(n as int),
    {
        if n < self.trail.len() && n == self.trail.len() - 1 {
            return Some(&self.settled);
        }
        self.trail.at(n)
    }
}

/// Whether each entry's steps come before the next one's, so that no steps have
/// two entries.
pub open spec fn ascending(entries: Seq<(Seq<usize>, BaselineModel)>) -> bool {
    forall|i: int, j: int|
        0 <= i < j < entries.len() ==> steps_before(
            (#[trigger] entries[i]).0,
            (#[trigger] entries[j]).0,
        )
}

/// What a run of each set of steps found, keyed on the steps that landed.
///
/// A prefix needs no entry. The fault-free run recorded the end of those. Each
/// set of steps has one entry at most, and the entries stand in the order of
/// their steps.
#[derive(Debug, PartialEq, Eq)]
pub struct References(Vec<(Vec<usize>, Baseline)>);

impl DeepView for References {
    type V = Seq<(Seq<usize>, BaselineModel)>;

    closed spec fn deep_view(&self) -> Seq<(Seq<usize>, BaselineModel)> {
        self.0.deep_view()
    }
}

/// Whether two runs of steps are the same steps in the same order.
pub fn same_steps(a: &[usize], b: &[usize]) -> (r: bool)
    ensures
        r == (a@ == b@),
{
    if a.len() != b.len() {
        return false;
    }
    for i in 0..a.len()
        invariant
            a@.len() == b@.len(),
            forall|j: int| 0 <= j < i ==> a@[j] == b@[j],
    {
        if a[i] != b[i] {
            return false;
        }
    }
    assert(a@ =~= b@);
    true
}

/// Steps no entry is keyed on have none.
proof fn lemma_entry_none<K, T>(entries: Seq<(K, T)>, key: K)
    requires
        forall|i: int| 0 <= i < entries.len() ==> (#[trigger] entries[i]).0 != key,
    ensures
        entry_of(entries, key) is None,
    decreases entries.len(),
{
    if entries.len() > 0 {
        assert(entries[0].0 != key);
        assert forall|i: int| 0 <= i < entries.skip(1).len() implies (
        #[trigger] entries.skip(1)[i]).0 != key by {
            assert(entries.skip(1)[i] == entries[i + 1]);
        }
        lemma_entry_none(entries.skip(1), key);
    }
}

/// An entry no earlier one shares its key with is what its key has.
proof fn lemma_entry_at<K, T>(entries: Seq<(K, T)>, i: int)
    requires
        0 <= i < entries.len(),
        forall|k: int| 0 <= k < i ==> (#[trigger] entries[k]).0 != entries[i].0,
    ensures
        entry_of(entries, entries[i].0) == Some(entries[i].1),
    decreases i,
{
    if i > 0 {
        let rest = entries.skip(1);
        assert(entries[0].0 != entries[i].0);
        assert(rest[i - 1] == entries[i]);
        assert forall|k: int| 0 <= k < i - 1 implies (#[trigger] rest[k]).0 != rest[i - 1].0 by {
            assert(rest[k] == entries[k + 1]);
        }
        lemma_entry_at(rest, i - 1);
    }
}

proof fn lemma_ascending_entry(entries: Seq<(Seq<usize>, BaselineModel)>, i: int)
    requires
        ascending(entries),
        0 <= i < entries.len(),
    ensures
        entry_of(entries, entries[i].0) == Some(entries[i].1),
{
    assert forall|k: int| 0 <= k < i implies (#[trigger] entries[k]).0 != entries[i].0 by {
        assert(steps_before(entries[k].0, entries[i].0));
        lemma_steps_before_orders(entries[k].0, entries[i].0, entries[i].0);
    }
    lemma_entry_at(entries, i);
}

proof fn lemma_steps_before_chain(a: Seq<usize>, b: Seq<usize>, c: Seq<usize>)
    requires
        steps_before(a, b),
        steps_before(b, c),
    ensures
        steps_before(a, c),
        a != b,
        a != c,
{
    lemma_steps_before_orders(a, b, c);
    lemma_steps_before_orders(b, c, c);
    lemma_steps_before_parts(a, c);
}

/// The entries with another put in at `at`, in place of one with the same key.
spec fn put(
    entries: Seq<(Seq<usize>, BaselineModel)>,
    at: int,
    entry: (Seq<usize>, BaselineModel),
) -> Seq<(Seq<usize>, BaselineModel)> {
    if at < entries.len() && entries[at].0 == entry.0 {
        entries.update(at, entry)
    } else {
        entries.insert(at, entry)
    }
}

proof fn lemma_put(
    entries: Seq<(Seq<usize>, BaselineModel)>,
    at: int,
    entry: (Seq<usize>, BaselineModel),
)
    requires
        ascending(entries),
        0 <= at <= entries.len(),
        forall|k: int| 0 <= k < at ==> steps_before((#[trigger] entries[k]).0, entry.0),
        at < entries.len() ==> !steps_before(entries[at].0, entry.0),
    ensures
        ascending(put(entries, at, entry)),
        forall|steps: Seq<usize>| #[trigger]
            entry_of(put(entries, at, entry), steps) == (if steps == entry.0 {
                Some(entry.1)
            } else {
                entry_of(entries, steps)
            }),
{
    let after = put(entries, at, entry);
    let replaced = at < entries.len() && entries[at].0 == entry.0;
    assert(after[at] == entry);
    // What stands behind comes after the new entry.
    assert forall|k: int| at <= k < entries.len() && (k > at || !replaced) implies steps_before(
        entry.0,
        (#[trigger] entries[k]).0,
    ) by {
        if replaced {
            assert(steps_before(entries[at].0, entries[k].0));
        } else {
            lemma_steps_before_parts(entries[at].0, entry.0);
            if k > at {
                lemma_steps_before_chain(entry.0, entries[at].0, entries[k].0);
            }
        }
    }
    assert forall|i: int, j: int| 0 <= i < j < after.len() implies steps_before(
        (#[trigger] after[i]).0,
        (#[trigger] after[j]).0,
    ) by {
        let p = if i < at || replaced {
            i
        } else {
            i - 1
        };
        let q = if j < at || replaced {
            j
        } else {
            j - 1
        };
        if i != at {
            assert(after[i] == entries[p]);
        }
        if j != at {
            assert(after[j] == entries[q]);
        }
        if i != at && j != at {
            assert(steps_before(entries[p].0, entries[q].0));
        }
    }
    assert forall|steps: Seq<usize>| #[trigger]
        entry_of(after, steps) == (if steps == entry.0 {
            Some(entry.1)
        } else {
            entry_of(entries, steps)
        }) by {
        if steps == entry.0 {
            lemma_ascending_entry(after, at);
        } else if exists|k: int| 0 <= k < entries.len() && (#[trigger] entries[k]).0 == steps {
            let k = choose|k: int| 0 <= k < entries.len() && (#[trigger] entries[k]).0 == steps;
            lemma_ascending_entry(entries, k);
            let n = if k < at || replaced {
                k
            } else {
                k + 1
            };
            assert(after[n] == entries[k]);
            lemma_ascending_entry(after, n);
        } else {
            lemma_entry_none(entries, steps);
            assert forall|n: int| 0 <= n < after.len() implies (#[trigger] after[n]).0 != steps by {
                if n < at || (n > at && replaced) {
                    assert(after[n] == entries[n]);
                } else if n > at {
                    assert(after[n] == entries[n - 1]);
                }
            }
            lemma_entry_none(after, steps);
        }
    }
}

/// Reference runs are what was found of each set of steps, however it came to be
/// known: where two hold the same of every set of steps, they are the same.
pub proof fn lemma_references_alike(
    a: Seq<(Seq<usize>, BaselineModel)>,
    b: Seq<(Seq<usize>, BaselineModel)>,
)
    requires
        ascending(a),
        ascending(b),
        forall|steps: Seq<usize>| #[trigger] entry_of(a, steps) == entry_of(b, steps),
    ensures
        a == b,
    decreases a.len(),
{
    if a.len() == 0 || b.len() == 0 {
        if a.len() > 0 {
            assert(entry_of(a, a[0].0) is Some);
        }
        if b.len() > 0 {
            assert(entry_of(a, b[0].0) == entry_of(b, b[0].0));
        }
        assert(a =~= b);
    } else {
        let x = a[0].0;
        let y = b[0].0;
        if x != y {
            lemma_steps_before_parts(x, y);
            if steps_before(x, y) {
                lemma_first_only(x, b);
            } else {
                lemma_first_only(y, a);
            }
            assert(entry_of(a, x) == entry_of(b, x));
            assert(entry_of(a, y) == entry_of(b, y));
        }
        assert(entry_of(a, x) == entry_of(b, x));
        let few = a.skip(1);
        let many = b.skip(1);
        lemma_ascending_rest(a);
        lemma_ascending_rest(b);
        assert forall|steps: Seq<usize>| #[trigger] entry_of(few, steps) == entry_of(
            many,
            steps,
        ) by {
            assert(entry_of(a, steps) == entry_of(b, steps));
        }
        lemma_references_alike(few, many);
        assert(a =~= seq![a[0]] + few);
        assert(b =~= seq![b[0]] + many);
    }
}

/// Steps that come before the first entry's have no entry.
proof fn lemma_first_only(steps: Seq<usize>, entries: Seq<(Seq<usize>, BaselineModel)>)
    requires
        ascending(entries),
        entries.len() > 0,
        steps_before(steps, entries[0].0),
    ensures
        entry_of(entries, steps) is None,
{
    assert forall|i: int| 0 <= i < entries.len() implies (#[trigger] entries[i]).0 != steps by {
        lemma_steps_before_orders(steps, entries[0].0, steps);
        if i > 0 {
            lemma_steps_before_chain(steps, entries[0].0, entries[i].0);
        }
    }
    lemma_entry_none(entries, steps);
}

proof fn lemma_ascending_rest(entries: Seq<(Seq<usize>, BaselineModel)>)
    requires
        ascending(entries),
        entries.len() > 0,
    ensures
        ascending(entries.skip(1)),
        entry_of(entries.skip(1), entries[0].0) is None,
{
    let rest = entries.skip(1);
    assert forall|i: int, j: int| 0 <= i < j < rest.len() implies steps_before(
        (#[trigger] rest[i]).0,
        (#[trigger] rest[j]).0,
    ) by {
        assert(rest[i] == entries[i + 1] && rest[j] == entries[j + 1]);
    }
    if rest.len() > 0 {
        assert(rest[0] == entries[1]);
        lemma_first_only(entries[0].0, rest);
    } else {
        lemma_entry_none(rest, entries[0].0);
    }
}

impl References {
    /// Whether each set of steps has one entry at most, in the order of the steps.
    #[verifier::type_invariant]
    pub open spec fn keyed(&self) -> bool {
        ascending(self.deep_view())
    }

    /// No reference runs at all.
    pub fn new() -> (r: References)
        ensures
            r.deep_view() == Seq::<(Seq<usize>, BaselineModel)>::empty(),
    {
        let entries: Vec<(Vec<usize>, Baseline)> = Vec::new();
        assert(entries.deep_view() =~= Seq::<(Seq<usize>, BaselineModel)>::empty());
        References(entries)
    }

    /// What the run of exactly `landed` found, in place of anything found
    /// before.
    pub fn insert(&mut self, landed: Vec<usize>, found: Baseline)
        ensures
            forall|steps: Seq<usize>| #[trigger]
                entry_of(final(self).deep_view(), steps) == (if steps == landed@ {
                    Some(found.deep_view())
                } else {
                    entry_of(old(self).deep_view(), steps)
                }),
            ascending(final(self).deep_view()),
    {
        proof {
            use_type_invariant(&*self);
        }
        let ghost before = self.0.deep_view();
        let ghost entry = (landed@, found.deep_view());
        let mut entries: Vec<(Vec<usize>, Baseline)> = Vec::new();
        assert(entries.deep_view() =~= Seq::<(Seq<usize>, BaselineModel)>::empty());
        std::mem::swap(&mut entries, &mut self.0);
        let n = entries.len();
        let mut at: usize = 0;
        while at < n && comes_before(entries[at].0.as_slice(), landed.as_slice())
            invariant
                at <= n,
                n == before.len(),
                before == entries.deep_view(),
                entry.0 == landed@,
                forall|k: int| 0 <= k < at ==> steps_before((#[trigger] before[k]).0, entry.0),
            decreases n - at,
        {
            proof {
                assert(entries@[at as int].0.deep_view() =~= entries@[at as int].0@);
                assert(before[at as int].0 == entries@[at as int].0@);
            }
            at += 1;
        }
        proof {
            assert(landed.deep_view() =~= landed@);
            if at < n {
                assert(entries@[at as int].0.deep_view() =~= entries@[at as int].0@);
                assert(before[at as int].0 == entries@[at as int].0@);
            }
            lemma_put(before, at as int, entry);
        }
        let held = at < n && same_steps(entries[at].0.as_slice(), landed.as_slice());
        if held {
            entries.set(at, (landed, found));
        } else {
            entries.insert(at, (landed, found));
        }
        assert(entries.deep_view() =~= put(before, at as int, entry));
        self.0 = entries;
    }

    /// What the run of exactly `landed` found, if one was taken.
    pub fn get(&self, landed: &[usize]) -> (r: Option<&Baseline>)
        ensures
            r.deep_view() == entry_of(self.deep_view(), landed@),
    {
        let ghost model = self.0.deep_view();
        proof {
            assert(model.skip(0) =~= model);
        }
        for i in 0..self.0.len()
            invariant
                model == self.0.deep_view(),
                entry_of(model, landed@) == entry_of(model.skip(i as int), landed@),
        {
            proof {
                assert(model[i as int].0 == self.0@[i as int].0@);
            }
            if same_steps(self.0[i].0.as_slice(), landed) {
                return Some(&self.0[i].1);
            }
            assert(model.skip(i as int).skip(1) =~= model.skip(i + 1));
        }
        None
    }
}

/// What reading a run came to.
#[derive(Debug, PartialEq, Eq)]
pub enum Judged {
    /// The run can be judged, and this is what it says.
    Now(Verdict),
    /// Not until each of these landed sets has a reference run of its own.
    Pending(Vec<Vec<usize>>),
}

/// What a [`Judged`] says.
pub enum JudgedModel {
    Now(VerdictModel),
    Pending(Seq<Seq<usize>>),
}

impl DeepView for Judged {
    type V = JudgedModel;

    open spec fn deep_view(&self) -> JudgedModel {
        match self {
            Judged::Now(verdict) => JudgedModel::Now(verdict.deep_view()),
            Judged::Pending(sets) => JudgedModel::Pending(sets.deep_view()),
        }
    }
}

/// When a step ran, as nanoseconds from scenario start.
#[derive(Clone, Copy, Debug, PartialEq, Eq, Structural)]
pub struct StepWindow {
    pub start_ns: u128,
    pub end_ns: u128,
}

/// Whether the system took responsibility for a driven operation. The driver
/// that ran the operation decides, by the rules of the protocol it speaks.
#[derive(Clone, Copy, Debug, PartialEq, Eq, Structural)]
pub enum Ack {
    /// Acknowledged: the system accepted responsibility for the write.
    Acked,
    /// Refused: the system definitively did not accept it.
    Rejected,
    /// In doubt: the caller cannot tell whether it was accepted.
    Unknown,
}

/// The result of one operation a driver ran.
#[derive(Clone, Copy, Debug, PartialEq, Eq, Structural)]
pub struct Outcome {
    pub ack: Ack,
}

/// A check and what the fleet was actually holding when it was read.
#[derive(Debug, PartialEq, Eq)]
pub struct Observed {
    pub check: Check,
    /// What the fleet was holding, or `None` where there was nothing to read.
    pub value: Option<Value>,
}

/// What an [`Observed`] says.
#[verifier::ext_equal]
pub struct ObservedModel {
    pub check: CheckModel,
    pub value: Option<Literal>,
}

impl DeepView for Observed {
    type V = ObservedModel;

    open spec fn deep_view(&self) -> ObservedModel {
        ObservedModel { check: self.check.deep_view(), value: self.value.deep_view() }
    }
}

/// How two literals order, for the shapes that have an order.
pub open spec fn literal_order(a: Literal, b: Literal) -> Option<Order> {
    match (a, b) {
        (Literal::Int(a), Literal::Int(b)) => Some(int_order(a as int, b as int)),
        (Literal::Str(a), Literal::Str(b)) => Some(text_order(a, b)),
        (Literal::Duration(a), Literal::Duration(b)) => Some(int_order(a@ as int, b@ as int)),
        _ => None,
    }
}

/// How two readings of the same shape order, for the shapes that have an order.
pub fn order(a: &Value, b: &Value) -> (r: Option<Order>)
    ensures
        r == literal_order(a.deep_view(), b.deep_view()),
{
    match (a, b) {
        (Value::Int(a), Value::Int(b)) => Some(
            if *a < *b {
                Order::Less
            } else if *a == *b {
                Order::Equal
            } else {
                Order::Greater
            },
        ),
        (Value::Str(a), Value::Str(b)) => Some(order_texts(a.as_str(), b.as_str())),
        (Value::Duration(a), Value::Duration(b)) => Some(
            if a.shorter(b) {
                Order::Less
            } else if b.shorter(a) {
                Order::Greater
            } else {
                Order::Equal
            },
        ),
        _ => None,
    }
}

/// Whether two literals are of one shape.
pub open spec fn one_shape(a: Literal, b: Literal) -> bool {
    match (a, b) {
        (Literal::Null, Literal::Null) => true,
        (Literal::Str(_), Literal::Str(_)) => true,
        (Literal::Int(_), Literal::Int(_)) => true,
        (Literal::Bool(_), Literal::Bool(_)) => true,
        (Literal::Duration(_), Literal::Duration(_)) => true,
        (Literal::Ident(_), Literal::Ident(_)) => true,
        (Literal::List(_), Literal::List(_)) => true,
        (Literal::Mapping(_), Literal::Mapping(_)) => true,
        _ => false,
    }
}

/// Whether two values are of one shape.
fn shaped_alike(a: &Value, b: &Value) -> (r: bool)
    ensures
        r == one_shape(a.deep_view(), b.deep_view()),
{
    match (a, b) {
        (Value::Null, Value::Null) => true,
        (Value::Str(_), Value::Str(_)) => true,
        (Value::Int(_), Value::Int(_)) => true,
        (Value::Bool(_), Value::Bool(_)) => true,
        (Value::Duration(_), Value::Duration(_)) => true,
        (Value::Ident(_), Value::Ident(_)) => true,
        (Value::List(_), Value::List(_)) => true,
        (Value::Mapping(_), Value::Mapping(_)) => true,
        _ => false,
    }
}

/// Whether `reading` stands to `stated` as `op` says, or nothing where the two
/// cannot be compared.
pub open spec fn satisfies(reading: Literal, op: CmpOp, stated: Literal) -> Option<bool> {
    if !one_shape(reading, stated) {
        None
    } else {
        match op {
            CmpOp::Eq => Some(reading == stated),
            CmpOp::Ne => Some(reading != stated),
            _ => match literal_order(reading, stated) {
                None => None,
                Some(way) => Some(
                    match op {
                        CmpOp::Lt => way == Order::Less,
                        CmpOp::Le => way != Order::Greater,
                        CmpOp::Gt => way == Order::Greater,
                        _ => way != Order::Less,
                    },
                ),
            },
        }
    }
}

impl ObservedModel {
    /// Whether the reading satisfies the check it answers, or nothing when the
    /// two cannot be compared.
    pub open spec fn holds(self) -> Option<bool> {
        match self.value {
            None => None,
            Some(reading) => satisfies(reading, self.check.op, self.check.value),
        }
    }
}

/// Whether `reading` stands to `stated` as `op` says.
fn compare(reading: &Value, op: CmpOp, stated: &Value) -> (r: Option<bool>)
    ensures
        r == satisfies(reading.deep_view(), op, stated.deep_view()),
{
    // The check pass held the author's value to the shape the observable
    // declares, so a reading of another shape is the plugin answering with
    // something it never said it would.
    if !shaped_alike(reading, stated) {
        return None;
    }
    match op {
        CmpOp::Eq => Some(reading.same(stated)),
        CmpOp::Ne => Some(!reading.same(stated)),
        CmpOp::Lt => match order(reading, stated) {
            Some(way) => Some(way == Order::Less),
            None => None,
        },
        CmpOp::Le => match order(reading, stated) {
            Some(way) => Some(way != Order::Greater),
            None => None,
        },
        CmpOp::Gt => match order(reading, stated) {
            Some(way) => Some(way == Order::Greater),
            None => None,
        },
        CmpOp::Ge => match order(reading, stated) {
            Some(way) => Some(way != Order::Less),
            None => None,
        },
    }
}

impl Observed {
    /// Whether the reading satisfies the check it answers, or `None` when the
    /// two cannot be compared.
    pub fn holds(&self) -> (r: Option<bool>)
        ensures
            r == self.deep_view().holds(),
    {
        match &self.value {
            Some(reading) => compare(reading, self.check.op, &self.check.value),
            None => None,
        }
    }
}

/// Why a fault-free run missed what the scenario stated, from the check at `i`
/// on.
pub open spec fn unmet_from(checks: Seq<CheckModel>, settled: Point, i: int) -> Option<Seq<char>>
    decreases checks.len() - i,
{
    if i < 0 || i >= checks.len() {
        None
    } else if i >= settled.len() {
        Some("`"@ + checks[i].observed() + "` was never read"@)
    } else {
        match settled[i] {
            None => Some("`"@ + checks[i].observed() + "` could not be read"@),
            Some(value) => if satisfies(value, checks[i].op, checks[i].value) == Some(true) {
                unmet_from(checks, settled, i + 1)
            } else {
                Some("`"@ + checks[i].clause() + "` reads "@ + crate::plan::spelling(value))
            },
        }
    }
}

/// Why a fault-free run missed what the scenario stated.
///
/// A fault-free run that cannot satisfy its own predicate is mis-authored.
pub fn unmet(checks: &[Check], settled: &[Option<Value>]) -> (r: Option<String>)
    ensures
        r.deep_view() == unmet_from(checks.deep_view(), settled.deep_view(), 0),
{
    let mut i: usize = 0;
    while i < checks.len() && i < settled.len()
        invariant
            i <= checks@.len(),
            i <= settled@.len(),
            unmet_from(checks.deep_view(), settled.deep_view(), 0) == unmet_from(
                checks.deep_view(),
                settled.deep_view(),
                i as int,
            ),
        decreases checks@.len() - i,
    {
        match &settled[i] {
            None => {
                let mut out = "`".to_owned();
                out.append(checks[i].observable().as_str());
                out.append("` could not be read");
                return Some(out);
            },
            Some(value) => {
                let met = match compare(value, checks[i].op, &checks[i].value) {
                    Some(met) => met,
                    None => false,
                };
                if !met {
                    let mut out = "`".to_owned();
                    out.append(checks[i].stated().as_str());
                    out.append("` reads ");
                    out.append(value.spell().as_str());
                    return Some(out);
                }
            },
        }
        i += 1;
    }
    if i < checks.len() {
        let mut out = "`".to_owned();
        out.append(checks[i].observable().as_str());
        out.append("` was never read");
        return Some(out);
    }
    None
}

/// What a run read, which is everything a verdict is made of.
#[derive(Debug, PartialEq, Eq)]
pub struct Readings {
    pub outcomes: Vec<Outcome>,
    /// What the scenario's checks read once the fleet settled.
    pub checks: Vec<Observed>,
    /// What those checks read at each point of the run, starting from before
    /// the first step.
    pub trajectory: Trajectory,
    /// What the fault-free run found, which this run is judged against.
    pub fault_free: Baseline,
    /// When each step ran, in the order the scenario states them.
    pub windows: Vec<StepWindow>,
    pub fault: Option<FaultReport>,
}

/// What a [`Readings`] holds.
#[verifier::ext_equal]
pub struct ReadingsModel {
    pub outcomes: Seq<Outcome>,
    pub checks: Seq<ObservedModel>,
    pub trajectory: Seq<Point>,
    pub fault_free: BaselineModel,
    pub windows: Seq<StepWindow>,
    pub fault: Option<FaultReportModel>,
}

impl DeepView for Readings {
    type V = ReadingsModel;

    open spec fn deep_view(&self) -> ReadingsModel {
        ReadingsModel {
            outcomes: self.outcomes@,
            checks: self.checks.deep_view(),
            trajectory: self.trajectory.deep_view(),
            fault_free: self.fault_free.deep_view(),
            windows: self.windows@,
            fault: self.fault.deep_view(),
        }
    }
}

impl ReadingsModel {
    /// A run that read nothing.
    pub open spec fn nothing() -> ReadingsModel {
        ReadingsModel {
            outcomes: Seq::empty(),
            checks: Seq::empty(),
            trajectory: Seq::empty(),
            fault_free: BaselineModel { trail: Seq::empty(), settled: Seq::empty() },
            windows: Seq::empty(),
            fault: None,
        }
    }

    /// Where the fleet settled, as one checkpoint.
    pub open spec fn settled(self) -> Point {
        self.checks.map_values(|observed: ObservedModel| observed.value)
    }
}

impl Default for Readings {
    fn default() -> (r: Readings)
        ensures
            r.deep_view() == ReadingsModel::nothing(),
    {
        let r = Readings {
            outcomes: Vec::new(),
            checks: Vec::new(),
            trajectory: Trajectory::default(),
            fault_free: Baseline::default(),
            windows: Vec::new(),
            fault: None,
        };
        assert(r.deep_view() =~= ReadingsModel::nothing());
        r
    }
}

impl Readings {
    /// A run that read nothing.
    pub fn empty() -> (r: Readings)
        ensures
            r.deep_view() == ReadingsModel::nothing(),
    {
        Readings::default()
    }

    /// What this run found, for the runs it answers for.
    pub fn baseline(&self) -> (r: Baseline)
        ensures
            r.deep_view() == (BaselineModel {
                trail: self.deep_view().trajectory,
                settled: self.deep_view().settled(),
            }),
    {
        Baseline { trail: self.trajectory.clone(), settled: self.settled() }
    }

    /// Where the fleet settled, as one checkpoint.
    pub fn settled(&self) -> (r: Checkpoint)
        ensures
            r.deep_view() == self.deep_view().settled(),
    {
        let mut out: Checkpoint = Vec::new();
        for i in 0..self.checks.len()
            invariant
                out.len() == i,
                forall|j: int|
                    0 <= j < i ==> (#[trigger] out@[j]).deep_view() == self.checks@[j].value.deep_view(),
        {
            out.push(match &self.checks[i].value {
                Some(value) => Some(value.clone()),
                None => None,
            });
        }
        assert(out.deep_view() =~= self.deep_view().settled());
        out
    }
}

/// Everything a worker gathered while running a schedule. What a verdict is
/// made of, and what only the worker itself needs.
#[derive(Debug)]
pub struct Observations {
    pub readings: Readings,
    pub sessions: Vec<Session>,
    /// The moments services reported from inside themselves.
    pub inside: Vec<Reached>,
}

/// What an [`Observations`] holds.
#[verifier::ext_equal]
pub struct ObservationsModel {
    pub readings: ReadingsModel,
    pub sessions: Seq<SessionModel>,
    pub inside: Seq<ReachedModel>,
}

impl DeepView for Observations {
    type V = ObservationsModel;

    open spec fn deep_view(&self) -> ObservationsModel {
        ObservationsModel {
            readings: self.readings.deep_view(),
            sessions: self.sessions.deep_view(),
            inside: self.inside.deep_view(),
        }
    }
}

impl ObservationsModel {
    /// A worker that gathered nothing.
    pub open spec fn nothing() -> ObservationsModel {
        ObservationsModel {
            readings: ReadingsModel::nothing(),
            sessions: Seq::empty(),
            inside: Seq::empty(),
        }
    }
}

impl Default for Observations {
    fn default() -> (r: Observations)
        ensures
            r.deep_view() == ObservationsModel::nothing(),
    {
        let r = Observations {
            readings: Readings::default(),
            sessions: Vec::new(),
            inside: Vec::new(),
        };
        assert(r.deep_view() =~= ObservationsModel::nothing());
        r
    }
}

impl Observations {
    /// A worker that gathered nothing.
    pub fn empty() -> (r: Observations)
        ensures
            r.deep_view() == ObservationsModel::nothing(),
    {
        Observations::default()
    }
}

} // verus!
