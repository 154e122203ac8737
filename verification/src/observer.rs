//! Observers snapshot per-run state into the shared `Observations` bag. This one
//! folds sidecar proxy events into an authoritative log.

use vstd::prelude::*;

use crate::protocol::{
    ConnEvent, ConnEventKind, Did, DidModel, Direction, EventKindModel, EventModel, Session,
};
use crate::proxy_log::{accepted, Sessions, SessionsModel};
use crate::text::{lossy, read_lossy, same, text_of, trim, trimmed};

verus! {

/// Something the fault said of itself, and when.
#[derive(Debug, PartialEq, Eq)]
pub struct Reported {
    pub did: Did,
    pub at_ns: u128,
}

/// What a [`Reported`] says.
pub struct ReportedModel {
    pub did: DidModel,
    pub at_ns: u128,
}

impl DeepView for Reported {
    type V = ReportedModel;

    open spec fn deep_view(&self) -> ReportedModel {
        ReportedModel { did: self.did.deep_view(), at_ns: self.at_ns }
    }
}

impl Clone for Reported {
    fn clone(&self) -> (r: Reported)
        ensures
            r.deep_view() == self.deep_view(),
    {
        Reported { did: self.did.clone(), at_ns: self.at_ns }
    }
}

/// The events of the fleet's services, in the order they were recorded.
pub type Log = Seq<(Seq<char>, EventModel)>;

/// Whether an event is a packet that way.
pub open spec fn is_packet(event: EventModel, direction: Direction) -> bool {
    event.kind is Wrote && event.kind->Wrote_direction == direction
}

/// How many packets `service` wrote that way.
pub open spec fn packets(log: Log, service: Seq<char>, direction: Direction) -> nat
    decreases log.len(),
{
    if log.len() == 0 {
        0
    } else {
        packets(log.drop_last(), service, direction) + if log.last().0 == service && is_packet(
            log.last().1,
            direction,
        ) {
            1nat
        } else {
            0
        }
    }
}

/// How many times the fleet was held.
pub open spec fn freezes(log: Log) -> nat
    decreases log.len(),
{
    if log.len() == 0 {
        0
    } else {
        freezes(log.drop_last()) + if log.last().1.kind is Froze {
            1nat
        } else {
            0
        }
    }
}

/// When the fleet was last held.
pub open spec fn froze_at(log: Log) -> Option<u128>
    decreases log.len(),
{
    if log.len() == 0 {
        None
    } else if log.last().1.kind is Froze {
        Some(log.last().1.ts_ns)
    } else {
        froze_at(log.drop_last())
    }
}

/// What the fault said of itself.
pub open spec fn said(log: Log) -> Seq<ReportedModel>
    decreases log.len(),
{
    if log.len() == 0 {
        Seq::empty()
    } else {
        let rest = said(log.drop_last());
        match log.last().1.kind {
            EventKindModel::Did { did } => rest.push(
                ReportedModel { did, at_ns: log.last().1.ts_ns },
            ),
            _ => rest,
        }
    }
}

/// The latest any event happened.
pub open spec fn latest(log: Log) -> Option<u128>
    decreases log.len(),
{
    if log.len() == 0 {
        None
    } else {
        match latest(log.drop_last()) {
            Some(ts) if ts > log.last().1.ts_ns => Some(ts),
            _ => Some(log.last().1.ts_ns),
        }
    }
}

/// One service's running packet tallies, one counter per direction.
struct Tally {
    service: String,
    client_to_upstream: u32,
    upstream_to_client: u32,
}

impl Tally {
    spec fn tells(self, log: Log) -> bool {
        &&& self.client_to_upstream == packets(log, self.service@, Direction::ClientToUpstream)
        &&& self.upstream_to_client == packets(log, self.service@, Direction::UpstreamToClient)
    }
}

/// Whether a service has a tally.
spec fn tallied(tallies: Seq<Tally>, service: Seq<char>) -> bool {
    exists|k: int| 0 <= k < tallies.len() && (#[trigger] tallies[k]).service@ == service
}

/// One packet more for `service`.
fn count(
    tallies: &mut Vec<Tally>,
    service: &String,
    direction: Direction,
    Ghost(log): Ghost<Log>,
    Ghost(after): Ghost<Log>,
)
    requires
        after.len() > 0,
        after.drop_last() == log,
        after.last().0 == service@,
        after.last().1.kind is Wrote,
        after.last().1.kind->Wrote_direction == direction,
        packets(log, service@, direction) < u32::MAX,
        forall|k: int|
            0 <= k < old(tallies)@.len() ==> (#[trigger] old(tallies)@[k]).tells(log),
        forall|s: Seq<char>, d: Direction|
            !tallied(old(tallies)@, s) ==> #[trigger] packets(log, s, d) == 0,
    ensures
        forall|k: int|
            0 <= k < final(tallies)@.len() ==> (#[trigger] final(tallies)@[k]).tells(
                after,
            ),
        forall|s: Seq<char>, d: Direction|
            !tallied(final(tallies)@, s) ==> #[trigger] packets(after, s, d) == 0,
{
    let n = tallies.len();
    let mut known = false;
    let ghost held = tallies@;
    for i in 0..n
        invariant
            n == held.len(),
            tallies@.len() == n,
            after.len() > 0,
            after.drop_last() == log,
            after.last().0 == service@,
            after.last().1.kind is Wrote,
            after.last().1.kind->Wrote_direction == direction,
            packets(log, service@, direction) < u32::MAX,
            forall|k: int| 0 <= k < n ==> (#[trigger] held[k]).tells(log),
            forall|k: int| 0 <= k < i ==> (#[trigger] tallies@[k]).tells(after),
            forall|k: int| 0 <= k < n ==> (#[trigger] tallies@[k]).service@ == held[k].service@,
            forall|k: int| i <= k < n ==> #[trigger] tallies@[k] == held[k],
            known == tallied(held.take(i as int), service@),
    {
        let ghost so_far = tallies@;
        assert(so_far[i as int] == held[i as int]);
        assert(held[i as int].tells(log));
        proof {
            let some = held.take(i as int);
            let next = held.take(i + 1);
            assert(next[i as int] == held[i as int]);
            if tallied(some, service@) {
                let k = choose|k: int| 0 <= k < some.len() && (#[trigger] some[k]).service@ == service@;
                assert(next[k] == some[k]);
            }
            if tallied(next, service@) {
                let k = choose|k: int| 0 <= k < next.len() && (#[trigger] next[k]).service@ == service@;
                if k < i {
                    assert(some[k] == next[k]);
                }
            }
        }
        if same(tallies[i].service.as_str(), service.as_str()) {
            let mut tally = tallies.remove(i);
            match direction {
                Direction::ClientToUpstream => tally.client_to_upstream += 1,
                Direction::UpstreamToClient => tally.upstream_to_client += 1,
            }
            assert(tally.tells(after));
            tallies.insert(i, tally);
            assert(tallies@ =~= so_far.update(i as int, tally));
            known = true;
        } else {
            assert(tallies@[i as int].tells(after));
        }
    }
    assert(held.take(n as int) =~= held);
    if !known {
        let (client_to_upstream, upstream_to_client): (u32, u32) = match direction {
            Direction::ClientToUpstream => (1, 0),
            Direction::UpstreamToClient => (0, 1),
        };
        let tally = Tally { service: service.clone(), client_to_upstream, upstream_to_client };
        proof {
            assert(packets(log, service@, Direction::ClientToUpstream) == 0);
            assert(packets(log, service@, Direction::UpstreamToClient) == 0);
            assert(tally.tells(after));
        }
        let ghost before = tallies@;
        tallies.push(tally);
        assert forall|k: int| 0 <= k < tallies@.len() implies (
        #[trigger] tallies@[k]).tells(after) by {
            if k < n {
                assert(tallies@[k] == before[k]);
            }
        }
    }
    proof {
        let now = tallies@;
        assert forall|s: Seq<char>, d: Direction| !tallied(now, s) implies #[trigger] packets(
            after,
            s,
            d,
        ) == 0 by {
            if tallied(held, s) {
                let k = choose|k: int| 0 <= k < held.len() && (#[trigger] held[k]).service@ == s;
                assert(now[k].service@ == s);
            }
            assert(packets(log, s, d) == 0);
            if s == service@ {
                assert(now[n as int].service@ == service@);
            }
        }
    }
}

/// In-memory index of the proxy events the observer has recorded. Keeps the raw
/// event log (for session correlation) alongside incremental aggregates, so the
/// lookups of the waiters, which run every few milliseconds, never rescan it.
pub struct EventIndex {
    events: Vec<(String, ConnEvent)>,
    tallies: Vec<Tally>,
    freezes: u32,
    /// When the proxy last held the fleet, which is also when the fault landed.
    froze_at: Option<u128>,
    /// What the fault has said of itself, since a fault nothing can be seen to
    /// have met is one the run cannot be judged on.
    placed: Vec<Reported>,
    last_ts: Option<u128>,
}

impl DeepView for EventIndex {
    type V = Log;

    closed spec fn deep_view(&self) -> Log {
        self.events.deep_view()
    }
}

impl Default for EventIndex {
    fn default() -> (r: EventIndex)
        ensures
            r.deep_view() == (Seq::<(Seq<char>, EventModel)>::empty()),
    {
        let events: Vec<(String, ConnEvent)> = Vec::new();
        let placed: Vec<Reported> = Vec::new();
        proof {
            assert(events.deep_view() =~= Seq::empty());
            assert(placed.deep_view() =~= Seq::empty());
        }
        EventIndex { events, tallies: Vec::new(), freezes: 0, froze_at: None, placed, last_ts: None }
    }
}

impl EventIndex {
    /// Whether the aggregates say what the log does.
    #[verifier::type_invariant]
    spec fn wf(&self) -> bool {
        let log = self.deep_view();
        &&& self.freezes == freezes(log)
        &&& self.froze_at == froze_at(log)
        &&& self.placed.deep_view() == said(log)
        &&& self.last_ts == latest(log)
        &&& forall|k: int| 0 <= k < self.tallies@.len() ==> (#[trigger] self.tallies@[k]).tells(log)
        &&& forall|service: Seq<char>, direction: Direction|
            !tallied(self.tallies@, service) ==> #[trigger] packets(log, service, direction) == 0
    }

    /// Record one observed event, folding it into the aggregates before storing
    /// it. `Wrote` events count as packets and `Froze` events as freezes; every
    /// event advances the last seen timestamp.
    pub fn record(&mut self, service: String, event: ConnEvent)
        requires
            event.deep_view().kind is Froze ==> freezes(old(self).deep_view()) < u32::MAX,
            event.deep_view().kind matches EventKindModel::Wrote { direction, .. } ==> packets(
                old(self).deep_view(),
                service@,
                direction,
            ) < u32::MAX,
        ensures
            final(self).deep_view() == old(self).deep_view().push((service@, event.deep_view())),
    {
        proof {
            use_type_invariant(&*self);
        }
        let ghost log = self.deep_view();
        let ghost added = (service@, event.deep_view());
        let ghost after = log.push(added);
        assert(after.drop_last() =~= log);
        let mut index = EventIndex::default();
        std::mem::swap(&mut index, self);
        let EventIndex { mut events, mut tallies, mut freezes, mut froze_at, mut placed, last_ts } =
            index;
        let last_ts = Some(
            match last_ts {
                Some(prev) => if prev > event.ts_ns {
                    prev
                } else {
                    event.ts_ns
                },
                None => event.ts_ns,
            },
        );
        if let ConnEventKind::Wrote { direction, .. } = &event.kind {
            count(&mut tallies, &service, *direction, Ghost(log), Ghost(after));
        } else {
            proof {
                assert forall|k: int| 0 <= k < tallies@.len() implies (
                #[trigger] tallies@[k]).tells(after) by {
                    assert(tallies@[k].tells(log));
                }
                assert forall|s: Seq<char>, d: Direction| !tallied(tallies@, s) implies
                    #[trigger] packets(after, s, d) == 0 by {
                    assert(packets(log, s, d) == 0);
                }
            }
        }
        if let ConnEventKind::Froze { .. } = &event.kind {
            freezes += 1;
            froze_at = Some(event.ts_ns);
        }
        if let ConnEventKind::Did { did } = &event.kind {
            let ghost before = placed.deep_view();
            let report = Reported { did: did.clone(), at_ns: event.ts_ns };
            let ghost told = report.deep_view();
            placed.push(report);
            assert(placed.deep_view() =~= before.push(told));
        }
        events.push((service, event));
        assert(events.deep_view() =~= after);
        *self = EventIndex { events, tallies, freezes, froze_at, placed, last_ts };
    }

    /// What the fault said of itself, in the order it said it.
    pub fn placed(&self) -> (r: &[Reported])
        ensures
            r.deep_view() == said(self.deep_view()),
    {
        proof {
            use_type_invariant(self);
        }
        let r = self.placed.as_slice();
        assert(r.deep_view() =~= self.placed.deep_view());
        r
    }

    /// How many packets `service` has written on `direction` so far.
    pub fn packet_count(&self, service: &str, direction: Direction) -> (r: u32)
        ensures
            r == packets(self.deep_view(), service@, direction),
    {
        proof {
            use_type_invariant(self);
        }
        for i in 0..self.tallies.len()
            invariant
                self.wf(),
                forall|k: int| 0 <= k < i ==> (#[trigger] self.tallies@[k]).service@ != service@,
        {
            if same(self.tallies[i].service.as_str(), service) {
                assert(self.tallies@[i as int].tells(self.deep_view()));
                return match direction {
                    Direction::ClientToUpstream => self.tallies[i].client_to_upstream,
                    Direction::UpstreamToClient => self.tallies[i].upstream_to_client,
                };
            }
        }
        assert(!tallied(self.tallies@, service@));
        0
    }

    /// How many times the proxy has reported the fleet freezing (the fault
    /// anchor tripping) so far.
    pub fn freeze_count(&self) -> (r: u32)
        ensures
            r == freezes(self.deep_view()),
    {
        proof {
            use_type_invariant(self);
        }
        self.freezes
    }

    /// Wall-clock nanoseconds of the last freeze, or `None` if the fleet has not
    /// been held.
    pub fn froze_at_ns(&self) -> (r: Option<u128>)
        ensures
            r == froze_at(self.deep_view()),
    {
        proof {
            use_type_invariant(self);
        }
        self.froze_at
    }

    /// Wall-clock nanoseconds of the most recent event, or `None` if nothing has
    /// been recorded yet.
    pub fn last_event_ns(&self) -> (r: Option<u128>)
        ensures
            r == latest(self.deep_view()),
    {
        proof {
            use_type_invariant(self);
        }
        self.last_ts
    }

    /// Correlate every recorded event into `Session` records.
    pub fn sessions(&self) -> (r: Vec<Session>)
        ensures
            r.deep_view() == accepted(SessionsModel::none(), self.deep_view()).listed(),
    {
        let ghost log = self.deep_view();
        let mut sessions = Sessions::new();
        for i in 0..self.events.len()
            invariant
                log == self.events.deep_view(),
                sessions.deep_view() == accepted(SessionsModel::none(), log.take(i as int)),
        {
            proof {
                assert(log[i as int] == self.events@[i as int].deep_view());
                assert(log.take(i + 1).drop_last() =~= log.take(i as int));
            }
            let event = self.events[i].1.clone();
            sessions.accept_event(self.events[i].0.as_str(), event);
        }
        assert(log.take(log.len() as int) =~= log);
        sessions.into_sessions()
    }
}

/// The latest timestamp is at or after every event's, and is one event's.
pub proof fn lemma_latest_is_the_max(log: Log)
    ensures
        latest(log) is None <==> log.len() == 0,
        forall|i: int|
            0 <= i < log.len() ==> latest(log) is Some && (#[trigger] log[i]).1.ts_ns
                <= latest(log)->0,
        log.len() > 0 ==> exists|i: int|
            0 <= i < log.len() && (#[trigger] log[i]).1.ts_ns == latest(log)->0,
    decreases log.len(),
{
    if log.len() > 0 {
        let rest = log.drop_last();
        lemma_latest_is_the_max(rest);
        assert(log.last() == log[log.len() - 1]);
        assert forall|i: int| 0 <= i < log.len() implies latest(log) is Some && (
        #[trigger] log[i]).1.ts_ns <= latest(log)->0 by {
            if i < rest.len() {
                assert(rest[i] == log[i]);
            }
        }
        if rest.len() > 0 {
            let i = choose|i: int| 0 <= i < rest.len() && (#[trigger] rest[i]).1.ts_ns == latest(rest)->0;
            assert(rest[i] == log[i]);
        }
    }
}

/// Whether a wait is over, and what it came to.
#[derive(Clone, Copy, Debug, PartialEq, Eq, Structural)]
pub enum Wait {
    Over(bool),
    Again,
}

/// What a wait for the fleet to freeze comes to. It is over when a freeze came
/// after the `baseline` it is told, or when its time is up.
///
/// The caller takes `baseline` from [`EventIndex::freeze_count`] when it arms
/// the anchor, and passes the same one to every wait. Taking a fresh one per
/// call would hide a freeze that had already arrived, and the run would go
/// looking for a second that is never coming.
pub open spec fn freeze_wait(frozen: nat, baseline: u32, expired: bool) -> Wait {
    if frozen > baseline {
        Wait::Over(true)
    } else if expired {
        Wait::Over(false)
    } else {
        Wait::Again
    }
}

/// What the wait for a fault to be placed comes to: what the fault last said of
/// itself, once that is that it was placed, or once its time is up.
pub open spec fn placed_wait(
    reports: Seq<ReportedModel>,
    expired: bool,
) -> Option<Option<ReportedModel>> {
    let last = if reports.len() > 0 {
        Some(reports.last())
    } else {
        None
    };
    if expired || (last is Some && last->0.did is Placed) {
        Some(last)
    } else {
        None
    }
}

/// How long the fleet has carried nothing by `now_ns`. A fleet that has carried
/// nothing at all is as quiet as it is asked to be.
pub open spec fn quiet_for(last: Option<u128>, now_ns: u128, idle_ns: u128) -> u128 {
    match last {
        Some(ts) => if now_ns >= ts {
            (now_ns - ts) as u128
        } else {
            0
        },
        None => idle_ns,
    }
}

impl EventIndex {
    /// Whether a wait for the proxy to report the fleet frozen since `baseline`
    /// is over, and whether the freeze was observed.
    ///
    /// A freeze that the proxy itself releases may already be over by the time
    /// it is seen here, so this says the fault was placed, not that the fleet is
    /// still held. Use [`Self::froze_at_ns`] for when it landed.
    pub fn wait_for_freeze(&self, baseline: u32, expired: bool) -> (r: Wait)
        ensures
            r == freeze_wait(freezes(self.deep_view()), baseline, expired),
    {
        proof {
            use_type_invariant(self);
        }
        if self.freezes > baseline {
            Wait::Over(true)
        } else if expired {
            Wait::Over(false)
        } else {
            Wait::Again
        }
    }

    /// Whether a wait for the fault to be seen placed is over, and what it last
    /// said of itself, which is `None` if it said nothing at all.
    ///
    /// A fault that asks the fleet for something cannot be known to have landed
    /// when it is asked, only when the fleet does it. Waiting for that is what
    /// separates a run the fleet met from one it never did.
    pub fn wait_for_placed(&self, expired: bool) -> (r: Option<Option<Reported>>)
        ensures
            r.deep_view() == placed_wait(said(self.deep_view()), expired),
    {
        proof {
            use_type_invariant(self);
        }
        let ghost reports = self.placed.deep_view();
        let n = self.placed.len();
        if n == 0 {
            return if expired {
                Some(None)
            } else {
                None
            };
        }
        let last = &self.placed[n - 1];
        assert(reports.last() == last.deep_view());
        let landed = match &last.did {
            Did::Placed(_) => true,
            _ => false,
        };
        if expired || landed {
            Some(Some(last.clone()))
        } else {
            None
        }
    }

    /// Whether a wait for no sidecar to have forwarded traffic for `idle_ns` is
    /// over, by the clock that reads `now_ns`. Network idle across every sidecar
    /// implies persisted-state writes have landed too, since those flow through
    /// the db sidecar.
    pub fn wait_for_quiescence(&self, now_ns: u128, idle_ns: u128, expired: bool) -> (r: bool)
        ensures
            r == (quiet_for(latest(self.deep_view()), now_ns, idle_ns) >= idle_ns || expired),
    {
        proof {
            use_type_invariant(self);
        }
        let quiet = match self.last_ts {
            Some(ts) => if now_ns >= ts {
                now_ns - ts
            } else {
                0
            },
            None => idle_ns,
        };
        quiet >= idle_ns || expired
    }
}

/// A freeze stays seen by every wait that shares a baseline: whatever is
/// recorded after it, and whether or not the time is up, the wait comes to the
/// same answer.
pub proof fn lemma_freeze_stays_seen(log: Log, more: Log, baseline: u32, expired: bool, later: bool)
    requires
        freeze_wait(freezes(log), baseline, expired) == Wait::Over(true),
    ensures
        freeze_wait(freezes(log + more), baseline, later) == Wait::Over(true),
    decreases more.len(),
{
    if more.len() == 0 {
        assert(log + more =~= log);
    } else {
        lemma_freeze_stays_seen(log, more.drop_last(), baseline, expired, later);
        assert((log + more).drop_last() =~= log + more.drop_last());
    }
}

/// One line of the fleet's proxy log.
#[derive(Debug, PartialEq, Eq)]
pub enum Line {
    /// An event, and the service it is about.
    Event { service: String, json: String },
    /// A line that names no service.
    Untagged(String),
}

/// What a [`Line`] says.
pub enum LineModel {
    Event { service: Seq<char>, json: Seq<char> },
    Untagged(Seq<char>),
}

impl DeepView for Line {
    type V = LineModel;

    open spec fn deep_view(&self) -> LineModel {
        match self {
            Line::Event { service, json } => LineModel::Event { service: service@, json: json@ },
            Line::Untagged(text) => LineModel::Untagged(text@),
        }
    }
}

/// Where the first `x` is, or the length if there is none.
pub open spec fn first_of<T>(s: Seq<T>, x: T) -> nat
    decreases s.len(),
{
    if s.len() == 0 || s[0] == x {
        0
    } else {
        1 + first_of(s.skip(1), x)
    }
}

/// What a line of text says, or `None` for a blank one. Each line is
/// `service\tjson`: the proxy tags every event with the pair's service so one
/// interleaved stream stays attributable.
pub open spec fn line(text: Seq<char>) -> Option<LineModel> {
    let said = trimmed(text);
    let tab = first_of(said, '\t') as int;
    if said.len() == 0 {
        None
    } else if tab == said.len() {
        Some(LineModel::Untagged(said))
    } else {
        Some(LineModel::Event { service: said.take(tab), json: said.skip(tab + 1) })
    }
}

/// The end of a line of the log.
pub const NEWLINE: u8 = 10;

/// What the complete lines of `bytes` say.
pub open spec fn lines(bytes: Seq<u8>) -> Seq<LineModel>
    decreases bytes.len(),
{
    let end = first_of(bytes, NEWLINE) as int;
    if end >= bytes.len() {
        Seq::empty()
    } else {
        let rest = lines(bytes.skip(end + 1));
        match line(lossy(bytes.take(end))) {
            Some(first) => seq![first] + rest,
            None => rest,
        }
    }
}

/// The line of `bytes` that is not complete.
pub open spec fn unfinished(bytes: Seq<u8>) -> Seq<u8>
    decreases bytes.len(),
{
    let end = first_of(bytes, NEWLINE) as int;
    if end >= bytes.len() {
        bytes
    } else {
        unfinished(bytes.skip(end + 1))
    }
}

proof fn lemma_first_of<T>(s: Seq<T>, x: T, n: int)
    requires
        0 <= n <= s.len(),
        forall|k: int| 0 <= k < n ==> s[k] != x,
        n == s.len() || s[n] == x,
    ensures
        first_of(s, x) == n,
    decreases n,
{
    if n > 0 {
        assert forall|k: int| 0 <= k < n - 1 implies s.skip(1)[k] != x by {
            assert(s.skip(1)[k] == s[k + 1]);
        }
        assert(n < s.len() ==> s.skip(1)[n - 1] == s[n]);
        lemma_first_of(s.skip(1), x, n - 1);
    }
}

proof fn lemma_first_of_holds<T>(s: Seq<T>, x: T)
    ensures
        first_of(s, x) <= s.len(),
        forall|k: int| 0 <= k < first_of(s, x) ==> s[k] != x,
        first_of(s, x) < s.len() ==> s[first_of(s, x) as int] == x,
    decreases s.len(),
{
    if s.len() > 0 && s[0] != x {
        lemma_first_of_holds(s.skip(1), x);
        assert forall|k: int| 0 <= k < first_of(s, x) implies s[k] != x by {
            if k > 0 {
                assert(s[k] == s.skip(1)[k - 1]);
            }
        }
    }
}

/// What a line of text says, or `None` for a blank one.
pub fn read_line(text: &str) -> (r: Option<Line>)
    ensures
        r.deep_view() == line(text@),
{
    let said = trim(text);
    let n = said.len();
    if n == 0 {
        return None;
    }
    let mut tab: usize = 0;
    while tab < n && said[tab] != '\t'
        invariant
            tab <= n,
            n == said@.len(),
            forall|k: int| 0 <= k < tab ==> said@[k] != '\t',
        decreases n - tab,
    {
        tab += 1;
    }
    proof {
        lemma_first_of(said@, '\t', tab as int);
    }
    if tab == n {
        return Some(Line::Untagged(text_of(said.as_slice())));
    }
    let service = text_of(vstd::slice::slice_subrange(said.as_slice(), 0, tab));
    let json = text_of(vstd::slice::slice_subrange(said.as_slice(), tab + 1, n));
    proof {
        assert(service@ =~= said@.take(tab as int));
        assert(json@ =~= said@.skip(tab + 1));
    }
    Some(Line::Event { service, json })
}

/// Assemble `chunk` into lines after what `buffer` still holds, and read those
/// that are now complete.
pub fn read_chunk(buffer: &mut Vec<u8>, chunk: &[u8]) -> (r: Vec<Line>)
    ensures
        r.deep_view() == lines(old(buffer)@ + chunk@),
        final(buffer)@ == unfinished(old(buffer)@ + chunk@),
{
    let ghost held = buffer@;
    for i in 0..chunk.len()
        invariant
            buffer@ == held + chunk@.take(i as int),
    {
        buffer.push(chunk[i]);
        assert(buffer@ =~= held + chunk@.take(i + 1));
    }
    let ghost whole = held + chunk@;
    assert(buffer@ =~= whole);
    let n: usize = buffer.len();
    let mut out: Vec<Line> = Vec::new();
    let mut start: usize = 0;
    let mut end: usize = 0;
    proof {
        assert(out.deep_view() + lines(whole.skip(0)) =~= lines(whole.skip(0)));
        assert(whole.skip(0) =~= whole);
    }
    while end < n
        invariant
            start <= end <= n,
            n == buffer@.len(),
            whole == buffer@,
            out.deep_view() + lines(whole.skip(start as int)) == lines(whole),
            unfinished(whole.skip(start as int)) == unfinished(whole),
            forall|k: int| start <= k < end ==> whole[k] != NEWLINE,
        decreases n - end,
    {
        if buffer[end] == NEWLINE {
            let ghost rest = whole.skip(start as int);
            let ghost after = whole.skip(end + 1);
            proof {
                assert forall|k: int| 0 <= k < end - start implies rest[k] != NEWLINE by {
                    assert(rest[k] == whole[start + k]);
                }
                assert(rest[end - start] == whole[end as int]);
                lemma_first_of(rest, NEWLINE, end - start);
                assert(rest.skip(end - start + 1) =~= after);
                assert(rest.take(end - start) =~= whole.subrange(start as int, end as int));
            }
            let text = read_lossy(vstd::slice::slice_subrange(buffer.as_slice(), start, end));
            if let Some(next) = read_line(text.as_str()) {
                let ghost before = out.deep_view();
                let ghost added = next.deep_view();
                out.push(next);
                proof {
                    assert(out.deep_view() =~= before.push(added));
                    assert(before + (seq![added] + lines(after)) =~= before.push(added) + lines(
                        after,
                    ));
                }
            }
            start = end + 1;
        }
        end += 1;
    }
    let ghost rest = whole.skip(start as int);
    proof {
        assert forall|k: int| 0 <= k < n - start implies rest[k] != NEWLINE by {
            assert(rest[k] == whole[start + k]);
        }
        lemma_first_of(rest, NEWLINE, n - start);
        assert(out.deep_view() + Seq::empty() =~= out.deep_view());
    }
    let mut left: Vec<u8> = Vec::new();
    for i in start..n
        invariant
            start <= n,
            n == buffer@.len(),
            whole == buffer@,
            left@ == whole.subrange(start as int, i as int),
    {
        left.push(buffer[i]);
        assert(whole.subrange(start as int, i + 1) =~= whole.subrange(start as int, i as int).push(
            whole[i as int],
        ));
    }
    assert(left@ =~= rest);
    *buffer = left;
    out
}

/// However a stream is cut into chunks, it reads the same: what two chunks say
/// one after the other is what they say together.
pub proof fn lemma_cut_anywhere(a: Seq<u8>, b: Seq<u8>)
    ensures
        lines(a + b) == lines(a) + lines(unfinished(a) + b),
        unfinished(a + b) == unfinished(unfinished(a) + b),
    decreases a.len(),
{
    let end = first_of(a, NEWLINE) as int;
    lemma_first_of_holds(a, NEWLINE);
    if end >= a.len() {
        assert(lines(a) + lines(a + b) =~= lines(a + b));
    } else {
        let rest = a.skip(end + 1);
        lemma_cut_anywhere(rest, b);
        assert forall|k: int| 0 <= k < end implies (a + b)[k] != NEWLINE by {
            assert((a + b)[k] == a[k]);
        }
        assert((a + b)[end] == a[end]);
        lemma_first_of(a + b, NEWLINE, end);
        assert((a + b).skip(end + 1) =~= rest + b);
        assert((a + b).take(end) =~= a.take(end));
        match line(lossy(a.take(end))) {
            Some(first) => {
                assert(seq![first] + (lines(rest) + lines(unfinished(rest) + b)) =~= seq![first]
                    + lines(rest) + lines(unfinished(rest) + b));
            },
            None => {},
        }
    }
}

} // verus!
