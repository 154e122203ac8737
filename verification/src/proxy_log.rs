//! Reconstruct `Session` records from sidecar proxy log lines.

use vstd::prelude::*;

use crate::protocol::{
    Burst, ConnEvent, ConnEventKind, ConnId, Direction, Edge, EdgeModel, EdgeProfile,
    EdgeProfileModel, EventKindModel, EventModel, Session, SessionModel, WriteRecord,
};
use crate::scheduler::burst::{ends, in_order, one_burst, BURST_GAP_NS};
use crate::sorting::{
    lemma_sorted_in_order, lemma_sorted_keeps, lemma_sorted_map, sort_stable, stable_sorted,
};
use crate::text::{order_texts, same, text_order, Order};

verus! {

/// A connection that has opened and not closed.
struct Pending {
    service: String,
    id: ConnId,
    opened_ns: u128,
    peer: String,
    writes: Vec<WriteRecord>,
}

/// A connection that has opened and not closed, as the session it would be were
/// it read now.
impl DeepView for Pending {
    type V = SessionModel;

    closed spec fn deep_view(&self) -> SessionModel {
        SessionModel {
            service: self.service@,
            conn_id: self.id,
            peer: self.peer@,
            opened_ns: self.opened_ns,
            closed_ns: None,
            writes: self.writes@,
        }
    }
}

/// Whether a session is that connection of that service.
pub open spec fn is_conn(session: SessionModel, service: Seq<char>, id: ConnId) -> bool {
    session.service == service && session.conn_id == id
}

/// The sessions of a learn run so far: those still open, and those that closed.
pub struct SessionsModel {
    pub opened: Seq<SessionModel>,
    pub finished: Seq<SessionModel>,
}

/// The open sessions without that connection.
pub open spec fn without(opened: Seq<SessionModel>, service: Seq<char>, id: ConnId) -> Seq<SessionModel> {
    opened.filter(|session: SessionModel| !is_conn(session, service, id))
}

/// The open session that is that connection, if there is one.
pub open spec fn conn_of(opened: Seq<SessionModel>, service: Seq<char>, id: ConnId) -> Option<SessionModel>
    decreases opened.len(),
{
    if opened.len() == 0 {
        None
    } else if is_conn(opened[0], service, id) {
        Some(opened[0])
    } else {
        conn_of(opened.skip(1), service, id)
    }
}

/// The open sessions with a write recorded on that connection.
pub open spec fn with_write(
    opened: Seq<SessionModel>,
    service: Seq<char>,
    id: ConnId,
    write: WriteRecord,
) -> Seq<SessionModel> {
    opened.map_values(
        |session: SessionModel|
            if is_conn(session, service, id) {
                SessionModel { writes: session.writes.push(write), ..session }
            } else {
                session
            },
    )
}

impl SessionsModel {
    /// Nothing observed yet.
    pub open spec fn none() -> SessionsModel {
        SessionsModel { opened: Seq::empty(), finished: Seq::empty() }
    }

    /// The sessions once an event of `service` has been taken in.
    pub open spec fn accepting(self, service: Seq<char>, event: EventModel) -> SessionsModel {
        match event.kind {
            EventKindModel::Opened { peer } => SessionsModel {
                opened: without(self.opened, service, event.id).push(
                    SessionModel {
                        service,
                        conn_id: event.id,
                        peer,
                        opened_ns: event.ts_ns,
                        closed_ns: None,
                        writes: Seq::empty(),
                    },
                ),
                ..self
            },
            EventKindModel::Wrote { direction, bytes } => SessionsModel {
                opened: with_write(
                    self.opened,
                    service,
                    event.id,
                    WriteRecord { ts_ns: event.ts_ns, direction, bytes },
                ),
                ..self
            },
            EventKindModel::Closed { .. } => match conn_of(self.opened, service, event.id) {
                Some(session) => SessionsModel {
                    opened: without(self.opened, service, event.id),
                    finished: self.finished.push(
                        SessionModel { closed_ns: Some(event.ts_ns), ..session },
                    ),
                },
                None => self,
            },
            EventKindModel::Failed { .. } => SessionsModel {
                opened: without(self.opened, service, event.id),
                ..self
            },
            // Signals about the fault, not part of a session's byte accounting.
            EventKindModel::Froze { .. } => self,
            EventKindModel::Did { .. } => self,
        }
    }

    /// Every session, in the order they opened.
    pub open spec fn listed(self) -> Seq<SessionModel> {
        stable_sorted(self.finished + self.opened, opened_before())
    }

    /// Whether no connection is open twice.
    pub open spec fn distinct(self) -> bool {
        each_once(self.opened)
    }
}

/// Whether no connection is listed twice.
pub open spec fn each_once(opened: Seq<SessionModel>) -> bool {
    forall|i: int, j: int|
        0 <= i < j < opened.len() ==> !is_conn(
            #[trigger] opened[i],
            (#[trigger] opened[j]).service,
            opened[j].conn_id,
        )
}

/// Whether one session comes before another: by when it opened, then by its
/// service, then by its connection.
pub open spec fn opened_before() -> spec_fn(SessionModel, SessionModel) -> bool {
    |a: SessionModel, b: SessionModel|
        a.opened_ns < b.opened_ns || (a.opened_ns == b.opened_ns && (text_order(a.service, b.service)
            == Order::Less || (a.service == b.service && a.conn_id < b.conn_id)))
}

/// Sessions observed across a Learn run.
pub struct Sessions {
    opened: Vec<Pending>,
    finished: Vec<Session>,
}

impl DeepView for Sessions {
    type V = SessionsModel;

    closed spec fn deep_view(&self) -> SessionsModel {
        SessionsModel { opened: self.opened.deep_view(), finished: self.finished.deep_view() }
    }
}

impl Default for Sessions {
    fn default() -> (r: Sessions)
        ensures
            r.deep_view() == SessionsModel::none(),
    {
        let opened: Vec<Pending> = Vec::new();
        let finished: Vec<Session> = Vec::new();
        proof {
            assert(opened.deep_view() =~= Seq::empty());
            assert(finished.deep_view() =~= Seq::empty());
        }
        Sessions { opened, finished }
    }
}

/// A connection open once is found wherever it stands.
proof fn lemma_conn_of(opened: Seq<SessionModel>, service: Seq<char>, id: ConnId, n: int)
    requires
        0 <= n <= opened.len(),
        forall|k: int| 0 <= k < n ==> !is_conn(#[trigger] opened[k], service, id),
    ensures
        conn_of(opened, service, id) == conn_of(opened.skip(n), service, id),
    decreases n,
{
    if n > 0 {
        lemma_conn_of(opened, service, id, n - 1);
        assert(opened.skip(n - 1).skip(1) =~= opened.skip(n));
        assert(opened.skip(n - 1)[0] == opened[n - 1]);
    } else {
        assert(opened.skip(0) =~= opened);
    }
}

/// Forgets the connection, and hands back what was pending on it.
fn take_pending(opened: &mut Vec<Pending>, service: &str, id: ConnId) -> (r: Option<Pending>)
    requires
        each_once(old(opened).deep_view()),
    ensures
        final(opened).deep_view() == without(old(opened).deep_view(), service@, id),
        each_once(final(opened).deep_view()),
        r.deep_view() == conn_of(old(opened).deep_view(), service@, id),
{
    let ghost before = opened.deep_view();
    let mut at: usize = 0;
    let n = opened.len();
    while at < n && !(opened[at].id == id && same(opened[at].service.as_str(), service))
        invariant
            at <= n,
            n == before.len(),
            before == opened.deep_view(),
            forall|k: int| 0 <= k < at ==> !is_conn(#[trigger] before[k], service@, id),
        decreases n - at,
    {
        assert(before[at as int] == opened@[at as int].deep_view());
        at += 1;
    }
    proof {
        lemma_conn_of(before, service@, id, at as int);
    }
    if at == n {
        proof {
            assert(before.skip(n as int) =~= Seq::empty());
            lemma_without_none(before, service@, id);
        }
        return None;
    }
    proof {
        assert(before[at as int] == opened@[at as int].deep_view());
        assert(before.skip(at as int)[0] == before[at as int]);
        lemma_without_one(before, service@, id, at as int);
    }
    let pending = opened.remove(at);
    proof {
        assert(opened.deep_view() =~= before.remove(at as int));
        let after = before.remove(at as int);
        assert forall|i: int, j: int| 0 <= i < j < after.len() implies !is_conn(
            #[trigger] after[i],
            (#[trigger] after[j]).service,
            after[j].conn_id,
        ) by {
            let p = if i < at {
                i
            } else {
                i + 1
            };
            let q = if j < at {
                j
            } else {
                j + 1
            };
            assert(after[i] == before[p]);
            assert(after[j] == before[q]);
        }
    }
    Some(pending)
}

impl Sessions {
    /// Whether no connection is open twice.
    #[verifier::type_invariant]
    pub open spec fn wf(&self) -> bool {
        self.deep_view().distinct()
    }

    /// Nothing observed yet.
    pub fn new() -> (r: Sessions)
        ensures
            r.deep_view() == SessionsModel::none(),
    {
        Sessions::default()
    }

    /// Takes in one event of `service`.
    pub fn accept_event(&mut self, service: &str, event: ConnEvent)
        ensures
            final(self).deep_view() == old(self).deep_view().accepting(service@, event.deep_view()),
            final(self).deep_view().distinct(),
    {
        proof {
            use_type_invariant(&*self);
        }
        let ghost start = self.deep_view();
        let mut opened: Vec<Pending> = Vec::new();
        let mut finished: Vec<Session> = Vec::new();
        assert(opened.deep_view() =~= Seq::empty());
        std::mem::swap(&mut opened, &mut self.opened);
        std::mem::swap(&mut finished, &mut self.finished);
        match event.kind {
            ConnEventKind::Opened { peer } => {
                take_pending(&mut opened, service, event.id);
                let ghost rest = opened.deep_view();
                proof {
                    assert forall|k: int| 0 <= k < rest.len() implies !is_conn(
                        #[trigger] rest[k],
                        service@,
                        event.id,
                    ) by {
                        lemma_without_clears(start.opened, service@, event.id, k);
                    }
                }
                let pending = Pending {
                    service: service.to_owned(),
                    id: event.id,
                    opened_ns: event.ts_ns,
                    peer,
                    writes: Vec::new(),
                };
                let ghost added = pending.deep_view();
                opened.push(pending);
                proof {
                    assert(added.writes =~= Seq::empty());
                    assert(opened.deep_view() =~= rest.push(added));
                }
            },
            ConnEventKind::Wrote { direction, bytes } => {
                let write = WriteRecord { ts_ns: event.ts_ns, direction, bytes };
                let ghost before = opened.deep_view();
                let ghost after = with_write(before, service@, event.id, write);
                let n = opened.len();
                for i in 0..n
                    invariant
                        n == before.len(),
                        n == opened@.len(),
                        after == with_write(before, service@, event.id, write),
                        forall|k: int|
                            0 <= k < i ==> (#[trigger] opened@[k]).deep_view() == after[k],
                        forall|k: int|
                            i <= k < n ==> (#[trigger] opened@[k]).deep_view() == before[k],
                {
                    assert(opened@[i as int].deep_view() == before[i as int]);
                    if opened[i].id == event.id && same(
                        opened[i].service.as_str(),
                        service,
                    ) {
                        let ghost was = opened@;
                        let mut pending = opened.remove(i);
                        pending.writes.push(write);
                        assert(pending.deep_view() == after[i as int]);
                        opened.insert(i, pending);
                        proof {
                            assert(opened@ =~= was.update(i as int, pending));
                        }
                    }
                }
                proof {
                    assert(opened.deep_view() =~= after);
                    assert forall|i: int, j: int| 0 <= i < j < after.len() implies !is_conn(
                        #[trigger] after[i],
                        (#[trigger] after[j]).service,
                        after[j].conn_id,
                    ) by {
                        assert(!is_conn(before[i], before[j].service, before[j].conn_id));
                    }
                }
            },
            ConnEventKind::Closed { .. } => {
                let ghost ended = finished.deep_view();
                match take_pending(&mut opened, service, event.id) {
                    Some(pending) => {
                        let session = Session {
                            service: pending.service,
                            conn_id: pending.id,
                            peer: pending.peer,
                            opened_ns: pending.opened_ns,
                            closed_ns: Some(event.ts_ns),
                            writes: pending.writes,
                        };
                        let ghost added = session.deep_view();
                        finished.push(session);
                        assert(finished.deep_view() =~= ended.push(added));
                    },
                    None => {
                        proof {
                            lemma_conn_none(start.opened, service@, event.id);
                            lemma_without_none(start.opened, service@, event.id);
                        }
                    },
                }
            },
            ConnEventKind::Failed { .. } => {
                take_pending(&mut opened, service, event.id);
            },
            // A control signal about the fault anchor, not part of a session's
            // byte accounting; the freeze waiter consumes it elsewhere.
            ConnEventKind::Froze { .. } => {},
            ConnEventKind::Did { .. } => {},
        }
        self.finished = finished;
        self.opened = opened;
    }

    /// Every session, those still open among them, in the order they opened.
    pub fn into_sessions(self) -> (r: Vec<Session>)
        ensures
            r.deep_view() == self.deep_view().listed(),
    {
        let ghost model = self.deep_view();
        let Sessions { opened, finished } = self;
        let mut all = finished;
        let ghost pending = opened@;
        let ghost finished_model = all.deep_view();
        assert(finished_model + model.opened.take(0) =~= finished_model);
        for open in it: opened
            invariant
                it.seq() == pending,
                model.opened.len() == pending.len(),
                forall|k: int|
                    0 <= k < pending.len() ==> (#[trigger] pending[k]).deep_view() == model.opened[k],
                all.deep_view() == finished_model + model.opened.take(it.index() as int),
        {
            let ghost n = it.index() as int;
            let ghost so_far = all.deep_view();
            assert(open == pending[n]);
            let session = Session {
                service: open.service,
                conn_id: open.id,
                peer: open.peer,
                opened_ns: open.opened_ns,
                closed_ns: None,
                writes: open.writes,
            };
            let ghost added = session.deep_view();
            all.push(session);
            proof {
                assert(added == model.opened[n]);
                assert(all.deep_view() =~= so_far.push(added));
                assert(finished_model + model.opened.take(n + 1) =~= (finished_model
                    + model.opened.take(n)).push(added));
            }
        }
        proof {
            assert(model.opened.take(model.opened.len() as int) =~= model.opened);
        }
        let ghost before = |a: Session, b: Session| opened_before()(a.deep_view(), b.deep_view());
        let ghost read = |s: Session| s.deep_view();
        let ghost whole = all@;
        proof {
            assert(whole.map_values(read) =~= all.deep_view());
        }
        let sorted = sort_stable(all, is_opened_before, Ghost(before));
        proof {
            lemma_sorted_map(whole, before, read, opened_before());
            assert(sorted@.map_values(read) =~= sorted.deep_view());
        }
        sorted
    }
}

fn is_opened_before(a: &Session, b: &Session) -> (r: bool)
    ensures
        r == opened_before()(a.deep_view(), b.deep_view()),
{
    if a.opened_ns != b.opened_ns {
        return a.opened_ns < b.opened_ns;
    }
    match order_texts(a.service.as_str(), b.service.as_str()) {
        Order::Less => true,
        _ => a.service == b.service && a.conn_id < b.conn_id,
    }
}

proof fn lemma_without_none(opened: Seq<SessionModel>, service: Seq<char>, id: ConnId)
    requires
        forall|k: int| 0 <= k < opened.len() ==> !is_conn(#[trigger] opened[k], service, id),
    ensures
        without(opened, service, id) == opened,
    decreases opened.len(),
{
    reveal(Seq::filter);
    if opened.len() > 0 {
        assert(opened =~= opened.drop_last().push(opened.last()));
        assert(opened[opened.len() - 1] == opened.last());
        assert forall|k: int| 0 <= k < opened.drop_last().len() implies !is_conn(
            #[trigger] opened.drop_last()[k],
            service,
            id,
        ) by {
            assert(opened[k] == opened.drop_last()[k]);
        }
        lemma_without_none(opened.drop_last(), service, id);
    }
}

proof fn lemma_without_one(opened: Seq<SessionModel>, service: Seq<char>, id: ConnId, at: int)
    requires
        0 <= at < opened.len(),
        is_conn(opened[at], service, id),
        forall|k: int|
            0 <= k < opened.len() && k != at ==> !is_conn(#[trigger] opened[k], service, id),
    ensures
        without(opened, service, id) == opened.remove(at),
    decreases opened.len(),
{
    reveal(Seq::filter);
    let rest = opened.drop_last();
    assert(opened =~= rest.push(opened.last()));
    assert(opened[opened.len() - 1] == opened.last());
    if at == opened.len() - 1 {
        assert forall|k: int| 0 <= k < rest.len() implies !is_conn(#[trigger] rest[k], service, id) by {
            assert(opened[k] == rest[k]);
        }
        lemma_without_none(rest, service, id);
        assert(opened.remove(at) =~= rest);
    } else {
        assert forall|k: int| 0 <= k < rest.len() && k != at implies !is_conn(
            #[trigger] rest[k],
            service,
            id,
        ) by {
            assert(opened[k] == rest[k]);
        }
        assert(rest[at] == opened[at]);
        lemma_without_one(rest, service, id, at);
        assert(opened.remove(at) =~= rest.remove(at).push(opened.last()));
    }
}

proof fn lemma_without_clears(opened: Seq<SessionModel>, service: Seq<char>, id: ConnId, k: int)
    requires
        0 <= k < without(opened, service, id).len(),
    ensures
        !is_conn(without(opened, service, id)[k], service, id),
{
    opened.lemma_filter_pred(|session: SessionModel| !is_conn(session, service, id), k);
}

proof fn lemma_conn_none(opened: Seq<SessionModel>, service: Seq<char>, id: ConnId)
    requires
        conn_of(opened, service, id) is None,
    ensures
        forall|k: int| 0 <= k < opened.len() ==> !is_conn(#[trigger] opened[k], service, id),
    decreases opened.len(),
{
    if opened.len() > 0 {
        lemma_conn_none(opened.skip(1), service, id);
        assert forall|k: int| 0 <= k < opened.len() implies !is_conn(#[trigger] opened[k], service, id) by {
            if k > 0 {
                assert(opened[k] == opened.skip(1)[k - 1]);
            }
        }
    }
}

/// Everything `events` says, taken in one after another.
pub open spec fn accepted(start: SessionsModel, events: Seq<(Seq<char>, EventModel)>) -> SessionsModel
    decreases events.len(),
{
    if events.len() == 0 {
        start
    } else {
        accepted(start, events.drop_last()).accepting(events.last().0, events.last().1)
    }
}

impl Sessions {
    /// Takes in every event, in order.
    pub fn extend(&mut self, events: Vec<(String, ConnEvent)>)
        ensures
            final(self).deep_view() == accepted(old(self).deep_view(), events.deep_view()),
            final(self).deep_view().distinct(),
    {
        proof {
            use_type_invariant(&*self);
        }
        let ghost all = events@;
        let ghost model = events.deep_view();
        let ghost start = self.deep_view();
        for entry in it: events
            invariant
                it.seq() == all,
                model.len() == all.len(),
                forall|k: int| 0 <= k < all.len() ==> (#[trigger] all[k]).deep_view() == model[k],
                self.deep_view().distinct(),
                self.deep_view() == accepted(start, model.take(it.index() as int)),
        {
            let ghost n = it.index() as int;
            let (service, event) = entry;
            proof {
                assert(all[n].deep_view() == model[n]);
                assert(model.take(n + 1).drop_last() =~= model.take(n));
            }
            self.accept_event(service.as_str(), event);
        }
        assert(model.take(model.len() as int) =~= model);
    }

    /// The sessions `events` add up to.
    pub fn from_events(events: Vec<(String, ConnEvent)>) -> (r: Sessions)
        ensures
            r.deep_view() == accepted(SessionsModel::none(), events.deep_view()),
            r.deep_view().distinct(),
    {
        let mut sessions = Sessions::new();
        sessions.extend(events);
        sessions
    }
}

/// Cap on the total bursts in one catalogue so it always fits the IPC frame. A
/// learn run with more bursts than this keeps the busiest.
pub const MAX_TOTAL_BURSTS: usize = 100;

/// A network address, as the number it is.
#[derive(Clone, Copy, Debug, PartialEq, Eq, Structural)]
pub enum Address {
    V4(u32),
    V6(u128),
}

impl DeepView for Address {
    type V = Address;

    open spec fn deep_view(&self) -> Address {
        *self
    }
}

/// The service an address belongs to, or `None` for one outside the fleet.
pub open spec fn holder(addresses: Seq<(Address, Seq<char>)>, address: Address) -> Option<Seq<char>>
    decreases addresses.len(),
{
    if addresses.len() == 0 {
        None
    } else if addresses[0].0 == address {
        Some(addresses[0].1)
    } else {
        holder(addresses.skip(1), address)
    }
}

/// The service that dialled, or `None` for a caller from outside the fleet.
pub open spec fn dialler(
    addresses: Seq<(Address, Seq<char>)>,
    peer: Option<Address>,
) -> Option<Seq<char>> {
    match peer {
        Some(address) => holder(addresses, address),
        None => None,
    }
}

/// The service that dialled, or `None` for a caller from outside the fleet.
///
/// The peer is `address:port`; the port is the caller's ephemeral one, so only
/// the address identifies it.
fn client_of(peer: Option<Address>, addresses: &[(Address, String)]) -> (r: Option<String>)
    ensures
        r.deep_view() == dialler(addresses.deep_view(), peer),
{
    let ghost model = addresses.deep_view();
    match peer {
        Some(address) => {
            let n = addresses.len();
            let mut at: usize = 0;
            assert(model.skip(0) =~= model);
            while at < n
                invariant
                    at <= n,
                    n == addresses@.len(),
                    peer == Some(address),
                    model == addresses.deep_view(),
                    holder(model, address) == holder(model.skip(at as int), address),
                decreases n - at,
            {
                proof {
                    assert(model.skip(at as int)[0] == model[at as int]);
                    assert(model.skip(at as int).skip(1) =~= model.skip(at + 1));
                }
                if addresses[at].0 == address {
                    return Some(addresses[at].1.clone());
                }
                at += 1;
            }
            None
        },
        None => None,
    }
}

/// A packet that crossed an edge, at its time relative to scenario start.
struct Crossing {
    edge: Edge,
    direction: Direction,
    at: u128,
}

/// What a packet crossing an edge is.
#[verifier::ext_equal]
pub struct CrossingModel {
    pub edge: EdgeModel,
    pub direction: Direction,
    pub at: u128,
}

impl DeepView for Crossing {
    type V = CrossingModel;

    closed spec fn deep_view(&self) -> CrossingModel {
        CrossingModel { edge: self.edge.deep_view(), direction: self.direction, at: self.at }
    }
}

/// What crossed `edge` at or after `start`.
pub open spec fn crossed(edge: EdgeModel, writes: Seq<WriteRecord>, start: u128) -> Seq<CrossingModel>
    decreases writes.len(),
{
    if writes.len() == 0 {
        Seq::empty()
    } else {
        let rest = crossed(edge, writes.drop_last(), start);
        let write = writes.last();
        if write.ts_ns < start {
            rest
        } else {
            rest.push(
                CrossingModel {
                    edge,
                    direction: write.direction,
                    at: (write.ts_ns - start) as u128,
                },
            )
        }
    }
}

/// The edge a session ran over.
pub open spec fn edge_of(
    session: SessionModel,
    peer: Option<Address>,
    addresses: Seq<(Address, Seq<char>)>,
) -> EdgeModel {
    EdgeModel { client: dialler(addresses, peer), upstream: session.service }
}

/// Everything that crossed the fleet at or after `start`.
pub open spec fn crossings(
    sessions: Seq<SessionModel>,
    peers: Seq<Option<Address>>,
    addresses: Seq<(Address, Seq<char>)>,
    start: u128,
) -> Seq<CrossingModel>
    decreases sessions.len(),
{
    if sessions.len() == 0 {
        Seq::empty()
    } else {
        let n = sessions.len() - 1;
        crossings(sessions.drop_last(), peers, addresses, start) + crossed(
            edge_of(sessions[n], peers[n], addresses),
            sessions[n].writes,
            start,
        )
    }
}

/// When each packet crossed `edge` that way, in the order they were read.
pub open spec fn times(
    packets: Seq<CrossingModel>,
    edge: EdgeModel,
    direction: Direction,
) -> Seq<u128>
    decreases packets.len(),
{
    if packets.len() == 0 {
        Seq::empty()
    } else {
        let rest = times(packets.drop_last(), edge, direction);
        if packets.last().edge == edge && packets.last().direction == direction {
            rest.push(packets.last().at)
        } else {
            rest
        }
    }
}

/// Every edge something crossed, each once, in the order they were first seen.
pub open spec fn seen_edges(packets: Seq<CrossingModel>) -> Seq<EdgeModel>
    decreases packets.len(),
{
    if packets.len() == 0 {
        Seq::empty()
    } else {
        let rest = seen_edges(packets.drop_last());
        if rest.contains(packets.last().edge) {
            rest
        } else {
            rest.push(packets.last().edge)
        }
    }
}

/// Whether one edge comes before another: a caller from outside the fleet
/// first, then by who dialled, then by whom they reached.
pub open spec fn edge_before() -> spec_fn(EdgeModel, EdgeModel) -> bool {
    |a: EdgeModel, b: EdgeModel|
        match (a.client, b.client) {
            (None, Some(_)) => true,
            (Some(_), None) => false,
            (None, None) => text_order(a.upstream, b.upstream) == Order::Less,
            (Some(x), Some(y)) => text_order(x, y) == Order::Less || (x == y && text_order(
                a.upstream,
                b.upstream,
            ) == Order::Less),
        }
}

fn is_edge_before(a: &Edge, b: &Edge) -> (r: bool)
    ensures
        r == edge_before()(a.deep_view(), b.deep_view()),
{
    let by_upstream = match order_texts(a.upstream.as_str(), b.upstream.as_str()) {
        Order::Less => true,
        _ => false,
    };
    match (&a.client, &b.client) {
        (None, Some(_)) => true,
        (Some(_), None) => false,
        (None, None) => by_upstream,
        (Some(x), Some(y)) => match order_texts(x.as_str(), y.as_str()) {
            Order::Less => true,
            _ => *x == *y && by_upstream,
        },
    }
}

/// Earlier first.
pub open spec fn earlier() -> spec_fn(u128, u128) -> bool {
    |a: u128, b: u128| a < b
}

fn is_earlier(a: &u128, b: &u128) -> (r: bool)
    ensures
        r == earlier()(*a, *b),
{
    *a < *b
}

/// The burst whose packets are the `first`th to the `last`th. A count `K` means
/// "freeze once `K` packets have crossed", so `start` is `first - 1` and `end`
/// is `last`.
pub open spec fn burst(first: int, last: int) -> Burst {
    Burst {
        start: (first - 1) as u32,
        mid: ((first + last) / 2) as u32,
        end: last as u32,
        packets: (last - first + 1) as u32,
    }
}

/// The bursts among the packets from `j` on, where the one `j` belongs to began
/// at `start`.
pub open spec fn bursts_from(packets: Seq<u128>, start: int, j: int) -> Seq<Burst>
    decreases packets.len() - j,
{
    if j >= packets.len() {
        Seq::empty()
    } else if ends(packets, j) {
        seq![burst(start + 1, j + 1)] + bursts_from(packets, j + 1, j + 1)
    } else {
        bursts_from(packets, start, j + 1)
    }
}

/// Cluster `packets` (sorted timestamps) into bursts by inter-packet gap, each
/// given as the three points a fault can be placed against.
pub fn bursts(packets: &[u128]) -> (r: Vec<Burst>)
    requires
        in_order(packets@),
        packets@.len() <= u32::MAX,
    ensures
        r@ == bursts_from(packets@, 0, 0),
{
    let n: usize = packets.len();
    let ghost seen = packets@;
    let mut out: Vec<Burst> = Vec::new();
    // 0-based index of the current burst's first packet.
    let mut start: usize = 0;
    assert(out@ + bursts_from(seen, 0, 0) =~= bursts_from(seen, 0, 0));
    for j in 0..n
        invariant
            seen == packets@,
            n == seen.len(),
            n <= u32::MAX,
            in_order(seen),
            start <= j,
            out@ + bursts_from(seen, start as int, j as int) == bursts_from(seen, 0, 0),
    {
        let ends_burst = if j + 1 == n {
            true
        } else {
            packets[j + 1] - packets[j] > BURST_GAP_NS
        };
        if ends_burst {
            let first: u32 = start as u32;
            let last: u32 = j as u32 + 1;
            let one = Burst {
                start: first,
                mid: first + (last - first) / 2 + (last - first) % 2,
                end: last,
                packets: last - first,
            };
            let ghost before = out@;
            out.push(one);
            proof {
                assert(one == burst(start + 1, j + 1));
                let rest = bursts_from(seen, j + 1, j + 1);
                assert(before + (seq![one] + rest) =~= before.push(one) + rest);
            }
            start = j + 1;
        }
    }
    assert(out@ + Seq::<Burst>::empty() =~= out@);
    out
}

proof fn lemma_bursts_from(packets: Seq<u128>, start: int, j: int)
    requires
        0 <= start <= j <= packets.len() <= u32::MAX,
        start == 0 || ends(packets, start - 1),
        forall|k: int| start <= k < j ==> !#[trigger] ends(packets, k),
    ensures
        ({
            let all = bursts_from(packets, start, j);
            &&& all.len() == 0 <==> j == packets.len()
            &&& all.len() > 0 ==> all[0].start == start && all.last().end == packets.len()
            &&& forall|k: int| 0 < k < all.len() ==> #[trigger] all[k].start == all[k - 1].end
            &&& forall|k: int|
                0 <= k < all.len() ==> one_burst(
                    packets,
                    (#[trigger] all[k]).start as int,
                    all[k].end - 1,
                ) && all[k].packets == all[k].end - all[k].start && all[k].start < all[k].mid
                    <= all[k].end && all[k].mid == (all[k].start + 1 + all[k].end) / 2
        }),
    decreases packets.len() - j,
{
    if j < packets.len() {
        let all = bursts_from(packets, start, j);
        if ends(packets, j) {
            lemma_bursts_from(packets, j + 1, j + 1);
            let rest = bursts_from(packets, j + 1, j + 1);
            assert(all =~= seq![burst(start + 1, j + 1)] + rest);
            assert(one_burst(packets, start, j));
            assert forall|k: int| 0 < k < all.len() implies #[trigger] all[k].start == all[k
                - 1].end by {
                assert(all[k] == rest[k - 1]);
                if k > 1 {
                    assert(all[k - 1] == rest[k - 2]);
                }
            }
            assert forall|k: int| 0 <= k < all.len() implies one_burst(
                packets,
                (#[trigger] all[k]).start as int,
                all[k].end - 1,
            ) && all[k].packets == all[k].end - all[k].start && all[k].start < all[k].mid
                <= all[k].end && all[k].mid == (all[k].start + 1 + all[k].end) / 2 by {
                if k > 0 {
                    assert(all[k] == rest[k - 1]);
                }
            }
            if rest.len() > 0 {
                assert(all.last() == rest.last());
            }
        } else {
            lemma_bursts_from(packets, start, j + 1);
        }
    }
}

/// Bursts tile the packets: the first begins with the first packet, each begins
/// where the one before it ended, the last ends with the last packet, and each
/// is a longest run with no gap in it. Each counts its packets, and has its middle
/// half way between its first packet and its last.
pub proof fn lemma_bursts_tile(packets: Seq<u128>)
    requires
        0 < packets.len() <= u32::MAX,
    ensures
        bursts_from(packets, 0, 0).len() > 0,
        bursts_from(packets, 0, 0)[0].start == 0,
        bursts_from(packets, 0, 0).last().end == packets.len(),
        forall|k: int|
            0 < k < bursts_from(packets, 0, 0).len() ==> #[trigger] bursts_from(packets, 0, 0)[k].start
                == bursts_from(packets, 0, 0)[k - 1].end,
        forall|k: int|
            0 <= k < bursts_from(packets, 0, 0).len() ==> one_burst(
                packets,
                (#[trigger] bursts_from(packets, 0, 0)[k]).start as int,
                bursts_from(packets, 0, 0)[k].end - 1,
            ),
        forall|k: int|
            0 <= k < bursts_from(packets, 0, 0).len() ==> {
                let burst = #[trigger] bursts_from(packets, 0, 0)[k];
                &&& burst.packets == burst.end - burst.start
                &&& burst.mid == (burst.start + 1 + burst.end) / 2
            },
{
    lemma_bursts_from(packets, 0, 0);
}

/// What an edge carried one way, as bursts.
pub open spec fn carried(
    packets: Seq<CrossingModel>,
    edge: EdgeModel,
    direction: Direction,
) -> Seq<Burst> {
    bursts_from(stable_sorted(times(packets, edge, direction), earlier()), 0, 0)
}

/// What an edge carried.
pub open spec fn profile_of(packets: Seq<CrossingModel>, edge: EdgeModel) -> EdgeProfileModel {
    EdgeProfileModel {
        edge,
        placements: Seq::empty(),
        client_to_upstream: carried(packets, edge, Direction::ClientToUpstream),
        upstream_to_client: carried(packets, edge, Direction::UpstreamToClient),
    }
}

/// What each of `edges` carried.
pub open spec fn profiles_of(
    packets: Seq<CrossingModel>,
    edges: Seq<EdgeModel>,
) -> Seq<EdgeProfileModel> {
    Seq::new(edges.len(), |i: int| profile_of(packets, edges[i]))
}

/// Whether no edge carried more packets one way than a burst can count.
pub open spec fn countable(packets: Seq<CrossingModel>) -> bool {
    forall|edge: EdgeModel, direction: Direction|
        (#[trigger] times(packets, edge, direction)).len() <= u32::MAX
}

/// What the fleet's edges carried at or after `start`, before any of it is
/// trimmed.
pub open spec fn catalogue(
    sessions: Seq<SessionModel>,
    peers: Seq<Option<Address>>,
    addresses: Seq<(Address, Seq<char>)>,
    start: u128,
) -> Seq<EdgeProfileModel> {
    let packets = crossings(sessions, peers, addresses, start);
    profiles_of(packets, stable_sorted(seen_edges(packets), edge_before()))
}

fn times_on(packets: &Vec<Crossing>, edge: &Edge, direction: Direction) -> (r: Vec<u128>)
    ensures
        r@ == times(packets.deep_view(), edge.deep_view(), direction),
{
    let ghost model = packets.deep_view();
    let mut out: Vec<u128> = Vec::new();
    for i in 0..packets.len()
        invariant
            model == packets.deep_view(),
            out@ == times(model.take(i as int), edge.deep_view(), direction),
    {
        proof {
            assert(model.take(i + 1).drop_last() =~= model.take(i as int));
            assert(model[i as int] == packets@[i as int].deep_view());
        }
        if packets[i].edge.same(edge) && packets[i].direction == direction {
            out.push(packets[i].at);
        }
    }
    assert(model.take(model.len() as int) =~= model);
    out
}

fn edges_in(packets: &Vec<Crossing>) -> (r: Vec<Edge>)
    ensures
        r.deep_view() == seen_edges(packets.deep_view()),
{
    let ghost model = packets.deep_view();
    let mut out: Vec<Edge> = Vec::new();
    assert(out.deep_view() =~= seen_edges(model.take(0)));
    for i in 0..packets.len()
        invariant
            model == packets.deep_view(),
            out.deep_view() == seen_edges(model.take(i as int)),
    {
        proof {
            assert(model.take(i + 1).drop_last() =~= model.take(i as int));
            assert(model[i as int] == packets@[i as int].deep_view());
        }
        let ghost rest = out.deep_view();
        let mut known = false;
        let n = out.len();
        for k in 0..n
            invariant
                n == out@.len(),
                i < packets@.len(),
                rest == out.deep_view(),
                known == rest.take(k as int).contains(packets@[i as int].edge.deep_view()),
        {
            let ghost edge = packets@[i as int].edge.deep_view();
            let found = out[k].same(&packets[i].edge);
            proof {
                let sofar = rest.take(k as int);
                let next = rest.take(k + 1);
                assert(next =~= sofar.push(rest[k as int]));
                assert(rest[k as int] == out@[k as int].deep_view());
                if sofar.contains(edge) {
                    let w = choose|w: int| 0 <= w < sofar.len() && sofar[w] == edge;
                    assert(next[w] == edge);
                }
                if next.contains(edge) {
                    let w = choose|w: int| 0 <= w < next.len() && next[w] == edge;
                    if w < k {
                        assert(sofar[w] == edge);
                    }
                }
                if found {
                    assert(next[k as int] == edge);
                }
            }
            if found {
                known = true;
            }
        }
        assert(rest.take(n as int) =~= rest);
        if !known {
            out.push(packets[i].edge.clone());
            assert(out.deep_view() =~= rest.push(packets@[i as int].edge.deep_view()));
        }
    }
    assert(model.take(model.len() as int) =~= model);
    out
}

fn gather(
    sessions: &[Session],
    peers: &[Option<Address>],
    addresses: &[(Address, String)],
    start: u128,
) -> (r: Vec<Crossing>)
    requires
        peers@.len() == sessions@.len(),
    ensures
        r.deep_view() == crossings(sessions.deep_view(), peers@, addresses.deep_view(), start),
{
    let ghost model = sessions.deep_view();
    let ghost known = addresses.deep_view();
    let mut out: Vec<Crossing> = Vec::new();
    assert(out.deep_view() =~= crossings(model.take(0), peers@, known, start));
    for i in 0..sessions.len()
        invariant
            model == sessions.deep_view(),
            known == addresses.deep_view(),
            peers@.len() == sessions@.len(),
            out.deep_view() == crossings(model.take(i as int), peers@, known, start),
    {
        let session = &sessions[i];
        let edge = Edge {
            client: client_of(peers[i], addresses),
            upstream: session.service.clone(),
        };
        let ghost before = out.deep_view();
        let ghost writes = session.writes@;
        let ghost named = edge.deep_view();
        proof {
            assert(model[i as int] == session.deep_view());
            assert(model.take(i + 1).drop_last() =~= model.take(i as int));
            assert(named =~= edge_of(model[i as int], peers@[i as int], known));
            assert(before + crossed(named, writes.take(0), start) =~= before);
        }
        for j in 0..session.writes.len()
            invariant
                writes == session.writes@,
                named == edge.deep_view(),
                out.deep_view() == before + crossed(named, writes.take(j as int), start),
        {
            let write = session.writes[j];
            let ghost sofar = crossed(named, writes.take(j as int), start);
            proof {
                assert(writes.take(j + 1).drop_last() =~= writes.take(j as int));
            }
            if write.ts_ns >= start {
                let crossing = Crossing {
                    edge: edge.clone(),
                    direction: write.direction,
                    at: write.ts_ns - start,
                };
                let ghost held = out.deep_view();
                let ghost added = crossing.deep_view();
                out.push(crossing);
                proof {
                    assert(out.deep_view() =~= held.push(added));
                    assert((before + sofar).push(added) =~= before + sofar.push(added));
                }
            }
        }
        assert(writes.take(writes.len() as int) =~= writes);
    }
    assert(model.take(model.len() as int) =~= model);
    out
}

fn carried_on(packets: &Vec<Crossing>, edge: &Edge, direction: Direction) -> (r: Vec<Burst>)
    requires
        countable(packets.deep_view()),
    ensures
        r@ == carried(packets.deep_view(), edge.deep_view(), direction),
{
    let at = times_on(packets, edge, direction);
    let ghost read = at@;
    let sorted = sort_stable(at, is_earlier, Ghost(earlier()));
    proof {
        lemma_sorted_keeps(read, earlier());
        lemma_sorted_in_order(read, earlier());
        assert forall|i: int, j: int| 0 <= i <= j < sorted@.len() implies sorted@[i] <= sorted@[j] by {
            if i < j {
                assert(!earlier()(sorted@[j], sorted@[i]));
            }
        }
    }
    bursts(sorted.as_slice())
}

/// A burst, with where in the catalogue it stands.
#[derive(Clone, Copy, Debug, PartialEq, Eq, Structural)]
pub struct Listed {
    pub profile: usize,
    pub sent: bool,
    pub burst: Burst,
}

/// The bursts of one direction of the profile at `at`, listed.
pub open spec fn listed_of(at: int, sent: bool, bursts: Seq<Burst>) -> Seq<Listed> {
    Seq::new(bursts.len(), |k: int| Listed { profile: at as usize, sent, burst: bursts[k] })
}

/// Every burst of the catalogue, listed.
pub open spec fn listed(profiles: Seq<EdgeProfileModel>) -> Seq<Listed>
    decreases profiles.len(),
{
    if profiles.len() == 0 {
        Seq::empty()
    } else {
        let n = profiles.len() - 1;
        listed(profiles.drop_last()) + listed_of(n, true, profiles[n].client_to_upstream)
            + listed_of(n, false, profiles[n].upstream_to_client)
    }
}

/// Busier first.
pub open spec fn busier() -> spec_fn(Listed, Listed) -> bool {
    |a: Listed, b: Listed| a.burst.packets > b.burst.packets
}

fn is_busier(a: &Listed, b: &Listed) -> (r: bool)
    ensures
        r == busier()(*a, *b),
{
    a.burst.packets > b.burst.packets
}

/// By position on the edge.
pub open spec fn sooner_on_edge() -> spec_fn(Burst, Burst) -> bool {
    |a: Burst, b: Burst| a.mid < b.mid
}

fn is_sooner_on_edge(a: &Burst, b: &Burst) -> (r: bool)
    ensures
        r == sooner_on_edge()(*a, *b),
{
    a.mid < b.mid
}

/// The bursts among `kept` that stand there.
pub open spec fn kept_on(kept: Seq<Listed>, at: int, sent: bool) -> Seq<Burst>
    decreases kept.len(),
{
    if kept.len() == 0 {
        Seq::empty()
    } else {
        let rest = kept_on(kept.drop_last(), at, sent);
        if kept.last().profile == at && kept.last().sent == sent {
            rest.push(kept.last().burst)
        } else {
            rest
        }
    }
}

/// The bursts a catalogue of more than [`MAX_TOTAL_BURSTS`] keeps: the busiest.
pub open spec fn busiest(profiles: Seq<EdgeProfileModel>) -> Seq<Listed> {
    stable_sorted(listed(profiles), busier()).take(MAX_TOTAL_BURSTS as int)
}

/// The profile at `at`, with only what was kept. A burst's position on its edge
/// is what makes it the first or the third, and `mid` rises across an edge's
/// bursts, so it puts them back in the order they happened.
pub open spec fn trimmed(
    profile: EdgeProfileModel,
    kept: Seq<Listed>,
    at: int,
) -> EdgeProfileModel {
    EdgeProfileModel {
        client_to_upstream: stable_sorted(kept_on(kept, at, true), sooner_on_edge()),
        upstream_to_client: stable_sorted(kept_on(kept, at, false), sooner_on_edge()),
        ..profile
    }
}

/// The catalogue, trimmed to [`MAX_TOTAL_BURSTS`] if it holds more.
pub open spec fn sampled(profiles: Seq<EdgeProfileModel>) -> Seq<EdgeProfileModel> {
    if listed(profiles).len() <= MAX_TOTAL_BURSTS {
        profiles
    } else {
        let kept = busiest(profiles);
        Seq::new(profiles.len(), |i: int| trimmed(profiles[i], kept, i))
    }
}

fn list(profiles: &Vec<EdgeProfile>) -> (r: Vec<Listed>)
    ensures
        r@ == listed(profiles.deep_view()),
{
    let ghost model = profiles.deep_view();
    let mut out: Vec<Listed> = Vec::new();
    for i in 0..profiles.len()
        invariant
            model == profiles.deep_view(),
            out@ == listed(model.take(i as int)),
    {
        let profile = &profiles[i];
        proof {
            assert(model[i as int] == profile.deep_view());
            assert(model.take(i + 1).drop_last() =~= model.take(i as int));
        }
        let ghost before = out@;
        let ghost sent = listed_of(i as int, true, profile.client_to_upstream@);
        for k in 0..profile.client_to_upstream.len()
            invariant
                sent == listed_of(i as int, true, profile.client_to_upstream@),
                out@ == before + sent.take(k as int),
        {
            out.push(Listed { profile: i, sent: true, burst: profile.client_to_upstream[k] });
            assert(out@ =~= before + sent.take(k + 1));
        }
        assert(sent.take(sent.len() as int) =~= sent);
        let ghost middle = out@;
        let ghost received = listed_of(i as int, false, profile.upstream_to_client@);
        for k in 0..profile.upstream_to_client.len()
            invariant
                received == listed_of(i as int, false, profile.upstream_to_client@),
                out@ == middle + received.take(k as int),
        {
            out.push(Listed { profile: i, sent: false, burst: profile.upstream_to_client[k] });
            assert(out@ =~= middle + received.take(k + 1));
        }
        assert(received.take(received.len() as int) =~= received);
    }
    assert(model.take(model.len() as int) =~= model);
    out
}

fn pick(kept: &Vec<Listed>, at: usize, sent: bool) -> (r: Vec<Burst>)
    ensures
        r@ == stable_sorted(kept_on(kept@, at as int, sent), sooner_on_edge()),
{
    let mut out: Vec<Burst> = Vec::new();
    for k in 0..kept.len()
        invariant
            out@ == kept_on(kept@.take(k as int), at as int, sent),
    {
        assert(kept@.take(k + 1).drop_last() =~= kept@.take(k as int));
        if kept[k].profile == at && kept[k].sent == sent {
            out.push(kept[k].burst);
        }
    }
    assert(kept@.take(kept@.len() as int) =~= kept@);
    sort_stable(out, is_sooner_on_edge, Ghost(sooner_on_edge()))
}

/// Trim the catalogue to `MAX_TOTAL_BURSTS` if it holds more, so the serialized
/// catalogue always fits the IPC frame.
///
/// The busiest bursts are kept, which is the same preference the scheduler
/// applies when it cannot afford them all.
pub fn sample_to_frame(profiles: Vec<EdgeProfile>) -> (r: Vec<EdgeProfile>)
    ensures
        r.deep_view() == sampled(profiles.deep_view()),
{
    let ghost model = profiles.deep_view();
    let flat = list(&profiles);
    if flat.len() <= MAX_TOTAL_BURSTS {
        return profiles;
    }
    let ghost everything = flat@;
    let mut kept = sort_stable(flat, is_busier, Ghost(busier()));
    proof {
        lemma_sorted_keeps(everything, busier());
    }
    kept.truncate(MAX_TOTAL_BURSTS);
    assert(kept@ =~= busiest(model));
    let ghost all = profiles@;
    let ghost target = sampled(model);
    let mut out: Vec<EdgeProfile> = Vec::new();
    let mut at: usize = 0;
    let n = profiles.len();
    assert(out.deep_view() =~= target.take(0));
    for profile in it: profiles
        invariant
            it.seq() == all,
            at == it.index(),
            model.len() == all.len(),
            all.len() == n,
            forall|k: int| 0 <= k < all.len() ==> (#[trigger] all[k]).deep_view() == model[k],
            kept@ == busiest(model),
            target == Seq::new(model.len(), |i: int| trimmed(model[i], busiest(model), i)),
            out.deep_view() == target.take(at as int),
    {
        assert(all[at as int].deep_view() == model[at as int]);
        let EdgeProfile { edge, placements, .. } = profile;
        let next = EdgeProfile {
            edge,
            placements,
            client_to_upstream: pick(&kept, at, true),
            upstream_to_client: pick(&kept, at, false),
        };
        let ghost before = out.deep_view();
        let ghost added = next.deep_view();
        out.push(next);
        proof {
            assert(added =~= target[at as int]);
            assert(out.deep_view() =~= before.push(added));
            assert(target.take(at + 1) =~= before.push(added));
        }
        at += 1;
    }
    assert(target.take(target.len() as int) =~= target);
    out
}

/// Derive per-edge bursts from a session catalogue, split by direction and made
/// scenario-relative to `scenario_start_ns` (writes before scenario start are
/// ignored). Each direction's packets are clustered into bursts, then the whole
/// catalogue is trimmed if it would not fit the IPC frame.
///
/// `peers` gives the address each session's peer dialled from, where it has
/// one, and `addresses` names the service behind an address, so an edge carries
/// both the service that dialled and the one it reached. A peer it does not
/// name came from outside the fleet.
pub fn edge_profiles_from_sessions(
    sessions: &[Session],
    peers: &[Option<Address>],
    scenario_start_ns: u128,
    addresses: &[(Address, String)],
) -> (r: Vec<EdgeProfile>)
    requires
        peers@.len() == sessions@.len(),
        countable(
            crossings(sessions.deep_view(), peers@, addresses.deep_view(), scenario_start_ns),
        ),
    ensures
        r.deep_view() == sampled(
            catalogue(sessions.deep_view(), peers@, addresses.deep_view(), scenario_start_ns),
        ),
{
    let packets = gather(sessions, peers, addresses, scenario_start_ns);
    let ghost model = packets.deep_view();
    let found = edges_in(&packets);
    let ghost before = |a: Edge, b: Edge| edge_before()(a.deep_view(), b.deep_view());
    let ghost read = |e: Edge| e.deep_view();
    let ghost whole = found@;
    proof {
        assert(whole.map_values(read) =~= found.deep_view());
    }
    let edges = sort_stable(found, is_edge_before, Ghost(before));
    let ghost named = stable_sorted(seen_edges(model), edge_before());
    proof {
        lemma_sorted_map(whole, before, read, edge_before());
        assert(edges@.map_values(read) =~= edges.deep_view());
    }
    let ghost target = profiles_of(model, named);
    let ghost all = edges@;
    let mut out: Vec<EdgeProfile> = Vec::new();
    assert(out.deep_view() =~= target.take(0));
    for edge in it: edges
        invariant
            it.seq() == all,
            model == packets.deep_view(),
            countable(model),
            named.len() == all.len(),
            forall|k: int| 0 <= k < all.len() ==> (#[trigger] all[k]).deep_view() == named[k],
            target == profiles_of(model, named),
            out.deep_view() == target.take(it.index() as int),
    {
        let ghost n = it.index() as int;
        assert(all[n].deep_view() == named[n]);
        let client_to_upstream = carried_on(&packets, &edge, Direction::ClientToUpstream);
        let upstream_to_client = carried_on(&packets, &edge, Direction::UpstreamToClient);
        let profile = EdgeProfile {
            edge,
            placements: Vec::new(),
            client_to_upstream,
            upstream_to_client,
        };
        let ghost held = out.deep_view();
        let ghost added = profile.deep_view();
        out.push(profile);
        proof {
            assert(added =~= target[n]);
            assert(out.deep_view() =~= held.push(added));
            assert(target.take(n + 1) =~= held.push(added));
        }
    }
    assert(target.take(target.len() as int) =~= target);
    sample_to_frame(out)
}

/// How many of `kept` stand before the profile at `n`.
spec fn standing_before(kept: Seq<Listed>, n: int) -> nat
    decreases kept.len(),
{
    if kept.len() == 0 {
        0
    } else {
        standing_before(kept.drop_last(), n) + if kept.last().profile < n {
            1nat
        } else {
            0
        }
    }
}

proof fn lemma_standing(kept: Seq<Listed>, n: int)
    ensures
        standing_before(kept, n) <= kept.len(),
        standing_before(kept, n + 1) == standing_before(kept, n) + kept_on(kept, n, true).len()
            + kept_on(kept, n, false).len(),
        n <= 0 ==> standing_before(kept, n) == 0,
    decreases kept.len(),
{
    if kept.len() > 0 {
        lemma_standing(kept.drop_last(), n);
    }
}

proof fn lemma_listed_len(profiles: Seq<EdgeProfileModel>, kept: Seq<Listed>, n: int)
    requires
        0 <= n <= profiles.len(),
    ensures
        listed(Seq::new(profiles.len(), |i: int| trimmed(profiles[i], kept, i)).take(n)).len()
            == standing_before(kept, n),
    decreases n,
{
    let all = Seq::new(profiles.len(), |i: int| trimmed(profiles[i], kept, i));
    lemma_standing(kept, n);
    if n > 0 {
        lemma_listed_len(profiles, kept, n - 1);
        lemma_standing(kept, n - 1);
        assert(all.take(n).drop_last() =~= all.take(n - 1));
        lemma_sorted_keeps(kept_on(kept, n - 1, true), sooner_on_edge());
        lemma_sorted_keeps(kept_on(kept, n - 1, false), sooner_on_edge());
    }
}

/// Whether `mid` rises across the bursts.
pub open spec fn rising(bursts: Seq<Burst>) -> bool {
    forall|i: int, j: int|
        0 <= i < j < bursts.len() ==> (#[trigger] bursts[i]).mid < (#[trigger] bursts[j]).mid
}

/// Whether `few` is what stands in `many` at the places in `at`, which rise.
pub open spec fn stands_at(few: Seq<Burst>, many: Seq<Burst>, at: Seq<int>) -> bool {
    &&& at.len() == few.len()
    &&& forall|i: int, j: int| 0 <= i < j < at.len() ==> #[trigger] at[i] < #[trigger] at[j]
    &&& forall|i: int|
        0 <= i < at.len() ==> 0 <= #[trigger] at[i] < many.len() && many[at[i]] == few[i]
}

/// Whether `few` is `many` with some left out.
pub open spec fn left_of(few: Seq<Burst>, many: Seq<Burst>) -> bool {
    exists|at: Seq<int>| #[trigger] stands_at(few, many, at)
}

proof fn lemma_kept_on_both(a: Seq<Listed>, b: Seq<Listed>, at: int, sent: bool)
    ensures
        kept_on(a + b, at, sent) == kept_on(a, at, sent) + kept_on(b, at, sent),
    decreases b.len(),
{
    if b.len() == 0 {
        assert(a + b =~= a);
        assert(kept_on(a, at, sent) + Seq::<Burst>::empty() =~= kept_on(a, at, sent));
    } else {
        lemma_kept_on_both(a, b.drop_last(), at, sent);
        assert((a + b).drop_last() =~= a + b.drop_last());
        assert((a + b).last() == b.last());
        assert(kept_on(a + b, at, sent) =~= kept_on(a, at, sent) + kept_on(b, at, sent));
    }
}

proof fn lemma_kept_on_one(n: int, way: bool, bursts: Seq<Burst>, at: int, sent: bool)
    requires
        0 <= n <= usize::MAX,
    ensures
        kept_on(listed_of(n, way, bursts), at, sent) == if n == at && way == sent {
            bursts
        } else {
            Seq::empty()
        },
    decreases bursts.len(),
{
    let all = listed_of(n, way, bursts);
    if bursts.len() == 0 {
        assert(kept_on(all, at, sent) =~= bursts);
    } else {
        lemma_kept_on_one(n, way, bursts.drop_last(), at, sent);
        assert(all.drop_last() =~= listed_of(n, way, bursts.drop_last()));
        assert(bursts =~= bursts.drop_last().push(bursts.last()));
    }
}

/// What is listed of a profile is what the profile holds.
proof fn lemma_kept_on_all(profiles: Seq<EdgeProfileModel>, at: int, sent: bool)
    requires
        profiles.len() <= usize::MAX,
        0 <= at,
    ensures
        kept_on(listed(profiles), at, sent) == if at >= profiles.len() {
            Seq::empty()
        } else if sent {
            profiles[at].client_to_upstream
        } else {
            profiles[at].upstream_to_client
        },
        forall|i: int|
            0 <= i < listed(profiles).len() ==> (#[trigger] listed(profiles)[i]).profile
                < profiles.len(),
    decreases profiles.len(),
{
    if profiles.len() > 0 {
        let n = profiles.len() - 1;
        let before = listed(profiles.drop_last());
        let client = listed_of(n, true, profiles[n].client_to_upstream);
        let upstream = listed_of(n, false, profiles[n].upstream_to_client);
        lemma_kept_on_all(profiles.drop_last(), at, sent);
        lemma_kept_on_both(before + client, upstream, at, sent);
        lemma_kept_on_both(before, client, at, sent);
        lemma_kept_on_one(n, true, profiles[n].client_to_upstream, at, sent);
        lemma_kept_on_one(n, false, profiles[n].upstream_to_client, at, sent);
        let whole = if at >= profiles.len() {
            Seq::empty()
        } else if sent {
            profiles[at].client_to_upstream
        } else {
            profiles[at].upstream_to_client
        };
        assert(kept_on(listed(profiles), at, sent) =~= whole);
    }
}

proof fn lemma_kept_count(kept: Seq<Listed>, at: int, sent: bool, burst: Burst)
    requires
        0 <= at <= usize::MAX,
    ensures
        kept_on(kept, at, sent).to_multiset().count(burst) == kept.to_multiset().count(
            (Listed { profile: at as usize, sent, burst }),
        ),
    decreases kept.len(),
{
    broadcast use vstd::seq_lib::group_to_multiset_ensures;

    if kept.len() > 0 {
        lemma_kept_count(kept.drop_last(), at, sent, burst);
        assert(kept =~= kept.drop_last().push(kept.last()));
    }
}

/// What the busiest bursts leave of one direction of a profile is among what it
/// held, no more often.
proof fn lemma_kept_among(profiles: Seq<EdgeProfileModel>, at: int, sent: bool)
    requires
        at < profiles.len() <= usize::MAX,
        0 <= at,
        listed(profiles).len() > MAX_TOTAL_BURSTS,
    ensures
        kept_on(busiest(profiles), at, sent).to_multiset().subset_of(
            (if sent {
                profiles[at].client_to_upstream
            } else {
                profiles[at].upstream_to_client
            }).to_multiset(),
        ),
{
    broadcast use vstd::seq_lib::group_to_multiset_ensures;

    let all = listed(profiles);
    let order = stable_sorted(all, busier());
    let kept = busiest(profiles);
    lemma_sorted_keeps(all, busier());
    lemma_kept_on_all(profiles, at, sent);
    assert forall|burst: Burst| kept_on(kept, at, sent).to_multiset().count(burst) <= kept_on(
        all,
        at,
        sent,
    ).to_multiset().count(burst) by {
        lemma_kept_count(kept, at, sent, burst);
        lemma_kept_count(all, at, sent, burst);
        let rest = order.skip(MAX_TOTAL_BURSTS as int);
        assert(order =~= kept + rest);
        vstd::seq_lib::lemma_multiset_commutative(kept, rest);
    }
}

/// Bursts taken from a list whose `mid`s rise, put in order of `mid`, stand as
/// they stood in the list.
proof fn lemma_put_back(few: Seq<Burst>, many: Seq<Burst>)
    requires
        few.to_multiset().subset_of(many.to_multiset()),
        rising(many),
    ensures
        left_of(stable_sorted(few, sooner_on_edge()), many),
{
    broadcast use vstd::seq_lib::group_to_multiset_ensures;

    let order = stable_sorted(few, sooner_on_edge());
    lemma_sorted_keeps(few, sooner_on_edge());
    lemma_sorted_in_order(few, sooner_on_edge());
    many.lemma_multiset_has_no_duplicates();
    assert forall|x: Burst| order.to_multiset().contains(x) implies order.to_multiset().count(x)
        == 1 by {
        assert(order.to_multiset().count(x) <= many.to_multiset().count(x));
        assert(many.to_multiset().contains(x));
    }
    order.lemma_multiset_has_no_duplicates_conv();
    let at = Seq::new(
        order.len(),
        |i: int| choose|k: int| 0 <= k < many.len() && #[trigger] many[k] == order[i],
    );
    assert forall|i: int| 0 <= i < at.len() implies 0 <= #[trigger] at[i] < many.len()
        && many[at[i]] == order[i] by {
        assert(order.contains(order[i]));
        assert(order.to_multiset().count(order[i]) > 0);
        assert(few.to_multiset().count(order[i]) <= many.to_multiset().count(order[i]));
        assert(many.contains(order[i]));
    }
    assert forall|i: int, j: int| 0 <= i < j < at.len() implies #[trigger] at[i] < #[trigger] at[j] by {
        assert(!sooner_on_edge()(order[j], order[i]));
        assert(order[i] != order[j]);
        assert(many[at[i]] == order[i] && many[at[j]] == order[j]);
        if at[j] < at[i] {
            assert(many[at[j]].mid < many[at[i]].mid);
        }
    }
    assert(stands_at(order, many, at));
}

proof fn lemma_all_standing(kept: Seq<Listed>, n: int)
    requires
        forall|i: int| 0 <= i < kept.len() ==> (#[trigger] kept[i]).profile < n,
    ensures
        standing_before(kept, n) == kept.len(),
    decreases kept.len(),
{
    if kept.len() > 0 {
        let rest = kept.drop_last();
        assert forall|i: int| 0 <= i < rest.len() implies (#[trigger] rest[i]).profile < n by {
            assert(rest[i] == kept[i]);
        }
        lemma_all_standing(rest, n);
    }
}

/// However much traffic a learn run observed, its catalogue holds no more than
/// [`MAX_TOTAL_BURSTS`] bursts. A catalogue that already did is left alone. One
/// that did not is left with exactly that many, none of them less busy than one
/// it drops. Of each edge only bursts are dropped, and what is left of them
/// keeps the order it had, where `mid` rose across them.
pub proof fn lemma_catalogue_fits(profiles: Seq<EdgeProfileModel>)
    requires
        profiles.len() <= usize::MAX,
    ensures
        listed(sampled(profiles)).len() <= MAX_TOTAL_BURSTS,
        listed(profiles).len() <= MAX_TOTAL_BURSTS ==> sampled(profiles) == profiles,
        listed(profiles).len() > MAX_TOTAL_BURSTS ==> listed(sampled(profiles)).len()
            == MAX_TOTAL_BURSTS,
        sampled(profiles).len() == profiles.len(),
        forall|i: int|
            0 <= i < profiles.len() ==> {
                let left = #[trigger] sampled(profiles)[i];
                let held = profiles[i];
                &&& left.edge == held.edge
                &&& left.placements == held.placements
                &&& left.client_to_upstream.to_multiset().subset_of(
                    held.client_to_upstream.to_multiset(),
                )
                &&& left.upstream_to_client.to_multiset().subset_of(
                    held.upstream_to_client.to_multiset(),
                )
                &&& rising(held.client_to_upstream) ==> left_of(
                    left.client_to_upstream,
                    held.client_to_upstream,
                )
                &&& rising(held.upstream_to_client) ==> left_of(
                    left.upstream_to_client,
                    held.upstream_to_client,
                )
            },
        forall|i: int, j: int|
            0 <= i < MAX_TOTAL_BURSTS <= j < listed(profiles).len() ==> #[trigger] stable_sorted(
                listed(profiles),
                busier(),
            )[i].burst.packets >= #[trigger] stable_sorted(listed(profiles), busier())[j].burst.packets,
{
    broadcast use vstd::seq_lib::group_to_multiset_ensures;

    let order = stable_sorted(listed(profiles), busier());
    lemma_sorted_keeps(listed(profiles), busier());
    lemma_sorted_in_order(listed(profiles), busier());
    assert forall|i: int, j: int| 0 <= i < MAX_TOTAL_BURSTS <= j < listed(profiles).len() implies
        #[trigger] order[i].burst.packets >= #[trigger] order[j].burst.packets by {
        assert(!busier()(order[j], order[i]));
    }
    if listed(profiles).len() > MAX_TOTAL_BURSTS {
        let kept = busiest(profiles);
        lemma_listed_len(profiles, kept, profiles.len() as int);
        assert(sampled(profiles).take(profiles.len() as int) =~= sampled(profiles));
        lemma_kept_on_all(profiles, 0, true);
        assert forall|i: int| 0 <= i < kept.len() implies (#[trigger] kept[i]).profile
            < profiles.len() by {
            assert(order.contains(order[i]));
            assert(order.to_multiset().contains(order[i]));
            assert(listed(profiles).contains(kept[i]));
        }
        lemma_all_standing(kept, profiles.len() as int);
    }
    assert forall|i: int| 0 <= i < profiles.len() implies {
        let left = #[trigger] sampled(profiles)[i];
        let held = profiles[i];
        &&& left.edge == held.edge
        &&& left.placements == held.placements
        &&& left.client_to_upstream.to_multiset().subset_of(held.client_to_upstream.to_multiset())
        &&& left.upstream_to_client.to_multiset().subset_of(held.upstream_to_client.to_multiset())
        &&& rising(held.client_to_upstream) ==> left_of(
            left.client_to_upstream,
            held.client_to_upstream,
        )
        &&& rising(held.upstream_to_client) ==> left_of(
            left.upstream_to_client,
            held.upstream_to_client,
        )
    } by {
        let held = profiles[i];
        if listed(profiles).len() <= MAX_TOTAL_BURSTS {
            lemma_left_whole(held.client_to_upstream);
            lemma_left_whole(held.upstream_to_client);
        } else {
            let kept = busiest(profiles);
            lemma_kept_among(profiles, i, true);
            lemma_kept_among(profiles, i, false);
            lemma_sorted_keeps(kept_on(kept, i, true), sooner_on_edge());
            lemma_sorted_keeps(kept_on(kept, i, false), sooner_on_edge());
            if rising(held.client_to_upstream) {
                lemma_put_back(kept_on(kept, i, true), held.client_to_upstream);
            }
            if rising(held.upstream_to_client) {
                lemma_put_back(kept_on(kept, i, false), held.upstream_to_client);
            }
        }
    }
}

proof fn lemma_left_whole(bursts: Seq<Burst>)
    ensures
        left_of(bursts, bursts),
{
    assert(stands_at(bursts, bursts, Seq::new(bursts.len(), |i: int| i)));
}

proof fn lemma_bursts_rise(packets: Seq<u128>)
    requires
        packets.len() <= u32::MAX,
    ensures
        rising(bursts_from(packets, 0, 0)),
{
    let all = bursts_from(packets, 0, 0);
    lemma_bursts_from(packets, 0, 0);
    assert forall|i: int, j: int| 0 <= i < j < all.len() implies (#[trigger] all[i]).mid < (
    #[trigger] all[j]).mid by {
        lemma_ends_rise(packets, i, j);
    }
}

proof fn lemma_ends_rise(packets: Seq<u128>, i: int, j: int)
    requires
        packets.len() <= u32::MAX,
        0 <= i < j < bursts_from(packets, 0, 0).len(),
    ensures
        bursts_from(packets, 0, 0)[i].end <= bursts_from(packets, 0, 0)[j].start,
    decreases j - i,
{
    let all = bursts_from(packets, 0, 0);
    lemma_bursts_from(packets, 0, 0);
    assert(all[j].start == all[j - 1].end);
    if i < j - 1 {
        lemma_ends_rise(packets, i, j - 1);
        assert(all[j - 1].start < all[j - 1].mid <= all[j - 1].end);
    }
}

/// `mid` rises across the bursts of every edge a learn run observed, so what is
/// left of an edge once the catalogue has been trimmed is what it carried, in
/// order, with some left out.
pub proof fn lemma_catalogue_in_order(
    sessions: Seq<SessionModel>,
    peers: Seq<Option<Address>>,
    addresses: Seq<(Address, Seq<char>)>,
    start: u128,
)
    requires
        countable(crossings(sessions, peers, addresses, start)),
        catalogue(sessions, peers, addresses, start).len() <= usize::MAX,
    ensures
        ({
            let whole = catalogue(sessions, peers, addresses, start);
            let left = sampled(whole);
            forall|i: int|
                0 <= i < whole.len() ==> {
                    &&& rising((#[trigger] whole[i]).client_to_upstream)
                    &&& rising(whole[i].upstream_to_client)
                    &&& left_of(left[i].client_to_upstream, whole[i].client_to_upstream)
                    &&& left_of(left[i].upstream_to_client, whole[i].upstream_to_client)
                }
        }),
{
    let packets = crossings(sessions, peers, addresses, start);
    let whole = catalogue(sessions, peers, addresses, start);
    let left = sampled(whole);
    lemma_catalogue_fits(whole);
    assert forall|i: int| 0 <= i < whole.len() implies {
        &&& rising((#[trigger] whole[i]).client_to_upstream)
        &&& rising(whole[i].upstream_to_client)
        &&& left_of(left[i].client_to_upstream, whole[i].client_to_upstream)
        &&& left_of(left[i].upstream_to_client, whole[i].upstream_to_client)
    } by {
        let sent = times(packets, whole[i].edge, Direction::ClientToUpstream);
        let received = times(packets, whole[i].edge, Direction::UpstreamToClient);
        lemma_sorted_keeps(sent, earlier());
        lemma_sorted_keeps(received, earlier());
        lemma_bursts_rise(stable_sorted(sent, earlier()));
        lemma_bursts_rise(stable_sorted(received, earlier()));
        assert(left[i].edge == whole[i].edge);
    }
}

} // verus!
