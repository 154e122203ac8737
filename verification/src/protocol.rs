//! What services, proxies and workers tell each other about traffic and faults.

use vstd::prelude::*;
use vstd::string::*;

use crate::sorting::lemma_filter_in_order;
use crate::text::{decimal, quote, quoted, spell};

verus! {

/// Which way bytes cross an edge.
#[derive(Clone, Copy, Debug, PartialEq, Eq, PartialOrd, Ord, Hash, Structural)]
pub enum Direction {
    ClientToUpstream,
    UpstreamToClient,
}

impl DeepView for Direction {
    type V = Direction;

    open spec fn deep_view(&self) -> Direction {
        *self
    }
}

/// One way of breaking a fleet.
#[derive(Clone, Copy, Debug, PartialEq, Eq, PartialOrd, Ord, Hash, Structural)]
pub enum Primitive {
    /// A service is taken away and brought back.
    Kill,
    /// The link between two services is severed.
    Cut,
    /// A message is carried a second time.
    Redeliver,
    /// Messages are carried in another order.
    Reorder,
    /// A message is not carried at all.
    Drop,
}

impl DeepView for Primitive {
    type V = Primitive;

    open spec fn deep_view(&self) -> Primitive {
        *self
    }
}

impl Primitive {
    /// Every way of breaking a fleet, in the order they are declared.
    pub open spec fn every() -> Seq<Primitive> {
        seq![
            Primitive::Kill,
            Primitive::Cut,
            Primitive::Redeliver,
            Primitive::Reorder,
            Primitive::Drop,
        ]
    }

    /// Every way of breaking a fleet, in the order they are declared.
    pub fn all() -> (r: Vec<Primitive>)
        ensures
            r@ == Primitive::every(),
    {
        vec![
            Primitive::Kill,
            Primitive::Cut,
            Primitive::Redeliver,
            Primitive::Reorder,
            Primitive::Drop,
        ]
    }

    /// The primitive as a report names it.
    pub open spec fn spelling(self) -> Seq<char> {
        match self {
            Primitive::Kill => "kill"@,
            Primitive::Cut => "cut"@,
            Primitive::Redeliver => "redeliver"@,
            Primitive::Reorder => "reorder"@,
            Primitive::Drop => "drop"@,
        }
    }

    /// The primitive as a report names it.
    pub fn spell(&self) -> (r: &'static str)
        ensures
            r@ == self.spelling(),
    {
        match self {
            Primitive::Kill => "kill",
            Primitive::Cut => "cut",
            Primitive::Redeliver => "redeliver",
            Primitive::Reorder => "reorder",
            Primitive::Drop => "drop",
        }
    }
}

/// The primitives among `by`, each once, in the order they are declared.
pub open spec fn declared(by: Seq<Primitive>) -> Seq<Primitive> {
    Primitive::every().filter(|one: Primitive| by.contains(one))
}

/// A set of ways of breaking a fleet: each once, in the order they are declared.
#[derive(Debug, PartialEq, Eq)]
pub struct Primitives(Vec<Primitive>);

impl DeepView for Primitives {
    type V = Seq<Primitive>;

    closed spec fn deep_view(&self) -> Seq<Primitive> {
        self.0@
    }
}

impl Primitives {
    /// Whether each is there once, in the order they are declared.
    #[verifier::type_invariant]
    pub open spec fn in_order(&self) -> bool {
        self.deep_view() == declared(self.deep_view())
    }

    /// The set of what is among `by`.
    pub fn of(by: &[Primitive]) -> (r: Primitives)
        ensures
            r.deep_view() == declared(by@),
    {
        let every = Primitive::all();
        let ghost among = |one: Primitive| by@.contains(one);
        let mut out: Vec<Primitive> = Vec::new();
        assert(every@.take(0).filter(among) =~= Seq::empty()) by {
            reveal(Seq::filter);
        }
        for i in 0..every.len()
            invariant
                among == (|one: Primitive| by@.contains(one)),
                every@ == Primitive::every(),
                out@ == every@.take(i as int).filter(among),
        {
            proof {
                reveal(Seq::filter);
                assert(every@.take(i + 1).drop_last() =~= every@.take(i as int));
            }
            if offers(by, every[i]) {
                out.push(every[i]);
            }
        }
        proof {
            assert(every@.take(every@.len() as int) =~= every@);
            lemma_declared(by@);
        }
        Primitives(out)
    }

    /// Whether `by` is in the set.
    pub fn contains(&self, by: Primitive) -> (r: bool)
        ensures
            r == self.deep_view().contains(by),
    {
        offers(self.0.as_slice(), by)
    }

    /// What is in the set, each once, in the order they are declared.
    pub fn as_slice(&self) -> (r: &[Primitive])
        ensures
            r@ == self.deep_view(),
    {
        self.0.as_slice()
    }
}

/// What is declared among some primitives is what is among them, each once, and
/// that is declared as it stands.
pub proof fn lemma_declared(by: Seq<Primitive>)
    ensures
        forall|one: Primitive| #[trigger] declared(by).contains(one) <==> by.contains(one),
        declared(by).no_duplicates(),
        declared(declared(by)) == declared(by),
{
    let every = Primitive::every();
    let among = |one: Primitive| by.contains(one);
    let again = |one: Primitive| declared(by).contains(one);
    assert forall|one: Primitive| #[trigger] declared(by).contains(one) <==> by.contains(one) by {
        let at: int = match one {
            Primitive::Kill => 0,
            Primitive::Cut => 1,
            Primitive::Redeliver => 2,
            Primitive::Reorder => 3,
            Primitive::Drop => 4,
        };
        assert(every[at] == one);
        if among(one) {
            every.lemma_filter_contains(among, at);
        }
        if declared(by).contains(one) {
            let k = choose|k: int| 0 <= k < declared(by).len() && declared(by)[k] == one;
            every.lemma_filter_pred(among, k);
        }
    }
    assert(again =~= among);
    let apart = |a: Primitive, b: Primitive| a != b;
    lemma_filter_in_order(every, among, apart);
    let all = declared(by);
    assert forall|i: int, j: int| 0 <= i < all.len() && 0 <= j < all.len() && i != j implies all[i]
        != all[j] by {
        if i < j {
            assert(apart(all[i], all[j]));
        } else {
            assert(apart(all[j], all[i]));
        }
    }
}

/// Primitives are a set: where the same ones are among two lists, the sets of
/// them are the same, whatever the order and however often each was given.
pub proof fn lemma_primitives_are_a_set(a: Seq<Primitive>, b: Seq<Primitive>)
    requires
        forall|one: Primitive| #[trigger] a.contains(one) <==> b.contains(one),
    ensures
        declared(a) == declared(b),
{
    let here = |one: Primitive| a.contains(one);
    let there = |one: Primitive| b.contains(one);
    assert(here =~= there);
}

/// Whether `by` is among `available`, which is read as a set.
pub fn offers(available: &[Primitive], by: Primitive) -> (r: bool)
    ensures
        r == available@.contains(by),
{
    for i in 0..available.len()
        invariant
            forall|j: int| 0 <= j < i ==> available@[j] != by,
    {
        if available[i] == by {
            return true;
        }
    }
    false
}

/// A link between two services: who dialled, and who answered.
#[derive(Debug, PartialEq, Eq, Hash)]
pub struct Edge {
    /// The service that dialled, or `None` for a caller from outside the fleet.
    pub client: Option<String>,
    pub upstream: String,
}

/// What an [`Edge`] holds.
#[verifier::ext_equal]
pub struct EdgeModel {
    pub client: Option<Seq<char>>,
    pub upstream: Seq<char>,
}

impl DeepView for Edge {
    type V = EdgeModel;

    open spec fn deep_view(&self) -> EdgeModel {
        EdgeModel { client: self.client.deep_view(), upstream: self.upstream@ }
    }
}

impl Clone for Edge {
    fn clone(&self) -> (r: Edge)
        ensures
            r.deep_view() == self.deep_view(),
    {
        Edge {
            client: match &self.client {
                Some(client) => Some(client.clone()),
                None => None,
            },
            upstream: self.upstream.clone(),
        }
    }
}

impl EdgeModel {
    /// The edge as a report names it.
    pub open spec fn spelling(self) -> Seq<char> {
        match self.client {
            Some(client) => client + " -> "@ + self.upstream,
            None => "outside -> "@ + self.upstream,
        }
    }
}

impl Edge {
    /// Whether both ends are the fleet's own.
    pub fn within_fleet(&self) -> (r: bool)
        ensures
            r == (self.deep_view().client is Some),
    {
        self.client.is_some()
    }

    /// The edge as a report names it.
    pub fn spell(&self) -> (r: String)
        ensures
            r@ == self.deep_view().spelling(),
    {
        match &self.client {
            Some(client) => {
                let mut out = client.clone();
                out.append(" -> ");
                out.append(self.upstream.as_str());
                out
            },
            None => {
                let mut out = "outside -> ".to_owned();
                out.append(self.upstream.as_str());
                out
            },
        }
    }

    /// Whether two edges join the same two ends.
    pub fn same(&self, other: &Edge) -> (r: bool)
        ensures
            r == (self.deep_view() == other.deep_view()),
    {
        let clients = match (&self.client, &other.client) {
            (Some(a), Some(b)) => *a == *b,
            (None, None) => true,
            _ => false,
        };
        clients && self.upstream == other.upstream
    }
}

/// A run of packets close together on one direction of an edge, given as the
/// counts a fault can be placed against.
#[derive(Clone, Copy, Debug, PartialEq, Eq, Structural)]
pub struct Burst {
    pub start: u32,
    pub mid: u32,
    pub end: u32,
    pub packets: u32,
}

impl DeepView for Burst {
    type V = Burst;

    open spec fn deep_view(&self) -> Burst {
        *self
    }
}

/// What breaking the fleet at a moment is.
#[derive(Clone, Copy, Debug, PartialEq, Eq, Structural)]
pub enum Doing {
    /// Holding the fleet there while something is taken away from it.
    Holding,
    /// Changing what crosses as it passes.
    Rewriting(Primitive),
}

impl DeepView for Doing {
    type V = Doing;

    open spec fn deep_view(&self) -> Doing {
        *self
    }
}

/// A moment a plugin named on an edge it read.
#[derive(Debug, PartialEq, Eq)]
pub struct Placement {
    pub direction: Direction,
    pub mark: String,
    /// What faulting here catches.
    pub why: String,
    pub doing: Doing,
}

/// What a [`Placement`] holds.
#[verifier::ext_equal]
pub struct PlacementModel {
    pub direction: Direction,
    pub mark: Seq<char>,
    pub why: Seq<char>,
    pub doing: Doing,
}

/// What a fleet has to do to come through a fault.
#[derive(Clone, Copy, Debug, PartialEq, Eq, Structural)]
pub enum Property {
    /// Keep what it took.
    Durable,
    /// Come to the same thing when told the same thing twice.
    Idempotent,
    /// Come to the same thing whatever order it is told things in.
    Converges,
}

impl PlacementModel {
    /// What breaking the fleet at this moment puts to the test.
    pub open spec fn exercises(self) -> Property {
        match self.doing {
            Doing::Rewriting(Primitive::Redeliver) => Property::Idempotent,
            Doing::Rewriting(Primitive::Reorder) => Property::Converges,
            _ => Property::Durable,
        }
    }
}

impl Placement {
    /// What breaking the fleet at this moment puts to the test.
    pub fn exercises(&self) -> (r: Property)
        ensures
            r == self.deep_view().exercises(),
    {
        match self.doing {
            Doing::Rewriting(Primitive::Redeliver) => Property::Idempotent,
            Doing::Rewriting(Primitive::Reorder) => Property::Converges,
            _ => Property::Durable,
        }
    }
}

impl DeepView for Placement {
    type V = PlacementModel;

    open spec fn deep_view(&self) -> PlacementModel {
        PlacementModel {
            direction: self.direction,
            mark: self.mark@,
            why: self.why@,
            doing: self.doing,
        }
    }
}

/// What crossed one edge over a run.
#[derive(Debug, PartialEq, Eq)]
pub struct EdgeProfile {
    pub edge: Edge,
    /// The moments a plugin named on the edge. Empty where nothing read it.
    pub placements: Vec<Placement>,
    pub client_to_upstream: Vec<Burst>,
    pub upstream_to_client: Vec<Burst>,
}

/// What an [`EdgeProfile`] holds.
#[verifier::ext_equal]
pub struct EdgeProfileModel {
    pub edge: EdgeModel,
    pub placements: Seq<PlacementModel>,
    pub client_to_upstream: Seq<Burst>,
    pub upstream_to_client: Seq<Burst>,
}

impl DeepView for EdgeProfile {
    type V = EdgeProfileModel;

    open spec fn deep_view(&self) -> EdgeProfileModel {
        EdgeProfileModel {
            edge: self.edge.deep_view(),
            placements: self.placements.deep_view(),
            client_to_upstream: self.client_to_upstream@,
            upstream_to_client: self.upstream_to_client@,
        }
    }
}

/// Which end of a span a service reached.
#[derive(Clone, Copy, Debug, PartialEq, Eq, PartialOrd, Ord, Hash, Structural)]
pub enum Side {
    Started,
    Ended,
}

impl DeepView for Side {
    type V = Side;

    open spec fn deep_view(&self) -> Side {
        *self
    }
}

/// A point inside a service: the `nth` time one side of a span was reached.
#[derive(Debug, PartialEq, Eq)]
pub struct Boundary {
    pub span: String,
    pub side: Side,
    pub nth: u32,
}

/// A moment a service reported reaching inside itself.
#[derive(Debug, PartialEq, Eq)]
pub struct Reached {
    pub service: String,
    pub boundary: Boundary,
}

/// What a [`Reached`] holds.
#[verifier::ext_equal]
pub struct ReachedModel {
    pub service: Seq<char>,
    pub span: Seq<char>,
    pub side: Side,
    pub nth: u32,
}

impl DeepView for Reached {
    type V = ReachedModel;

    open spec fn deep_view(&self) -> ReachedModel {
        ReachedModel {
            service: self.service@,
            span: self.boundary.span@,
            side: self.boundary.side,
            nth: self.boundary.nth,
        }
    }
}

impl ReachedModel {
    /// The moment as an anchor names it.
    pub open spec fn mark(self) -> Seq<char> {
        self.span + ":"@ + decimal(self.nth as nat) + match self.side {
            Side::Started => ":start"@,
            Side::Ended => ":end"@,
        }
    }
}

impl Reached {
    /// The moment as an anchor names it.
    pub fn mark(&self) -> (r: String)
        ensures
            r@ == self.deep_view().mark(),
    {
        let mut out = self.boundary.span.clone();
        out.append(":");
        out.append(spell(self.boundary.nth as u128).as_str());
        match self.boundary.side {
            Side::Started => out.append(":start"),
            Side::Ended => out.append(":end"),
        }
        out
    }
}

/// When a fault stood.
#[derive(Debug, PartialEq, Eq)]
pub enum At {
    /// On one moment of the run.
    Moment { direction: Option<Direction>, mark: String, why: String, offset_ns: u128 },
    /// From before the scenario until after it.
    Throughout,
}

/// What an [`At`] holds.
pub enum AtModel {
    Moment { direction: Option<Direction>, mark: Seq<char>, why: Seq<char>, offset_ns: u128 },
    Throughout,
}

impl DeepView for At {
    type V = AtModel;

    open spec fn deep_view(&self) -> AtModel {
        match self {
            At::Moment { direction, mark, why, offset_ns } => AtModel::Moment {
                direction: *direction,
                mark: mark@,
                why: why@,
                offset_ns: *offset_ns,
            },
            At::Throughout => AtModel::Throughout,
        }
    }
}

impl Clone for At {
    fn clone(&self) -> (r: At)
        ensures
            r.deep_view() == self.deep_view(),
    {
        match self {
            At::Moment { direction, mark, why, offset_ns } => At::Moment {
                direction: *direction,
                mark: mark.clone(),
                why: why.clone(),
                offset_ns: *offset_ns,
            },
            At::Throughout => At::Throughout,
        }
    }
}

/// Why a fault did not fire.
#[derive(Debug, PartialEq, Eq)]
pub enum FaultMissReason {
    /// The run was over before the anchored moment came.
    ScenarioEndedBeforeAnchor,
    /// Placing it failed.
    Failed(String),
}

/// What a [`FaultMissReason`] holds.
pub enum MissModel {
    ScenarioEndedBeforeAnchor,
    Failed(Seq<char>),
}

impl DeepView for FaultMissReason {
    type V = MissModel;

    open spec fn deep_view(&self) -> MissModel {
        match self {
            FaultMissReason::ScenarioEndedBeforeAnchor => MissModel::ScenarioEndedBeforeAnchor,
            FaultMissReason::Failed(why) => MissModel::Failed(why@),
        }
    }
}

impl Clone for FaultMissReason {
    fn clone(&self) -> (r: FaultMissReason)
        ensures
            r.deep_view() == self.deep_view(),
    {
        match self {
            FaultMissReason::ScenarioEndedBeforeAnchor => FaultMissReason::ScenarioEndedBeforeAnchor,
            FaultMissReason::Failed(why) => FaultMissReason::Failed(why.clone()),
        }
    }
}

impl MissModel {
    /// The miss as a verdict quotes it.
    pub open spec fn spelling(self) -> Seq<char> {
        match self {
            MissModel::ScenarioEndedBeforeAnchor => "ScenarioEndedBeforeAnchor"@,
            MissModel::Failed(why) => "Failed("@ + quoted(why) + ")"@,
        }
    }
}

impl FaultMissReason {
    /// The miss as a verdict quotes it.
    pub fn spell(&self) -> (r: String)
        ensures
            r@ == self.deep_view().spelling(),
    {
        match self {
            FaultMissReason::ScenarioEndedBeforeAnchor => "ScenarioEndedBeforeAnchor".to_owned(),
            FaultMissReason::Failed(why) => {
                let mut out = "Failed(".to_owned();
                out.append(quote(why.as_str()).as_str());
                out.append(")");
                out
            },
        }
    }
}

/// What became of a scheduled fault.
#[derive(Debug, PartialEq, Eq)]
pub enum FaultResult {
    Missed(FaultMissReason),
    Fired { by: Primitive, at: At, placed_at_ns: u128 },
}

/// What a [`FaultResult`] holds.
pub enum FaultResultModel {
    Missed(MissModel),
    Fired { by: Primitive, at: AtModel, placed_at_ns: u128 },
}

impl DeepView for FaultResult {
    type V = FaultResultModel;

    open spec fn deep_view(&self) -> FaultResultModel {
        match self {
            FaultResult::Missed(miss) => FaultResultModel::Missed(miss.deep_view()),
            FaultResult::Fired { by, at, placed_at_ns } => FaultResultModel::Fired {
                by: *by,
                at: at.deep_view(),
                placed_at_ns: *placed_at_ns,
            },
        }
    }
}

impl Clone for FaultResult {
    fn clone(&self) -> (r: FaultResult)
        ensures
            r.deep_view() == self.deep_view(),
    {
        match self {
            FaultResult::Missed(miss) => FaultResult::Missed(miss.clone()),
            FaultResult::Fired { by, at, placed_at_ns } => FaultResult::Fired {
                by: *by,
                at: at.clone(),
                placed_at_ns: *placed_at_ns,
            },
        }
    }
}

/// What became of the fault one schedule carried.
#[derive(Debug, PartialEq, Eq)]
pub struct FaultReport {
    pub schedule_id: u32,
    /// What the fault was done to.
    pub service: String,
    pub result: FaultResult,
}

/// What a [`FaultReport`] holds.
#[verifier::ext_equal]
pub struct FaultReportModel {
    pub schedule_id: u32,
    pub service: Seq<char>,
    pub result: FaultResultModel,
}

impl DeepView for FaultReport {
    type V = FaultReportModel;

    open spec fn deep_view(&self) -> FaultReportModel {
        FaultReportModel {
            schedule_id: self.schedule_id,
            service: self.service@,
            result: self.result.deep_view(),
        }
    }
}

impl Clone for FaultReport {
    fn clone(&self) -> (r: FaultReport)
        ensures
            r.deep_view() == self.deep_view(),
    {
        FaultReport {
            schedule_id: self.schedule_id,
            service: self.service.clone(),
            result: self.result.clone(),
        }
    }
}

impl FaultReport {
    /// A fault that landed.
    pub fn fired(
        schedule_id: u32,
        service: &str,
        by: Primitive,
        at: At,
        placed_at_ns: u128,
    ) -> (r: FaultReport)
        ensures
            r.deep_view() == (FaultReportModel {
                schedule_id,
                service: service@,
                result: FaultResultModel::Fired { by, at: at.deep_view(), placed_at_ns },
            }),
    {
        FaultReport {
            schedule_id,
            service: service.to_owned(),
            result: FaultResult::Fired { by, at, placed_at_ns },
        }
    }

    /// A fault that did not land.
    pub fn missed(schedule_id: u32, service: String, reason: FaultMissReason) -> (r: FaultReport)
        ensures
            r.deep_view() == (FaultReportModel {
                schedule_id,
                service: service@,
                result: FaultResultModel::Missed(reason.deep_view()),
            }),
    {
        FaultReport { schedule_id, service, result: FaultResult::Missed(reason) }
    }
}

/// Which connection of a proxy an event is about.
pub type ConnId = u64;

/// Bytes a proxy forwarded.
#[derive(Clone, Copy, Debug, PartialEq, Eq, Structural)]
pub struct WriteRecord {
    pub ts_ns: u128,
    pub direction: Direction,
    pub bytes: u64,
}

impl DeepView for WriteRecord {
    type V = WriteRecord;

    open spec fn deep_view(&self) -> WriteRecord {
        *self
    }
}

/// One connection a proxy carried, from when it opened to when it closed.
#[derive(Debug, PartialEq, Eq)]
pub struct Session {
    pub service: String,
    pub conn_id: ConnId,
    pub peer: String,
    pub opened_ns: u128,
    /// `None` where the connection was still open when the run was read.
    pub closed_ns: Option<u128>,
    pub writes: Vec<WriteRecord>,
}

/// What a [`Session`] holds.
#[verifier::ext_equal]
pub struct SessionModel {
    pub service: Seq<char>,
    pub conn_id: ConnId,
    pub peer: Seq<char>,
    pub opened_ns: u128,
    pub closed_ns: Option<u128>,
    pub writes: Seq<WriteRecord>,
}

impl DeepView for Session {
    type V = SessionModel;

    open spec fn deep_view(&self) -> SessionModel {
        SessionModel {
            service: self.service@,
            conn_id: self.conn_id,
            peer: self.peer@,
            opened_ns: self.opened_ns,
            closed_ns: self.closed_ns,
            writes: self.writes@,
        }
    }
}

/// When each packet crossed to and from one service, in order.
#[derive(Debug, PartialEq, Eq)]
pub struct ServiceProfile {
    pub service: String,
    pub client_to_upstream: Vec<u128>,
    pub upstream_to_client: Vec<u128>,
}

/// What a [`ServiceProfile`] holds.
#[verifier::ext_equal]
pub struct ServiceProfileModel {
    pub service: Seq<char>,
    pub client_to_upstream: Seq<u128>,
    pub upstream_to_client: Seq<u128>,
}

impl DeepView for ServiceProfile {
    type V = ServiceProfileModel;

    open spec fn deep_view(&self) -> ServiceProfileModel {
        ServiceProfileModel {
            service: self.service@,
            client_to_upstream: self.client_to_upstream@,
            upstream_to_client: self.upstream_to_client@,
        }
    }
}

/// Which connection a schedule is aimed at.
#[derive(Debug, PartialEq, Eq)]
pub struct SessionRef {
    pub service: String,
    pub conn_id: ConnId,
}

/// What a fault a reader places itself says of itself.
#[derive(Debug, PartialEq, Eq)]
pub enum Did {
    /// The fleet was asked for something, and has not been seen to do it.
    Asked,
    /// The fault landed, and how that is known.
    Placed(String),
    /// The fault cannot land, and why.
    Unplaceable(String),
}

/// What a [`Did`] says.
pub enum DidModel {
    Asked,
    Placed(Seq<char>),
    Unplaceable(Seq<char>),
}

impl DeepView for Did {
    type V = DidModel;

    open spec fn deep_view(&self) -> DidModel {
        match self {
            Did::Asked => DidModel::Asked,
            Did::Placed(how) => DidModel::Placed(how@),
            Did::Unplaceable(why) => DidModel::Unplaceable(why@),
        }
    }
}

impl Clone for Did {
    fn clone(&self) -> (r: Did)
        ensures
            r.deep_view() == self.deep_view(),
    {
        match self {
            Did::Asked => Did::Asked,
            Did::Placed(how) => Did::Placed(how.clone()),
            Did::Unplaceable(why) => Did::Unplaceable(why.clone()),
        }
    }
}

/// What happened on a proxied connection.
#[derive(Debug, PartialEq, Eq)]
pub enum ConnEventKind {
    Opened { peer: String },
    Wrote { direction: Direction, bytes: u64 },
    Closed { bytes_client_to_upstream: u64, bytes_upstream_to_client: u64 },
    /// Forwarding failed before or during byte transfer.
    Failed { reason: String },
    /// The fault anchor was reached and the fleet held there.
    Froze { mark: String },
    /// What a fault the proxy places itself says of itself.
    Did { did: Did },
}

/// What a [`ConnEventKind`] says.
pub enum EventKindModel {
    Opened { peer: Seq<char> },
    Wrote { direction: Direction, bytes: u64 },
    Closed { bytes_client_to_upstream: u64, bytes_upstream_to_client: u64 },
    Failed { reason: Seq<char> },
    Froze { mark: Seq<char> },
    Did { did: DidModel },
}

impl DeepView for ConnEventKind {
    type V = EventKindModel;

    open spec fn deep_view(&self) -> EventKindModel {
        match self {
            ConnEventKind::Opened { peer } => EventKindModel::Opened { peer: peer@ },
            ConnEventKind::Wrote { direction, bytes } => EventKindModel::Wrote {
                direction: *direction,
                bytes: *bytes,
            },
            ConnEventKind::Closed { bytes_client_to_upstream, bytes_upstream_to_client } => {
                EventKindModel::Closed {
                    bytes_client_to_upstream: *bytes_client_to_upstream,
                    bytes_upstream_to_client: *bytes_upstream_to_client,
                }
            },
            ConnEventKind::Failed { reason } => EventKindModel::Failed { reason: reason@ },
            ConnEventKind::Froze { mark } => EventKindModel::Froze { mark: mark@ },
            ConnEventKind::Did { did } => EventKindModel::Did { did: did.deep_view() },
        }
    }
}

/// Something that happened on one connection of a proxy, and when.
#[derive(Debug, PartialEq, Eq)]
pub struct ConnEvent {
    pub id: ConnId,
    pub ts_ns: u128,
    pub kind: ConnEventKind,
}

/// What a [`ConnEvent`] says.
#[verifier::ext_equal]
pub struct EventModel {
    pub id: ConnId,
    pub ts_ns: u128,
    pub kind: EventKindModel,
}

impl DeepView for ConnEvent {
    type V = EventModel;

    open spec fn deep_view(&self) -> EventModel {
        EventModel { id: self.id, ts_ns: self.ts_ns, kind: self.kind.deep_view() }
    }
}

impl ConnEvent {
    /// A connection from `peer` opened.
    pub fn opened_at(id: ConnId, ts_ns: u128, peer: String) -> (r: ConnEvent)
        ensures
            r.deep_view() == (EventModel { id, ts_ns, kind: EventKindModel::Opened { peer: peer@ } }),
    {
        ConnEvent { id, ts_ns, kind: ConnEventKind::Opened { peer } }
    }

    /// Bytes were forwarded.
    pub fn wrote_at(id: ConnId, ts_ns: u128, direction: Direction, bytes: u64) -> (r: ConnEvent)
        ensures
            r.deep_view() == (EventModel {
                id,
                ts_ns,
                kind: EventKindModel::Wrote { direction, bytes },
            }),
    {
        ConnEvent { id, ts_ns, kind: ConnEventKind::Wrote { direction, bytes } }
    }

    /// The connection closed, having carried that many bytes each way.
    pub fn closed_at(
        id: ConnId,
        ts_ns: u128,
        bytes_client_to_upstream: u64,
        bytes_upstream_to_client: u64,
    ) -> (r: ConnEvent)
        ensures
            r.deep_view() == (EventModel {
                id,
                ts_ns,
                kind: EventKindModel::Closed { bytes_client_to_upstream, bytes_upstream_to_client },
            }),
    {
        ConnEvent {
            id,
            ts_ns,
            kind: ConnEventKind::Closed { bytes_client_to_upstream, bytes_upstream_to_client },
        }
    }

    /// The connection could not be carried.
    pub fn failed_at(id: ConnId, ts_ns: u128, reason: &str) -> (r: ConnEvent)
        ensures
            r.deep_view() == (EventModel {
                id,
                ts_ns,
                kind: EventKindModel::Failed { reason: reason@ },
            }),
    {
        ConnEvent { id, ts_ns, kind: ConnEventKind::Failed { reason: reason.to_owned() } }
    }

    /// The fleet was held at `mark`.
    pub fn froze_at(id: ConnId, ts_ns: u128, mark: String) -> (r: ConnEvent)
        ensures
            r.deep_view() == (EventModel { id, ts_ns, kind: EventKindModel::Froze { mark: mark@ } }),
    {
        ConnEvent { id, ts_ns, kind: ConnEventKind::Froze { mark } }
    }
}

impl Clone for ConnEventKind {
    fn clone(&self) -> (r: ConnEventKind)
        ensures
            r.deep_view() == self.deep_view(),
    {
        match self {
            ConnEventKind::Opened { peer } => ConnEventKind::Opened { peer: peer.clone() },
            ConnEventKind::Wrote { direction, bytes } => ConnEventKind::Wrote {
                direction: *direction,
                bytes: *bytes,
            },
            ConnEventKind::Closed { bytes_client_to_upstream, bytes_upstream_to_client } => {
                ConnEventKind::Closed {
                    bytes_client_to_upstream: *bytes_client_to_upstream,
                    bytes_upstream_to_client: *bytes_upstream_to_client,
                }
            },
            ConnEventKind::Failed { reason } => ConnEventKind::Failed { reason: reason.clone() },
            ConnEventKind::Froze { mark } => ConnEventKind::Froze { mark: mark.clone() },
            ConnEventKind::Did { did } => ConnEventKind::Did { did: did.clone() },
        }
    }
}

impl Clone for ConnEvent {
    fn clone(&self) -> (r: ConnEvent)
        ensures
            r.deep_view() == self.deep_view(),
    {
        ConnEvent { id: self.id, ts_ns: self.ts_ns, kind: self.kind.clone() }
    }
}

/// A moment where messages are made to arrive twice tests idempotency, one where
/// they are made to arrive out of order convergence, and any other durability.
pub proof fn lemma_moment_exercises(placement: PlacementModel)
    ensures
        placement.exercises() == Property::Idempotent <==> placement.doing == Doing::Rewriting(
            Primitive::Redeliver,
        ),
        placement.exercises() == Property::Converges <==> placement.doing == Doing::Rewriting(
            Primitive::Reorder,
        ),
        placement.exercises() == Property::Durable <==> placement.doing != Doing::Rewriting(
            Primitive::Redeliver,
        ) && placement.doing != Doing::Rewriting(Primitive::Reorder),
{
}

/// An edge is named by its two ends, whoever dialled first.
pub proof fn lemma_edge_named(edge: EdgeModel)
    ensures
        edge.client matches Some(client) ==> edge.spelling() == client + " -> "@ + edge.upstream,
        edge.client is None ==> edge.spelling() == "outside -> "@ + edge.upstream,
{
}

/// No two ways of breaking a fleet are named alike.
pub proof fn lemma_ways_named_apart(a: Primitive, b: Primitive)
    ensures
        a.spelling() == b.spelling() ==> a == b,
{
    reveal_strlit("kill");
    reveal_strlit("cut");
    reveal_strlit("redeliver");
    reveal_strlit("reorder");
    reveal_strlit("drop");
    assert("kill"@[0] == 'k' && "cut"@[0] == 'c' && "redeliver"@[0] == 'r' && "reorder"@[0] == 'r'
        && "drop"@[0] == 'd');
    assert("redeliver"@.len() == 9 && "reorder"@.len() == 7);
}

} // verus!
