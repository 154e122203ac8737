//! L4 orchestrator: what bringing up a fleet replica, executing one schedule
//! and tearing the replica down does next, given how the last thing went.

pub mod degraded;
pub mod driving;
pub mod laws;
pub mod lifecycle;
pub mod stories;

use vstd::prelude::*;

use vstd::string::*;

use crate::fault::{Fault, FaultModel};
use crate::observer::{Reported, ReportedModel};
use crate::protocol::{
    offers, At, AtModel, Did, DidModel, FaultMissReason, FaultReport, FaultReportModel,
    FaultResultModel, MissModel, Primitive,
};
use crate::text::around;
use crate::time::Duration;

verus! {

/// How long to wait for a fleet to fall quiescent: at least so long, until
/// nothing has crossed for so long, and at most so long.
#[derive(Clone, Copy, Debug, PartialEq, Eq, Structural)]
pub struct Settling {
    pub at_least: Duration,
    pub idle: Duration,
    pub within: Duration,
}

/// Consider the fleet quiescent once no sidecar has forwarded traffic for this
/// long. Comfortably larger than a DB write plus docker-log delivery latency.
pub open spec fn quiescence_idle() -> Duration {
    Duration::of_secs(1)
}

/// Backstop for the fault anchor: if the target never reaches its Kth packet,
/// stop waiting. In practice the scenario ending fires first (a shorter path to
/// the same "missed" outcome); this only guards a pathological hang.
pub open spec fn anchor_timeout() -> Duration {
    Duration::of_secs(60)
}

/// A fault the proxy places itself is reported over the same stream, so what it
/// says arrives after it happened. Wait this long for it before concluding
/// nothing was placed.
pub open spec fn placed_grace() -> Duration {
    Duration::of_secs(5)
}

impl Settling {
    /// After a restart, wait this long before judging the fleet quiescent, so
    /// recovery traffic has a chance to start.
    pub open spec fn healing(within: Duration) -> Settling {
        Settling { at_least: Duration::of_millis(500), idle: quiescence_idle(), within }
    }

    /// Before the learn snapshot, and between steps, wait at least this long so
    /// work that starts after a step has been answered has begun before the
    /// fleet can be judged quiescent.
    pub open spec fn learning(within: Duration) -> Settling {
        Settling { at_least: Duration::of_millis(100), idle: quiescence_idle(), within }
    }

    pub(crate) fn heal(within: Duration) -> (r: Settling)
        ensures
            r == Settling::healing(within),
    {
        Settling { at_least: Duration::from_millis(500), idle: Duration::from_secs(1), within }
    }

    pub(crate) fn learn(within: Duration) -> (r: Settling)
        ensures
            r == Settling::learning(within),
    {
        Settling { at_least: Duration::from_millis(100), idle: Duration::from_secs(1), within }
    }
}

/// What an unpublished endpoint is reported as.
pub open spec fn unreachable_spelling(target: Seq<char>, kind: Seq<char>) -> Seq<char> {
    "the fleet published no endpoint for `"@ + target + "` speaking `"@ + kind + "`"@
}

/// Where something bound to a service is reached, which is where the fleet
/// published it.
///
/// # Errors
/// Errors if the fleet published no such endpoint.
pub fn endpoint_for<T>(published: Option<T>, target: &str, kind: &str) -> (r: Result<T, String>)
    ensures
        match published {
            Some(endpoint) => r == Ok::<T, String>(endpoint),
            None => r matches Err(e) && e@ == unreachable_spelling(target@, kind@),
        },
{
    match published {
        Some(endpoint) => Ok(endpoint),
        None => {
            let mut e = around("the fleet published no endpoint for `", target, "` speaking `");
            e.append(kind);
            e.append("`");
            Err(e)
        },
    }
}

/// What a fault that cannot be run is reported as.
pub open spec fn unreachable_fault_spelling(fault: FaultModel) -> Seq<char> {
    "a schedule was generated for `"@ + fault.taking().spelling()
        + "`, which cannot be run against this fleet"@
}

/// A schedule reached a worker that the worker cannot carry out, which means the
/// scheduler and the plugins it asked disagree about what this fleet can do.
fn unreachable_fault(fault: &Fault) -> (r: String)
    ensures
        r@ == unreachable_fault_spelling(fault.deep_view()),
{
    let taking = fault.taking().spell();
    around(
        "a schedule was generated for `",
        taking.as_str(),
        "`, which cannot be run against this fleet",
    )
}

/// A report of a fault that did not fire, for the given reason.
pub open spec fn missing(id: u32, fault: FaultModel, reason: MissModel) -> FaultReportModel {
    FaultReportModel {
        schedule_id: id,
        service: fault.taking().target(),
        result: FaultResultModel::Missed(reason),
    }
}

/// A report of a fault that did not fire, for the given reason.
pub fn missed(id: u32, fault: &Fault, reason: FaultMissReason) -> (r: FaultReport)
    ensures
        r.deep_view() == missing(id, fault.deep_view(), reason.deep_view()),
{
    FaultReport::missed(id, fault.taking().target(), reason)
}

/// How a schedule's fault gets placed, resolved before the scenario starts so
/// nothing needed mid-run can turn out to be missing.
#[derive(Clone, Copy, Debug, PartialEq, Eq, Structural)]
pub enum Placement {
    /// The proxy holds the fleet while this side kills the service and brings it
    /// back.
    Kill,
    /// The proxy severs the edge itself and releases the fleet.
    Cut,
    /// The plugin reading the edge changes what crosses it as it passes, so the
    /// fleet is never held and there is nothing for this side to do but hear
    /// what came of it.
    Rewritten,
}

/// How breaking the fleet by `by` gets placed.
pub open spec fn placement_of(by: Primitive) -> Placement {
    match by {
        Primitive::Kill => Placement::Kill,
        Primitive::Cut => Placement::Cut,
        _ => Placement::Rewritten,
    }
}

/// Whether a fleet that can or cannot kill, and whose substrate offers
/// `primitives`, can be broken by `by`.
pub open spec fn placeable(by: Primitive, kills: bool, primitives: Seq<Primitive>) -> bool {
    if by == Primitive::Kill {
        kills
    } else {
        primitives.contains(by)
    }
}

impl Placement {
    /// What the deployment must offer to place `fault`.
    ///
    /// # Errors
    /// Errors if it does not offer it.
    pub fn of(fault: &Fault, kills: bool, primitives: &[Primitive]) -> (r: Result<
        Placement,
        String,
    >)
        ensures
            ({
                let by = fault.deep_view().taking().primitive();
                match r {
                    Ok(placement) => placeable(by, kills, primitives@) && placement
                        == placement_of(by),
                    Err(e) => !placeable(by, kills, primitives@) && e@
                        == unreachable_fault_spelling(fault.deep_view()),
                }
            }),
    {
        match fault.primitive() {
            Primitive::Kill => if kills {
                Ok(Placement::Kill)
            } else {
                Err(unreachable_fault(fault))
            },
            // The substrate does these on its own, so what it offers is all
            // there is to check.
            Primitive::Cut => if offers(primitives, Primitive::Cut) {
                Ok(Placement::Cut)
            } else {
                Err(unreachable_fault(fault))
            },
            by => if offers(primitives, by) {
                Ok(Placement::Rewritten)
            } else {
                Err(unreachable_fault(fault))
            },
        }
    }
}

/// What a fault the proxy places itself says of itself, where it did not land.
pub open spec fn unplaced_spelling(said: Option<ReportedModel>) -> Seq<char> {
    match said {
        Some(said) => match said.did {
            DidModel::Unplaceable(why) => why,
            DidModel::Asked => "the fleet was asked and was not seen to do it"@,
            DidModel::Placed(_) => "the proxy did not say it placed anything"@,
        },
        None => "the proxy did not say it placed anything"@,
    }
}

/// What a fault the proxy places itself says of itself, said in the terms a
/// miss is reported in.
pub fn unplaced(said: &Option<Reported>) -> (r: String)
    ensures
        r@ == unplaced_spelling(said.deep_view()),
{
    match said {
        Some(said) => match &said.did {
            Did::Unplaceable(why) => why.clone(),
            Did::Asked => "the fleet was asked and was not seen to do it".to_owned(),
            Did::Placed(_) => "the proxy did not say it placed anything".to_owned(),
        },
        None => "the proxy did not say it placed anything".to_owned(),
    }
}

/// What came of what was done last.
#[derive(Debug)]
pub enum Came {
    /// The substrate has held the fleet still that often.
    Froze(u32),
    /// What the substrate is to do is in place, as of then.
    Armed { at_ns: u128 },
    /// Every step has been driven.
    ScenarioEnded,
    /// The fleet has fallen quiescent, or has had the time it may have to.
    Quiet,
    /// What the proxy said of the fault, if it said anything.
    Heard(Option<Reported>),
    /// The service was killed then.
    Killed { at_ns: u128 },
    /// It worked.
    Done,
    /// It did not work.
    Failed(String),
}

/// What a [`Came`] says.
pub enum CameModel {
    Froze(u32),
    Armed { at_ns: u128 },
    ScenarioEnded,
    Quiet,
    Heard(Option<ReportedModel>),
    Killed { at_ns: u128 },
    Done,
    Failed(Seq<char>),
}

impl DeepView for Came {
    type V = CameModel;

    open spec fn deep_view(&self) -> CameModel {
        match self {
            Came::Froze(n) => CameModel::Froze(*n),
            Came::Armed { at_ns } => CameModel::Armed { at_ns: *at_ns },
            Came::ScenarioEnded => CameModel::ScenarioEnded,
            Came::Quiet => CameModel::Quiet,
            Came::Heard(said) => CameModel::Heard(said.deep_view()),
            Came::Killed { at_ns } => CameModel::Killed { at_ns: *at_ns },
            Came::Done => CameModel::Done,
            Came::Failed(e) => CameModel::Failed(e@),
        }
    }
}

/// What to do next to place a fault.
#[derive(Debug, PartialEq, Eq)]
pub enum Act {
    /// Count how often the substrate has held the fleet still, waiting that long
    /// for it to have done so more often than `since`.
    CountFreezes { since: u32, within: Duration },
    /// Have the substrate do its part from here on.
    Arm,
    /// Wait for the scenario to end.
    AwaitEnd,
    /// Count freezes as above, unless the scenario ends first.
    WatchUntilEnd { since: u32, within: Duration },
    /// Count freezes as above, unless the fleet falls quiescent first.
    WatchUntilQuiet { since: u32, within: Duration, settling: Settling },
    /// Wait for the fleet to fall quiescent.
    Settle(Settling),
    /// Wait that long for the proxy to say what it did.
    Listen { within: Duration },
    /// Kill the service.
    Kill(String),
    /// Drive the scenario's steps.
    Drive,
    /// Let the fleet go on.
    Proceed,
    /// Bring the service back.
    Restart(String),
    /// Let the fleet go without anything having been done to it.
    Abandon,
    /// This is what came of the fault.
    Report(FaultReport),
    /// The run failed.
    Fail(String),
}

/// What an [`Act`] asks for.
pub enum ActModel {
    CountFreezes { since: u32, within: Duration },
    Arm,
    AwaitEnd,
    WatchUntilEnd { since: u32, within: Duration },
    WatchUntilQuiet { since: u32, within: Duration, settling: Settling },
    Settle(Settling),
    Listen { within: Duration },
    Kill(Seq<char>),
    Drive,
    Proceed,
    Restart(Seq<char>),
    Abandon,
    Report(FaultReportModel),
    Fail(Seq<char>),
}

impl DeepView for Act {
    type V = ActModel;

    open spec fn deep_view(&self) -> ActModel {
        match self {
            Act::CountFreezes { since, within } => ActModel::CountFreezes {
                since: *since,
                within: *within,
            },
            Act::Arm => ActModel::Arm,
            Act::AwaitEnd => ActModel::AwaitEnd,
            Act::WatchUntilEnd { since, within } => ActModel::WatchUntilEnd {
                since: *since,
                within: *within,
            },
            Act::WatchUntilQuiet { since, within, settling } => ActModel::WatchUntilQuiet {
                since: *since,
                within: *within,
                settling: *settling,
            },
            Act::Settle(settling) => ActModel::Settle(*settling),
            Act::Listen { within } => ActModel::Listen { within: *within },
            Act::Kill(service) => ActModel::Kill(service@),
            Act::Drive => ActModel::Drive,
            Act::Proceed => ActModel::Proceed,
            Act::Restart(service) => ActModel::Restart(service@),
            Act::Abandon => ActModel::Abandon,
            Act::Report(report) => ActModel::Report(report.deep_view()),
            Act::Fail(e) => ActModel::Fail(e@),
        }
    }
}

/// Where placing an anchored fault has got to.
#[derive(Debug)]
enum Stage {
    Baseline,
    Arm { since: u32 },
    AwaitEnd,
    Settle,
    Watch { since: u32 },
    Linger { since: u32 },
    Look { since: u32 },
    Listen,
    Kill,
    Proceed { at_ns: u128 },
    Restart { at_ns: u128 },
    Abandon(FaultMissReason),
    Reported(FaultReport),
    Failed(String),
}

/// Where placing an anchored fault has got to.
pub enum StageModel {
    /// Counting the freezes there have been already.
    Baseline,
    /// Having the substrate count from here.
    Arm { since: u32 },
    /// Waiting for the scenario to end, for a fault that holds nothing.
    AwaitEnd,
    /// Waiting for the fleet to settle behind it.
    Settle,
    /// Waiting for a freeze while the scenario runs.
    Watch { since: u32 },
    /// Waiting for a freeze while the fleet settles.
    Linger { since: u32 },
    /// Looking once more, now that it has.
    Look { since: u32 },
    /// Waiting for the proxy's word.
    Listen,
    /// Killing the service against the held flow.
    Kill,
    /// Releasing the flow.
    Proceed { at_ns: u128 },
    /// Bringing the service back.
    Restart { at_ns: u128 },
    /// Releasing the flow with nothing done to it.
    Abandon(MissModel),
    Reported(FaultReportModel),
    Failed(Seq<char>),
}

impl DeepView for Stage {
    type V = StageModel;

    closed spec fn deep_view(&self) -> StageModel {
        match self {
            Stage::Baseline => StageModel::Baseline,
            Stage::Arm { since } => StageModel::Arm { since: *since },
            Stage::AwaitEnd => StageModel::AwaitEnd,
            Stage::Settle => StageModel::Settle,
            Stage::Watch { since } => StageModel::Watch { since: *since },
            Stage::Linger { since } => StageModel::Linger { since: *since },
            Stage::Look { since } => StageModel::Look { since: *since },
            Stage::Listen => StageModel::Listen,
            Stage::Kill => StageModel::Kill,
            Stage::Proceed { at_ns } => StageModel::Proceed { at_ns: *at_ns },
            Stage::Restart { at_ns } => StageModel::Restart { at_ns: *at_ns },
            Stage::Abandon(miss) => StageModel::Abandon(miss.deep_view()),
            Stage::Reported(report) => StageModel::Reported(report.deep_view()),
            Stage::Failed(e) => StageModel::Failed(e@),
        }
    }
}

/// Placing an anchored fault while the scenario runs: the proxy holds the fleet
/// at the anchored packet, the fault is placed against the held flow, and the
/// scenario carries on into a fleet that is recovering in real time.
pub struct Anchored {
    fault: Fault,
    placement: Placement,
    id: u32,
    start_ns: u128,
    stage: Stage,
}

/// What an [`Anchored`] holds.
#[verifier::ext_equal]
pub struct AnchoredModel {
    pub fault: FaultModel,
    pub placement: Placement,
    pub id: u32,
    /// When the scenario started.
    pub start_ns: u128,
    pub stage: StageModel,
}

impl DeepView for Anchored {
    type V = AnchoredModel;

    closed spec fn deep_view(&self) -> AnchoredModel {
        AnchoredModel {
            fault: self.fault.deep_view(),
            placement: self.placement,
            id: self.id,
            start_ns: self.start_ns,
            stage: self.stage.deep_view(),
        }
    }
}

impl AnchoredModel {
    /// Whether the fault has a moment to be placed on.
    pub open spec fn wf(self) -> bool {
        self.fault.anchor() is Some
    }

    /// Where placing the fault against a fleet that is ready for it starts. A
    /// fault the proxy places itself is one to hear of.
    pub open spec fn placing(self) -> StageModel {
        match self.placement {
            Placement::Kill => StageModel::Kill,
            _ => StageModel::Listen,
        }
    }

    /// Where a count of freezes leads: to placing the fault, where the fleet is
    /// held, and otherwise to letting it go in case a freeze is mid-flight.
    pub open spec fn counted(self, n: u32, since: u32) -> StageModel {
        if n > since {
            self.placing()
        } else {
            StageModel::Abandon(MissModel::ScenarioEndedBeforeAnchor)
        }
    }

    /// What a fault that landed then is reported as.
    pub open spec fn fired(self, at_ns: u128) -> FaultReportModel {
        let anchor = self.fault.anchor()->0;
        FaultReportModel {
            schedule_id: self.id,
            service: self.fault.taking().target(),
            result: FaultResultModel::Fired {
                by: self.fault.taking().primitive(),
                at: AtModel::Moment {
                    direction: anchor.reaches.direction(),
                    mark: anchor.mark,
                    why: anchor.why,
                    offset_ns: if at_ns >= self.start_ns {
                        (at_ns - self.start_ns) as u128
                    } else {
                        0
                    },
                },
                placed_at_ns: at_ns,
            },
        }
    }

    /// What to do next.
    pub open spec fn act(self) -> ActModel {
        match self.stage {
            StageModel::Baseline => ActModel::CountFreezes {
                since: 0,
                within: Duration::of_secs(0),
            },
            StageModel::Arm { .. } => ActModel::Arm,
            StageModel::AwaitEnd => ActModel::AwaitEnd,
            StageModel::Settle => ActModel::Settle(Settling::learning(anchor_timeout())),
            StageModel::Watch { since } => ActModel::WatchUntilEnd {
                since,
                within: anchor_timeout(),
            },
            StageModel::Linger { since } => ActModel::WatchUntilQuiet {
                since,
                within: anchor_timeout(),
                settling: Settling::learning(anchor_timeout()),
            },
            StageModel::Look { since } => ActModel::CountFreezes {
                since,
                within: Duration::of_secs(0),
            },
            StageModel::Listen => ActModel::Listen { within: placed_grace() },
            StageModel::Kill => ActModel::Kill(self.fault.taking().target()),
            StageModel::Proceed { .. } => ActModel::Proceed,
            StageModel::Restart { .. } => ActModel::Restart(self.fault.taking().target()),
            StageModel::Abandon(_) => ActModel::Abandon,
            StageModel::Reported(report) => ActModel::Report(report),
            StageModel::Failed(e) => ActModel::Fail(e),
        }
    }

    /// Where things stand once that has come of what was done last. What was not
    /// asked for changes nothing.
    pub open spec fn next(self, came: CameModel) -> AnchoredModel {
        let stage = match (self.stage, came) {
            (StageModel::Baseline, CameModel::Froze(n)) => StageModel::Arm { since: n },
            (StageModel::Arm { since }, CameModel::Armed { .. }) => if self.placement
                == Placement::Rewritten {
                StageModel::AwaitEnd
            } else {
                StageModel::Watch { since }
            },
            (StageModel::AwaitEnd, CameModel::ScenarioEnded) => StageModel::Settle,
            (StageModel::Settle, CameModel::Quiet) => self.placing(),
            (StageModel::Watch { since }, CameModel::Froze(n)) => self.counted(n, since),
            (StageModel::Watch { since }, CameModel::ScenarioEnded) => StageModel::Linger { since },
            (StageModel::Linger { since }, CameModel::Froze(n)) => self.counted(n, since),
            (StageModel::Linger { since }, CameModel::Quiet) => StageModel::Look { since },
            (StageModel::Look { since }, CameModel::Froze(n)) => self.counted(n, since),
            (StageModel::Listen, CameModel::Heard(said)) => if said is Some && said->0.did
                is Placed {
                StageModel::Reported(self.fired(said->0.at_ns))
            } else {
                StageModel::Reported(
                    missing(self.id, self.fault, MissModel::Failed(unplaced_spelling(said))),
                )
            },
            (StageModel::Kill, CameModel::Killed { at_ns }) => StageModel::Proceed { at_ns },
            // Nothing is dead, so the fleet is let go and the miss reported.
            (StageModel::Kill, CameModel::Failed(e)) => StageModel::Abandon(MissModel::Failed(e)),
            (StageModel::Proceed { at_ns }, CameModel::Done) => StageModel::Restart { at_ns },
            (StageModel::Restart { at_ns }, CameModel::Done) => StageModel::Reported(
                self.fired(at_ns),
            ),
            (StageModel::Abandon(miss), CameModel::Done) => StageModel::Reported(
                missing(self.id, self.fault, miss),
            ),
            (StageModel::Reported(_), _) => self.stage,
            (StageModel::Failed(_), _) => self.stage,
            (StageModel::AwaitEnd, _) => self.stage,
            (StageModel::Settle, _) => self.stage,
            (StageModel::Listen, _) => self.stage,
            (_, CameModel::Failed(e)) => StageModel::Failed(e),
            _ => self.stage,
        };
        let start_ns = match (self.stage, came) {
            (StageModel::Arm { .. }, CameModel::Armed { at_ns }) => at_ns,
            _ => self.start_ns,
        };
        AnchoredModel { stage, start_ns, ..self }
    }

    /// Where things stand once all of that has come, in order.
    pub open spec fn after(self, came: Seq<CameModel>) -> AnchoredModel
        decreases came.len(),
    {
        if came.len() == 0 {
            self
        } else {
            self.after(came.drop_last()).next(came.last())
        }
    }
}

impl Anchored {
    /// A fault to place, with nothing done yet.
    pub fn new(fault: Fault, placement: Placement, id: u32) -> (r: Anchored)
        requires
            fault.deep_view().anchor() is Some,
        ensures
            r.deep_view() == (AnchoredModel {
                fault: fault.deep_view(),
                placement,
                id,
                start_ns: 0,
                stage: StageModel::Baseline,
            }),
            r.deep_view().wf(),
    {
        Anchored { fault, placement, id, start_ns: 0, stage: Stage::Baseline }
    }

    /// A fault to place against a fleet that is ready for it, in a scenario that
    /// started then.
    ///
    /// The kill releases the flow and restarts concurrently. A failed kill is a
    /// miss, not an error.
    pub fn place(fault: Fault, placement: Placement, id: u32, start_ns: u128) -> (r: Anchored)
        requires
            fault.deep_view().anchor() is Some,
        ensures
            ({
                let model = AnchoredModel {
                    fault: fault.deep_view(),
                    placement,
                    id,
                    start_ns,
                    stage: StageModel::Kill,
                };
                r.deep_view() == (AnchoredModel { stage: model.placing(), ..model })
            }),
            r.deep_view().wf(),
    {
        let stage = match placement {
            Placement::Kill => Stage::Kill,
            _ => Stage::Listen,
        };
        Anchored { fault, placement, id, start_ns, stage }
    }

    /// What to do next.
    pub fn act(&self) -> (r: Act)
        ensures
            r.deep_view() == self.deep_view().act(),
    {
        let zero = Duration::from_secs(0);
        let timeout = Duration::from_secs(60);
        match &self.stage {
            Stage::Baseline => Act::CountFreezes { since: 0, within: zero },
            Stage::Arm { .. } => Act::Arm,
            Stage::AwaitEnd => Act::AwaitEnd,
            Stage::Settle => Act::Settle(Settling::learn(timeout)),
            Stage::Watch { since } => Act::WatchUntilEnd { since: *since, within: timeout },
            Stage::Linger { since } => Act::WatchUntilQuiet {
                since: *since,
                within: timeout,
                settling: Settling::learn(timeout),
            },
            Stage::Look { since } => Act::CountFreezes { since: *since, within: zero },
            Stage::Listen => Act::Listen { within: Duration::from_secs(5) },
            Stage::Kill => Act::Kill(self.fault.taking().target()),
            Stage::Proceed { .. } => Act::Proceed,
            Stage::Restart { .. } => Act::Restart(self.fault.taking().target()),
            Stage::Abandon(_) => Act::Abandon,
            Stage::Reported(report) => Act::Report(report.clone()),
            Stage::Failed(e) => Act::Fail(e.clone()),
        }
    }

    fn placing(&self) -> (r: Stage)
        ensures
            r.deep_view() == self.deep_view().placing(),
    {
        match self.placement {
            Placement::Kill => Stage::Kill,
            _ => Stage::Listen,
        }
    }

    fn counted(&self, n: u32, since: u32) -> (r: Stage)
        ensures
            r.deep_view() == self.deep_view().counted(n, since),
    {
        if n > since {
            self.placing()
        } else {
            Stage::Abandon(FaultMissReason::ScenarioEndedBeforeAnchor)
        }
    }

    fn fired(&self, at_ns: u128) -> (r: FaultReport)
        requires
            self.deep_view().wf(),
        ensures
            r.deep_view() == self.deep_view().fired(at_ns),
    {
        let target = self.fault.taking().target();
        let by = self.fault.primitive();
        match self.fault.anchor() {
            Some(anchor) => FaultReport::fired(
                self.id,
                target.as_str(),
                by,
                At::Moment {
                    direction: anchor.reaches.direction(),
                    mark: anchor.mark.clone(),
                    why: anchor.why.clone(),
                    offset_ns: if at_ns >= self.start_ns {
                        at_ns - self.start_ns
                    } else {
                        0
                    },
                },
                at_ns,
            ),
            None => FaultReport::fired(self.id, target.as_str(), by, At::Throughout, at_ns),
        }
    }

    /// That has come of what was done last.
    pub fn next(&mut self, came: Came)
        requires
            old(self).deep_view().wf(),
        ensures
            final(self).deep_view() == old(self).deep_view().next(came.deep_view()),
            final(self).deep_view().wf(),
    {
        let mut start_ns = self.start_ns;
        let stage = match (&self.stage, &came) {
            (Stage::Baseline, Came::Froze(n)) => Stage::Arm { since: *n },
            (Stage::Arm { since }, Came::Armed { at_ns }) => {
                start_ns = *at_ns;
                match self.placement {
                    Placement::Rewritten => Stage::AwaitEnd,
                    _ => Stage::Watch { since: *since },
                }
            },
            (Stage::AwaitEnd, Came::ScenarioEnded) => Stage::Settle,
            (Stage::Settle, Came::Quiet) => self.placing(),
            (Stage::Watch { since }, Came::Froze(n)) => self.counted(*n, *since),
            (Stage::Watch { since }, Came::ScenarioEnded) => Stage::Linger { since: *since },
            (Stage::Linger { since }, Came::Froze(n)) => self.counted(*n, *since),
            (Stage::Linger { since }, Came::Quiet) => Stage::Look { since: *since },
            (Stage::Look { since }, Came::Froze(n)) => self.counted(*n, *since),
            (Stage::Listen, Came::Heard(said)) => {
                let placed = match said {
                    Some(said) => match &said.did {
                        Did::Placed(_) => Some(said.at_ns),
                        _ => None,
                    },
                    None => None,
                };
                match placed {
                    Some(at_ns) => Stage::Reported(self.fired(at_ns)),
                    None => Stage::Reported(
                        missed(self.id, &self.fault, FaultMissReason::Failed(unplaced(said))),
                    ),
                }
            },
            (Stage::Kill, Came::Killed { at_ns }) => Stage::Proceed { at_ns: *at_ns },
            (Stage::Kill, Came::Failed(e)) => Stage::Abandon(FaultMissReason::Failed(e.clone())),
            (Stage::Proceed { at_ns }, Came::Done) => Stage::Restart { at_ns: *at_ns },
            (Stage::Restart { at_ns }, Came::Done) => Stage::Reported(self.fired(*at_ns)),
            (Stage::Abandon(miss), Came::Done) => Stage::Reported(
                missed(self.id, &self.fault, miss.clone()),
            ),
            (Stage::Reported(_), _) => return,
            (Stage::Failed(_), _) => return,
            (Stage::AwaitEnd, _) => return,
            (Stage::Settle, _) => return,
            (Stage::Listen, _) => return,
            (_, Came::Failed(e)) => Stage::Failed(e.clone()),
            _ => return,
        };
        self.stage = stage;
        self.start_ns = start_ns;
    }
}

/// What a run whose scenario and whose fault went like that comes to: both, or
/// what the scenario failed on, or else what the fault did.
pub fn both<T>(scenario: Result<T, String>, report: Result<FaultReport, String>) -> (r: Result<
    (T, FaultReport),
    String,
>)
    ensures
        match (scenario, report) {
            (Ok(scenario), Ok(report)) => r == Ok::<(T, FaultReport), String>((scenario, report)),
            (Err(e), _) => r == Err::<(T, FaultReport), String>(e),
            (_, Err(e)) => r == Err::<(T, FaultReport), String>(e),
        },
{
    match scenario {
        Ok(scenario) => match report {
            Ok(report) => Ok((scenario, report)),
            Err(e) => Err(e),
        },
        Err(e) => Err(e),
    }
}

} // verus!
