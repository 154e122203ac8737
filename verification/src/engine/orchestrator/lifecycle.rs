//! The replica lifecycle around one scenario: setting it up, running the
//! scenario, and what is torn down where something fails.

use vstd::prelude::*;

use super::Settling;
use crate::learned::{Learned, LearnedModel};
use crate::protocol::{declared, FaultReport, FaultResult, Primitives};
use crate::proxy_log::{
    catalogue, countable, crossings, edge_profiles_from_sessions, sampled, Address,
};
use crate::time::Duration;
use crate::verdict::{
    Baseline, BaselineModel, Observations, Observed, Readings, ReadingsModel,
};

verus! {

/// How something asked of the replica went.
#[derive(Debug)]
pub enum Went {
    Well,
    Badly(String),
}

/// What a [`Went`] says.
pub enum WentModel {
    Well,
    Badly(Seq<char>),
}

impl DeepView for Went {
    type V = WentModel;

    open spec fn deep_view(&self) -> WentModel {
        match self {
            Went::Well => WentModel::Well,
            Went::Badly(e) => WentModel::Badly(e@),
        }
    }
}

/// What to do next to bring a replica up.
#[derive(Debug, PartialEq, Eq)]
pub enum Bring {
    /// Bring the fleet up.
    SetUp,
    /// Start its session observer, and wait for the fleet to be ready.
    WaitReady,
    /// Resolve where every action's target is reachable.
    Resolve,
    /// Shut the observer down.
    ShutDown,
    /// Remove the replica.
    TearDown,
    /// It is up.
    Ready,
    /// It could not be brought up.
    Fail(String),
}

/// Where bringing a replica up has got to.
pub enum BringModel {
    SetUp,
    WaitReady,
    Resolve,
    ShutDown { e: Seq<char> },
    TearDown { e: Seq<char> },
    Ready,
    Failed { e: Seq<char> },
}

/// What doing as [`BringModel`] says looks like from outside.
pub open spec fn is_to_do(bring: Bring, model: BringModel) -> bool {
    match model {
        BringModel::SetUp => bring == Bring::SetUp,
        BringModel::WaitReady => bring == Bring::WaitReady,
        BringModel::Resolve => bring == Bring::Resolve,
        BringModel::ShutDown { .. } => bring == Bring::ShutDown,
        BringModel::TearDown { .. } => bring == Bring::TearDown,
        BringModel::Ready => bring == Bring::Ready,
        BringModel::Failed { e } => bring matches Bring::Fail(said) && said@ == e,
    }
}

impl BringModel {
    /// Where things stand once what was done last went like that. Any failure
    /// tears the replica down, and what failed first is what is said.
    pub open spec fn next(self, went: WentModel) -> BringModel {
        match (self, went) {
            (BringModel::SetUp, WentModel::Well) => BringModel::WaitReady,
            (BringModel::SetUp, WentModel::Badly(e)) => BringModel::TearDown { e },
            (BringModel::WaitReady, WentModel::Well) => BringModel::Resolve,
            (BringModel::WaitReady, WentModel::Badly(e)) => BringModel::ShutDown { e },
            (BringModel::Resolve, WentModel::Well) => BringModel::Ready,
            (BringModel::Resolve, WentModel::Badly(e)) => BringModel::ShutDown { e },
            (BringModel::ShutDown { e }, _) => BringModel::TearDown { e },
            (BringModel::TearDown { e }, _) => BringModel::Failed { e },
            _ => self,
        }
    }
}

/// Bringing a replica up.
pub struct Setup {
    at: SetupAt,
}

enum SetupAt {
    SetUp,
    WaitReady,
    Resolve,
    ShutDown { e: String },
    TearDown { e: String },
    Ready,
    Failed { e: String },
}

impl DeepView for Setup {
    type V = BringModel;

    closed spec fn deep_view(&self) -> BringModel {
        match self.at {
            SetupAt::SetUp => BringModel::SetUp,
            SetupAt::WaitReady => BringModel::WaitReady,
            SetupAt::Resolve => BringModel::Resolve,
            SetupAt::ShutDown { e } => BringModel::ShutDown { e: e@ },
            SetupAt::TearDown { e } => BringModel::TearDown { e: e@ },
            SetupAt::Ready => BringModel::Ready,
            SetupAt::Failed { e } => BringModel::Failed { e: e@ },
        }
    }
}

impl Setup {
    /// Nothing is up yet.
    pub fn new() -> (r: Setup)
        ensures
            r.deep_view() == BringModel::SetUp,
    {
        Setup { at: SetupAt::SetUp }
    }

    /// What to do next.
    pub fn does(&self) -> (r: Bring)
        ensures
            is_to_do(r, self.deep_view()),
    {
        match &self.at {
            SetupAt::SetUp => Bring::SetUp,
            SetupAt::WaitReady => Bring::WaitReady,
            SetupAt::Resolve => Bring::Resolve,
            SetupAt::ShutDown { .. } => Bring::ShutDown,
            SetupAt::TearDown { .. } => Bring::TearDown,
            SetupAt::Ready => Bring::Ready,
            SetupAt::Failed { e } => Bring::Fail(e.clone()),
        }
    }

    /// What was done last went like that.
    pub fn next(&mut self, went: Went)
        ensures
            final(self).deep_view() == old(self).deep_view().next(went.deep_view()),
    {
        let at = match (&self.at, &went) {
            (SetupAt::SetUp, Went::Well) => SetupAt::WaitReady,
            (SetupAt::SetUp, Went::Badly(e)) => SetupAt::TearDown { e: e.clone() },
            (SetupAt::WaitReady, Went::Well) => SetupAt::Resolve,
            (SetupAt::WaitReady, Went::Badly(e)) => SetupAt::ShutDown { e: e.clone() },
            (SetupAt::Resolve, Went::Well) => SetupAt::Ready,
            (SetupAt::Resolve, Went::Badly(e)) => SetupAt::ShutDown { e: e.clone() },
            (SetupAt::ShutDown { e }, _) => SetupAt::TearDown { e: e.clone() },
            (SetupAt::TearDown { e }, _) => SetupAt::Failed { e: e.clone() },
            _ => return,
        };
        self.at = at;
    }
}

/// What a scenario is run for, once the replica is up.
#[derive(Clone, Copy, Debug, PartialEq, Eq, Structural)]
pub enum For {
    /// What its steps leave with nothing broken.
    Reference,
    /// What there is to know of the fleet.
    Learning,
    /// What a fault does to it.
    Breaking,
}

/// What to do next with a replica that is up.
#[derive(Debug, PartialEq, Eq)]
pub enum Goes {
    /// Drive the scenario, breaking what there is to break.
    Run,
    /// Wait for the fleet to fall quiescent.
    Settle(Settling),
    /// Read every check, and take down what the observer saw.
    ReadChecks,
    /// Read which service holds which address, while every service is still up
    /// and holding the address its traffic came from.
    ReadAddresses,
    /// Shut the observer down.
    ShutDown,
    /// Remove the replica.
    TearDown,
    /// The scenario has run; only teardown remains.
    Finish,
    /// The run failed.
    Fail(String),
}

/// Where running a scenario has got to.
pub enum GoesModel {
    Run,
    Settle,
    ReadChecks,
    ReadAddresses,
    ShutDown { e: Seq<char> },
    TearDown { e: Seq<char> },
    Finish,
    Failed { e: Seq<char> },
}

/// What came of the last thing done with a replica.
#[derive(Debug)]
pub enum Ran {
    /// The scenario ran, and whether a fault met it.
    Scenario { fired: bool },
    /// It worked.
    Well,
    /// It did not.
    Badly(String),
}

/// What a [`Ran`] says.
pub enum RanModel {
    Scenario { fired: bool },
    Well,
    Badly(Seq<char>),
}

impl DeepView for Ran {
    type V = RanModel;

    open spec fn deep_view(&self) -> RanModel {
        match self {
            Ran::Scenario { fired } => RanModel::Scenario { fired: *fired },
            Ran::Well => RanModel::Well,
            Ran::Badly(e) => RanModel::Badly(e@),
        }
    }
}

enum OutingAt {
    Run,
    Settle,
    ReadChecks,
    ReadAddresses,
    ShutDown { e: String },
    TearDown { e: String },
    Finish,
    Failed { e: String },
}

/// Running one scenario against a replica that is up.
pub struct Outing {
    purpose: For,
    consistent_within: Duration,
    at: OutingAt,
}

/// What an [`Outing`] holds.
#[verifier::ext_equal]
pub struct OutingModel {
    pub purpose: For,
    pub consistent_within: Duration,
    pub at: GoesModel,
}

impl DeepView for Outing {
    type V = OutingModel;

    closed spec fn deep_view(&self) -> OutingModel {
        OutingModel {
            purpose: self.purpose,
            consistent_within: self.consistent_within,
            at: match self.at {
                OutingAt::Run => GoesModel::Run,
                OutingAt::Settle => GoesModel::Settle,
                OutingAt::ReadChecks => GoesModel::ReadChecks,
                OutingAt::ReadAddresses => GoesModel::ReadAddresses,
                OutingAt::ShutDown { e } => GoesModel::ShutDown { e: e@ },
                OutingAt::TearDown { e } => GoesModel::TearDown { e: e@ },
                OutingAt::Finish => GoesModel::Finish,
                OutingAt::Failed { e } => GoesModel::Failed { e: e@ },
            },
        }
    }
}

impl OutingModel {
    /// How long to let the fleet settle behind the scenario. A fleet a fault met
    /// has recovering to do; one that met none still has writes to land after
    /// they were answered.
    pub open spec fn settling(self) -> Settling {
        match self.purpose {
            For::Breaking => Settling::healing(self.consistent_within),
            _ => Settling::learning(self.consistent_within),
        }
    }

    /// Whether that is what to do next.
    pub open spec fn is_to_do(self, goes: Goes) -> bool {
        match self.at {
            GoesModel::Run => goes == Goes::Run,
            GoesModel::Settle => goes == Goes::Settle(self.settling()),
            GoesModel::ReadChecks => goes == Goes::ReadChecks,
            GoesModel::ReadAddresses => goes == Goes::ReadAddresses,
            GoesModel::ShutDown { .. } => goes == Goes::ShutDown,
            GoesModel::TearDown { .. } => goes == Goes::TearDown,
            GoesModel::Finish => goes == Goes::Finish,
            GoesModel::Failed { e } => goes matches Goes::Fail(said) && said@ == e,
        }
    }

    /// Where things stand once that has come of what was done last. A run that
    /// meant to break something and did not has nothing to wait for. Any failure
    /// tears the replica down rather than dropping the only handle to it.
    pub open spec fn next(self, ran: RanModel) -> OutingModel {
        let at = match (self.at, ran) {
            (GoesModel::Run, RanModel::Scenario { fired }) => if self.purpose == For::Breaking
                && !fired {
                GoesModel::ReadChecks
            } else {
                GoesModel::Settle
            },
            (GoesModel::Settle, _) => GoesModel::ReadChecks,
            (GoesModel::ReadChecks, RanModel::Well) => if self.purpose == For::Learning {
                GoesModel::ReadAddresses
            } else {
                GoesModel::Finish
            },
            (GoesModel::ReadAddresses, RanModel::Well) => GoesModel::Finish,
            (GoesModel::ShutDown { e }, _) => GoesModel::TearDown { e },
            (GoesModel::TearDown { e }, _) => GoesModel::Failed { e },
            (GoesModel::Finish, _) => self.at,
            (GoesModel::Failed { .. }, _) => self.at,
            (_, RanModel::Badly(e)) => GoesModel::ShutDown { e },
            _ => self.at,
        };
        OutingModel { at, ..self }
    }
}

impl Outing {
    /// A scenario to run.
    pub fn new(purpose: For, consistent_within: Duration) -> (r: Outing)
        ensures
            r.deep_view() == (OutingModel { purpose, consistent_within, at: GoesModel::Run }),
    {
        Outing { purpose, consistent_within, at: OutingAt::Run }
    }

    /// What to do next.
    pub fn does(&self) -> (r: Goes)
        ensures
            self.deep_view().is_to_do(r),
    {
        match &self.at {
            OutingAt::Run => Goes::Run,
            OutingAt::Settle => Goes::Settle(
                match self.purpose {
                    For::Breaking => Settling::heal(self.consistent_within),
                    _ => Settling::learn(self.consistent_within),
                },
            ),
            OutingAt::ReadChecks => Goes::ReadChecks,
            OutingAt::ReadAddresses => Goes::ReadAddresses,
            OutingAt::ShutDown { .. } => Goes::ShutDown,
            OutingAt::TearDown { .. } => Goes::TearDown,
            OutingAt::Finish => Goes::Finish,
            OutingAt::Failed { e } => Goes::Fail(e.clone()),
        }
    }

    /// That has come of what was done last.
    pub fn next(&mut self, ran: Ran)
        ensures
            final(self).deep_view() == old(self).deep_view().next(ran.deep_view()),
    {
        let at = match (&self.at, &ran) {
            (OutingAt::Run, Ran::Scenario { fired }) => {
                let idle = match self.purpose {
                    For::Breaking => !*fired,
                    _ => false,
                };
                if idle {
                    OutingAt::ReadChecks
                } else {
                    OutingAt::Settle
                }
            },
            (OutingAt::Settle, _) => OutingAt::ReadChecks,
            (OutingAt::ReadChecks, Ran::Well) => match self.purpose {
                For::Learning => OutingAt::ReadAddresses,
                _ => OutingAt::Finish,
            },
            (OutingAt::ReadAddresses, Ran::Well) => OutingAt::Finish,
            (OutingAt::ShutDown { e }, _) => OutingAt::TearDown { e: e.clone() },
            (OutingAt::TearDown { e }, _) => OutingAt::Failed { e: e.clone() },
            (OutingAt::Finish, _) => return,
            (OutingAt::Failed { .. }, _) => return,
            (_, Ran::Badly(e)) => OutingAt::ShutDown { e: e.clone() },
            _ => return,
        };
        self.at = at;
    }
}

/// Whether the fault a report speaks of met the fleet.
pub fn fired(report: &FaultReport) -> (r: bool)
    ensures
        r == (report.deep_view().result is Fired),
{
    match &report.result {
        FaultResult::Fired { .. } => true,
        FaultResult::Missed(_) => false,
    }
}

/// What a reference run read: what its steps left, and what the checks settled
/// on.
pub fn reference(observations: Observations, checks: Vec<Observed>) -> (r: Readings)
    ensures
        r.deep_view() == (ReadingsModel {
            checks: checks.deep_view(),
            ..observations.deep_view().readings
        }),
{
    let mut readings = observations.readings;
    readings.checks = checks;
    readings
}

/// What a run a fault was placed in read, and what it is judged against.
pub fn executed(
    observations: Observations,
    report: FaultReport,
    checks: Vec<Observed>,
    fault_free: Baseline,
) -> (r: Readings)
    ensures
        r.deep_view() == (ReadingsModel {
            checks: checks.deep_view(),
            fault_free: fault_free.deep_view(),
            fault: Some(report.deep_view()),
            ..observations.deep_view().readings
        }),
{
    let mut readings = observations.readings;
    readings.fault = Some(report);
    readings.checks = checks;
    readings.fault_free = fault_free;
    readings
}

/// What the fault-free run found out about the fleet: what crossed its edges
/// from when the scenario started, the state each step left and where the run
/// settled, what services said of themselves, and what can be done to it.
pub fn learn(
    observations: Observations,
    checks: Vec<Observed>,
    peers: &[Option<Address>],
    scenario_start_ns: u128,
    addresses: &[(Address, String)],
    primitives: Primitives,
) -> (r: Learned)
    requires
        peers@.len() == observations.deep_view().sessions.len(),
        countable(
            crossings(
                observations.deep_view().sessions,
                peers@,
                addresses.deep_view(),
                scenario_start_ns,
            ),
        ),
    ensures
        ({
            let seen = observations.deep_view();
            r.deep_view() == (LearnedModel {
                profiles: sampled(
                    catalogue(seen.sessions, peers@, addresses.deep_view(), scenario_start_ns),
                ),
                fault_free: BaselineModel {
                    trail: seen.readings.trajectory,
                    settled: (ReadingsModel {
                        checks: checks.deep_view(),
                        ..seen.readings
                    }).settled(),
                },
                inside: seen.inside,
                primitives: primitives.deep_view(),
            })
        }),
        r.deep_view().primitives == declared(primitives.deep_view()),
{
    proof {
        use_type_invariant(&primitives);
    }
    let mut readings = observations.readings;
    readings.checks = checks;
    let sessions = observations.sessions.as_slice();
    assert(sessions.deep_view() =~= observations.sessions.deep_view());
    let profiles = edge_profiles_from_sessions(sessions, peers, scenario_start_ns, addresses);
    Learned { profiles, fault_free: readings.baseline(), inside: observations.inside, primitives }
}

} // verus!
