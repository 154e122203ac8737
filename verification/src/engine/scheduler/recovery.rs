//! Recovery scheduler: one schedule per way of degrading the fleet, held for the
//! whole scenario and put back afterwards, so what it accepted while down is
//! what it has to have caught up on.
//!
//! Losing a service degrades every edge it holds; losing one edge leaves both
//! its ends running, so a service reachable another way carries on.

use vstd::prelude::*;

use std::collections::VecDeque;

use super::burst::{schedule_for, schedules_for};
use super::Scheduler;
use crate::fault::{By, ByModel, Drive, Fault, FaultModel};
use crate::learned::{Learned, LearnedModel};
use crate::plan::{clone_checks, clone_steps, Fleet, FleetModel, Scenario, ServiceModel};
use crate::protocol::{EdgeProfileModel, Primitive, Primitives};
use crate::schedule::{Schedule, ScheduleModel};
use crate::verdict::Invariant;

verus! {

/// Every way of holding the fleet degraded by `by`: each service the author
/// declared, and each link the fault-free run saw carry traffic. Changing what
/// crosses needs something to cross, and a fleet held down from the start never
/// sends anything.
pub open spec fn held_by(fleet: FleetModel, learned: LearnedModel, by: Drive) -> Seq<ByModel> {
    match by {
        Drive::Kill => fleet.services.map_values(
            |service: ServiceModel| ByModel::Kill(service.name),
        ),
        Drive::Cut => learned.profiles.filter(
            |profile: EdgeProfileModel| profile.edge.client is Some,
        ).map_values(|profile: EdgeProfileModel| ByModel::Cut(profile.edge)),
        Drive::Repeat | Drive::Reorder | Drive::Drop => Seq::empty(),
    }
}

/// Every way this fleet can be held degraded, in the order of `ways`.
pub open spec fn held(fleet: FleetModel, learned: LearnedModel, ways: Seq<Drive>) -> Seq<ByModel>
    decreases ways.len(),
{
    if ways.len() == 0 {
        Seq::empty()
    } else {
        held(fleet, learned, ways.drop_last()) + held_by(fleet, learned, ways.last())
    }
}

/// The faults that hold the fleet degraded.
pub open spec fn holding(fleet: FleetModel, learned: LearnedModel, ways: Seq<Drive>) -> Seq<FaultModel> {
    held(fleet, learned, ways).map_values(|by: ByModel| FaultModel::Recovers { by })
}

/// Every way this fleet can be held degraded: each service the author declared,
/// and each link the fault-free run saw carry traffic.
fn degradations(fleet: &Fleet, learned: &Learned, ways: &[Drive]) -> (r: Vec<By>)
    ensures
        r.deep_view() == held(fleet.deep_view(), learned.deep_view(), ways@),
{
    let ghost f = fleet.deep_view();
    let ghost l = learned.deep_view();
    let mut out: Vec<By> = Vec::new();
    assert(out.deep_view() =~= Seq::empty());
    for i in 0..ways.len()
        invariant
            f == fleet.deep_view(),
            l == learned.deep_view(),
            out.deep_view() == held(f, l, ways@.take(i as int)),
    {
        assert(ways@.take(i + 1).drop_last() =~= ways@.take(i as int));
        let ghost before = out.deep_view();
        match ways[i] {
            Drive::Kill => {
                let ghost all = held_by(f, l, Drive::Kill);
                assert(before + all.take(0) =~= before);
                for j in 0..fleet.services.len()
                    invariant
                        f == fleet.deep_view(),
                        all == held_by(f, l, Drive::Kill),
                        out.deep_view() == before + all.take(j as int),
                {
                    let ghost so_far = out.deep_view();
                    let by = By::Kill(fleet.services[j].name.clone());
                    let ghost added = by.deep_view();
                    out.push(by);
                    proof {
                        assert(f.services[j as int] == fleet.services@[j as int].deep_view());
                        assert(all[j as int] == added);
                        assert(out.deep_view() =~= so_far.push(added));
                        assert(before + all.take(j + 1) =~= (before + all.take(j as int)).push(added));
                    }
                }
                assert(all.take(all.len() as int) =~= all);
            },
            Drive::Cut => {
                let ghost within = |profile: EdgeProfileModel| profile.edge.client is Some;
                let ghost cutting = |profile: EdgeProfileModel| ByModel::Cut(profile.edge);
                proof {
                    reveal(Seq::filter);
                    assert(before + l.profiles.take(0).filter(within).map_values(cutting) =~= before);
                }
                for j in 0..learned.profiles.len()
                    invariant
                        l == learned.deep_view(),
                        within == (|profile: EdgeProfileModel| profile.edge.client is Some),
                        cutting == (|profile: EdgeProfileModel| ByModel::Cut(profile.edge)),
                        out.deep_view() == before + l.profiles.take(j as int).filter(
                            within,
                        ).map_values(cutting),
                {
                    let ghost so_far = out.deep_view();
                    let ghost kept = l.profiles.take(j as int).filter(within);
                    proof {
                        reveal(Seq::filter);
                        assert(l.profiles[j as int] == learned.profiles@[j as int].deep_view());
                        assert(l.profiles.take(j + 1).drop_last() =~= l.profiles.take(j as int));
                    }
                    let edge = &learned.profiles[j].edge;
                    if edge.within_fleet() {
                        let by = By::Cut(edge.clone());
                        let ghost added = by.deep_view();
                        out.push(by);
                        proof {
                            assert(out.deep_view() =~= so_far.push(added));
                            assert(l.profiles.take(j + 1).filter(within) =~= kept.push(
                                l.profiles[j as int],
                            ));
                            assert(kept.push(l.profiles[j as int]).map_values(cutting)
                                =~= kept.map_values(cutting).push(added));
                            assert(before + kept.map_values(cutting).push(added) =~= (before
                                + kept.map_values(cutting)).push(added));
                        }
                    }
                }
                assert(l.profiles.take(l.profiles.len() as int) =~= l.profiles);
            },
            _ => {
                assert(before + Seq::<ByModel>::empty() =~= before);
            },
        }
    }
    assert(ways@.take(ways@.len() as int) =~= ways@);
    out
}

/// One schedule per way of degrading the fleet.
pub struct RecoveryScheduler {
    total: usize,
    schedules: VecDeque<Schedule>,
}

impl Scheduler for RecoveryScheduler {
    closed spec fn upcoming(&self) -> Seq<ScheduleModel> {
        self.schedules.deep_view()
    }

    fn next(&mut self) -> (r: Option<Schedule>)
        ensures
            final(self).counted() == old(self).counted(),
    {
        let ghost before = self.schedules.deep_view();
        let r = self.schedules.pop_front();
        proof {
            if r is Some {
                assert(self.schedules.deep_view() =~= before.skip(1));
            }
        }
        r
    }
}

impl RecoveryScheduler {
    /// Degrade the fleet every way it can be degraded. Nothing is anchored to a
    /// packet: the fault is in place before the scenario starts.
    pub fn new(
        fleet: &Fleet,
        scenario: &Scenario,
        learned: &Learned,
        ways: &[Drive],
        first_id: u32,
    ) -> (r: RecoveryScheduler)
        requires
            first_id + held(fleet.deep_view(), learned.deep_view(), ways@).len() <= u32::MAX,
        ensures
            r.upcoming() == schedules_for(
                first_id as int,
                fleet.deep_view(),
                scenario.deep_view(),
                learned.deep_view(),
                holding(fleet.deep_view(), learned.deep_view(), ways@),
            ),
            r.counted() == held(fleet.deep_view(), learned.deep_view(), ways@).len(),
    {
        let ghost f = fleet.deep_view();
        let ghost s = scenario.deep_view();
        let ghost l = learned.deep_view();
        let degrading = degradations(fleet, learned, ways);
        let ghost all = degrading.deep_view();
        let ghost given = degrading@;
        let ghost faults = holding(f, l, ways@);
        let mut next_id: u32 = first_id;
        let mut schedules: VecDeque<Schedule> = VecDeque::new();
        assert(schedules.deep_view() =~= schedules_for(first_id as int, f, s, l, faults.take(0)));
        for by in it: degrading
            invariant
                it.seq() == given,
                all.len() == given.len(),
                forall|k: int| 0 <= k < given.len() ==> (#[trigger] given[k]).deep_view() == all[k],
                f == fleet.deep_view(),
                s == scenario.deep_view(),
                l == learned.deep_view(),
                faults == all.map_values(|by: ByModel| FaultModel::Recovers { by }),
                first_id + all.len() <= u32::MAX,
                next_id == first_id + it.index(),
                schedules.deep_view() == schedules_for(
                    first_id as int,
                    f,
                    s,
                    l,
                    faults.take(it.index() as int),
                ),
        {
            let ghost j = it.index() as int;
            let ghost so_far = schedules.deep_view();
            assert(by == given[j]);
            let schedule = Schedule::faulted(
                next_id,
                fleet.clone(),
                clone_steps(scenario.steps.as_slice()),
                clone_checks(scenario.checks.as_slice()),
                Fault::throughout(by),
                learned.fault_free.clone(),
                scenario.consistent_within,
            );
            let ghost added = schedule.deep_view();
            schedules.push_back(schedule);
            proof {
                assert(added == schedule_for((first_id + j) as u32, f, s, l, faults[j]));
                assert(schedules.deep_view() =~= so_far.push(added));
                assert(so_far.push(added) =~= schedules_for(
                    first_id as int,
                    f,
                    s,
                    l,
                    faults.take(j + 1),
                ));
            }
            next_id += 1;
        }
        assert(faults.take(faults.len() as int) =~= faults);
        let total = schedules.len();
        RecoveryScheduler { total, schedules }
    }

    /// How many schedules degrading this fleet takes, before building any. The
    /// campaign needs it to reserve their cost against its budget.
    pub fn count(fleet: &Fleet, learned: &Learned, ways: &[Drive]) -> (r: usize)
        ensures
            r == held(fleet.deep_view(), learned.deep_view(), ways@).len(),
    {
        let degrading = degradations(fleet, learned, ways);
        assert(degrading.deep_view().len() == degrading@.len());
        degrading.len()
    }

    /// How many schedules there were to start with.
    pub closed spec fn counted(&self) -> nat {
        self.total as nat
    }

    /// How many schedules there were to start with.
    pub fn total(&self) -> (r: usize)
        ensures
            r == self.counted(),
    {
        self.total
    }
}

/// The ways this scheduler can degrade a fleet, out of what the campaign found
/// it could do. Recovery is shown by holding the fleet down, so only what can
/// be held counts.
pub fn ways(available: &Primitives) -> (r: Vec<Drive>)
    ensures
        r@ == Invariant::Recovers.showing(available.deep_view().to_set()).map_values(
            |by: Primitive| Drive::breaking(by),
        ),
{
    let ghost aim = |by: Primitive| Drive::breaking(by);
    let mut out: Vec<Drive> = Vec::new();
    match Invariant::Recovers.showable(available) {
        Ok(showable) => {
            for i in 0..showable.len()
                invariant
                    aim == (|by: Primitive| Drive::breaking(by)),
                    out@ == showable@.take(i as int).map_values(aim),
            {
                match Drive::try_from(showable[i]) {
                    Ok(drive) => out.push(drive),
                    Err(_) => {},
                }
                assert(out@ =~= showable@.take(i + 1).map_values(aim));
            }
            assert(showable@.take(showable@.len() as int) =~= showable@);
        },
        Err(_) => {
            assert(out@ =~= Invariant::Recovers.showing(available.deep_view().to_set()).map_values(aim));
        },
    }
    out
}

/// A schedule that holds the fleet degraded is anchored to no packet, and what
/// it takes is a service of the fleet or a link between two of them.
pub proof fn lemma_held_throughout(
    fleet: FleetModel,
    learned: LearnedModel,
    ways: Seq<Drive>,
    i: int,
)
    requires
        0 <= i < holding(fleet, learned, ways).len(),
    ensures
        holding(fleet, learned, ways)[i].anchor() is None,
        match holding(fleet, learned, ways)[i].taking() {
            ByModel::Kill(name) => exists|k: int|
                0 <= k < fleet.services.len() && (#[trigger] fleet.services[k]).name == name,
            ByModel::Cut(edge) => edge.client is Some && exists|k: int|
                0 <= k < learned.profiles.len() && (#[trigger] learned.profiles[k]).edge == edge,
            _ => false,
        },
    decreases ways.len(),
{
    let all = held(fleet, learned, ways);
    let before = held(fleet, learned, ways.drop_last());
    if i < before.len() {
        lemma_held_throughout(fleet, learned, ways.drop_last(), i);
        assert(all[i] == before[i]);
    } else {
        let here = held_by(fleet, learned, ways.last());
        let j = i - before.len();
        assert(all[i] == here[j]);
        match ways.last() {
            Drive::Kill => {
                assert(fleet.services[j].name == here[j]->Kill_0);
            },
            Drive::Cut => {
                let within = |profile: EdgeProfileModel| profile.edge.client is Some;
                let kept = learned.profiles.filter(within);
                learned.profiles.lemma_filter_pred(within, j);
                learned.profiles.lemma_filter_contains_rev(within, kept[j]);
                let k = choose|k: int| 0 <= k < learned.profiles.len() && learned.profiles[k] == kept[j];
                assert(learned.profiles[k].edge == here[j]->Cut_0);
            },
            _ => {},
        }
    }
}

} // verus!
