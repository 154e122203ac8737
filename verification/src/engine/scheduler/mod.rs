//! Schedule generation.

pub mod burst;
pub mod laws;
pub mod meaning;
pub mod recovery;

use vstd::prelude::*;

use crate::schedule::{Schedule, ScheduleModel};
use crate::time::Duration;


verus! {

/// Produces schedules for the runner to dispatch.
pub trait Scheduler {
    /// The schedules still to come, in order.
    spec fn upcoming(&self) -> Seq<ScheduleModel>;

    /// Return the next schedule, or `None` when the scheduler is exhausted.
    fn next(&mut self) -> (r: Option<Schedule>)
        ensures
            match r {
                Some(schedule) => {
                    &&& old(self).upcoming().len() > 0
                    &&& schedule.deep_view() == old(self).upcoming()[0]
                    &&& final(self).upcoming() == old(self).upcoming().skip(1)
                },
                None => {
                    &&& old(self).upcoming().len() == 0
                    &&& final(self).upcoming().len() == 0
                },
            },
    ;
}

/// Every schedule of the first, then every schedule of the second, so a campaign
/// draws from more than one way of picking faults.
pub struct Chain<A, B>(pub A, pub B);

impl<A: Scheduler, B: Scheduler> Scheduler for Chain<A, B> {
    open spec fn upcoming(&self) -> Seq<ScheduleModel> {
        self.0.upcoming() + self.1.upcoming()
    }

    fn next(&mut self) -> (r: Option<Schedule>) {
        let ghost before = (self.0.upcoming(), self.1.upcoming());
        match self.0.next() {
            Some(schedule) => {
                assert((before.0 + before.1).skip(1) =~= before.0.skip(1) + before.1);
                Some(schedule)
            },
            None => {
                assert(before.0 + before.1 =~= before.1);
                let r = self.1.next();
                assert(self.0.upcoming() + self.1.upcoming() =~= self.1.upcoming());
                r
            },
        }
    }
}

/// How long a campaign has left, and what one run of it costs.
#[derive(Clone, Copy, Debug, PartialEq, Eq)]
pub struct Budget {
    pub left: Duration,
    /// How long one run takes.
    pub cost: Duration,
    /// How many runs go on at once.
    pub concurrency: u32,
}

impl Budget {
    /// How many runs go on at once, which is never none.
    pub open spec fn at_once(self) -> int {
        if self.concurrency == 0 {
            1
        } else {
            self.concurrency as int
        }
    }

    /// How many rounds of concurrent runs it takes to run that many.
    pub open spec fn rounds(self, schedules: int) -> int {
        schedules / self.at_once() + (if schedules % self.at_once() == 0 {
            0int
        } else {
            1int
        })
    }

    /// Whether that many schedules can be run in the time left.
    pub open spec fn affords(self, schedules: int) -> bool {
        self.rounds(schedules) * self.cost@ <= self.left@
    }

    /// Whether that many schedules can be run in the time left.
    pub fn fits(&self, schedules: u128) -> (r: bool)
        ensures
            r == self.affords(schedules as int),
    {
        let at_once: u128 = if self.concurrency == 0 {
            1
        } else {
            self.concurrency as u128
        };
        let whole: u128 = schedules / at_once;
        let rounds: u128 = if schedules % at_once == 0 {
            whole
        } else {
            assert(at_once >= 2);
            assert(whole < u128::MAX) by (nonlinear_arith)
                requires
                    at_once >= 2,
                    whole == schedules / at_once,
                    schedules <= u128::MAX,
            ;
            whole + 1
        };
        let left: u128 = self.left.as_nanos();
        let cost: u128 = self.cost.as_nanos();
        match rounds.checked_mul(cost) {
            Some(needed) => needed <= left,
            None => false,
        }
    }
}

} // verus!
