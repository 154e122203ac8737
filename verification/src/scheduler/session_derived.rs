//! Session-derived scheduler: a grid of kill schedules over the learn catalogue.

use vstd::prelude::*;

use std::collections::VecDeque;

use crate::protocol::{ConnId, Session, SessionModel, SessionRef};
use crate::time::Duration;

verus! {

/// A kill of the service a session was with, some time into the session.
#[derive(Debug, PartialEq, Eq)]
pub struct Schedule {
    pub schedule_id: u32,
    pub session: SessionRef,
    pub fault_offset_ns: u128,
    pub payload: Vec<u8>,
}

/// What a [`Schedule`] holds.
#[verifier::ext_equal]
pub struct SessionSchedule {
    pub schedule_id: u32,
    pub service: Seq<char>,
    pub conn_id: ConnId,
    pub fault_offset_ns: u128,
    pub payload: Seq<u8>,
}

impl DeepView for Schedule {
    type V = SessionSchedule;

    open spec fn deep_view(&self) -> SessionSchedule {
        SessionSchedule {
            schedule_id: self.schedule_id,
            service: self.session.service@,
            conn_id: self.session.conn_id,
            fault_offset_ns: self.fault_offset_ns,
            payload: self.payload@,
        }
    }
}

/// The larger of a number and one.
pub open spec fn at_least_one(n: int) -> int {
    if n < 1 {
        1
    } else {
        n
    }
}

/// How many schedules each session gets of what the budget affords, which is
/// never none.
pub open spec fn per_session(sessions: nat, run_cost: nat, total_budget: nat) -> int {
    let total = at_least_one(total_budget as int / at_least_one(run_cost as int));
    at_least_one(total / sessions as int)
}

/// When a session is taken to have ended: when it closed, or a run after it
/// opened for one that was still open.
pub open spec fn ended(session: SessionModel, run_cost: nat) -> int {
    match session.closed_ns {
        Some(closed) => closed as int,
        None => session.opened_ns + at_least_one(run_cost as int),
    }
}

/// When the last of the sessions ended.
pub open spec fn last_ended(catalogue: Seq<SessionModel>, run_cost: nat) -> int
    decreases catalogue.len(),
{
    if catalogue.len() == 0 {
        0
    } else {
        let rest = last_ended(catalogue.drop_last(), run_cost);
        let last = ended(catalogue.last(), run_cost);
        if last > rest {
            last
        } else {
            rest
        }
    }
}

/// How long a session was observed for, one still open up to `ceiling`.
pub open spec fn lifetime(session: SessionModel, ceiling: int) -> int {
    let end = match session.closed_ns {
        Some(closed) => closed as int,
        None => ceiling,
    };
    if end > session.opened_ns {
        end - session.opened_ns
    } else {
        0
    }
}

/// The kills of one session, evenly spaced across its observed lifetime.
pub open spec fn row(session: SessionModel, ceiling: int, each: int) -> Seq<(SessionModel, int)> {
    Seq::new(each as nat, |i: int| (session, lifetime(session, ceiling) * i / each))
}

/// The kills of every session, session by session.
pub open spec fn grid(catalogue: Seq<SessionModel>, ceiling: int, each: int) -> Seq<(
    SessionModel,
    int,
)>
    decreases catalogue.len(),
{
    if catalogue.len() == 0 {
        Seq::empty()
    } else {
        grid(catalogue.drop_last(), ceiling, each) + row(catalogue.last(), ceiling, each)
    }
}

/// The schedules that make `kills`, numbered from zero.
pub open spec fn schedules_of(kills: Seq<(SessionModel, int)>) -> Seq<SessionSchedule> {
    Seq::new(
        kills.len(),
        |i: int|
            SessionSchedule {
                schedule_id: i as u32,
                service: kills[i].0.service,
                conn_id: kills[i].0.conn_id,
                fault_offset_ns: kills[i].1 as u128,
                payload: Seq::empty(),
            },
    )
}

/// The kills a campaign makes: as many as the budget affords, split evenly
/// across the sessions.
pub open spec fn campaign(catalogue: Seq<SessionModel>, run_cost: nat, total_budget: nat) -> Seq<(
    SessionModel,
    int,
)> {
    if catalogue.len() == 0 {
        Seq::empty()
    } else {
        grid(
            catalogue,
            last_ended(catalogue, run_cost),
            per_session(catalogue.len(), run_cost, total_budget),
        )
    }
}

proof fn lemma_grid_grows(catalogue: Seq<SessionModel>, n: int, ceiling: int, each: int)
    requires
        0 <= n <= catalogue.len(),
    ensures
        grid(catalogue.take(n), ceiling, each).len() <= grid(catalogue, ceiling, each).len(),
    decreases catalogue.len() - n,
{
    if n == catalogue.len() {
        assert(catalogue.take(n) =~= catalogue);
    } else {
        lemma_grid_grows(catalogue, n + 1, ceiling, each);
        assert(catalogue.take(n + 1).drop_last() =~= catalogue.take(n));
    }
}

/// Every session of the catalogue is killed as often as every other, at offsets
/// that start with its opening and stay within its lifetime.
pub proof fn lemma_evenly_spread(session: SessionModel, ceiling: int, each: int, i: int)
    requires
        0 <= i < each,
    ensures
        row(session, ceiling, each).len() == each,
        row(session, ceiling, each)[i].0 == session,
        row(session, ceiling, each)[0].1 == 0,
        0 <= row(session, ceiling, each)[i].1 <= lifetime(session, ceiling),
{
    let span = lifetime(session, ceiling);
    assert(span * 0 / each == 0) by (nonlinear_arith)
        requires
            each > 0,
    ;
    assert(0 <= span * i / each <= span) by (nonlinear_arith)
        requires
            0 <= i < each,
            span >= 0,
    ;
}

/// A grid of kill schedules over the sessions a fault-free run observed.
pub struct SessionDerivedScheduler {
    schedules: VecDeque<Schedule>,
}

impl SessionDerivedScheduler {
    /// The schedules still to come, in order.
    pub closed spec fn upcoming(&self) -> Seq<SessionSchedule> {
        self.schedules.deep_view()
    }

    /// Build one schedule per (session, time-sample) pair. Total count is
    /// `total_budget / run_cost`, split evenly across the catalogue's sessions;
    /// each session's fault offsets are evenly spaced across its observed
    /// lifetime.
    pub fn new(
        catalogue: &[Session],
        run_cost: Duration,
        total_budget: Duration,
    ) -> (r: SessionDerivedScheduler)
        requires
            campaign(catalogue.deep_view(), run_cost@, total_budget@).len() <= u32::MAX,
            per_session(catalogue@.len(), run_cost@, total_budget@) <= usize::MAX,
            forall|i: int|
                0 <= i < catalogue@.len() ==> ended(
                    #[trigger] catalogue.deep_view()[i],
                    run_cost@,
                ) <= u128::MAX,
            forall|i: int|
                0 <= i < catalogue@.len() ==> lifetime(
                    #[trigger] catalogue.deep_view()[i],
                    last_ended(catalogue.deep_view(), run_cost@),
                ) * (per_session(catalogue@.len(), run_cost@, total_budget@) - 1) <= u128::MAX,
        ensures
            r.upcoming() == schedules_of(
                campaign(catalogue.deep_view(), run_cost@, total_budget@),
            ),
    {
        let ghost model = catalogue.deep_view();
        let mut schedules: VecDeque<Schedule> = VecDeque::new();
        assert(schedules.deep_view() =~= schedules_of(Seq::empty()));
        if catalogue.len() == 0 {
            return SessionDerivedScheduler { schedules };
        }
        let budget_ns: u128 = total_budget.as_nanos();
        let spent_ns: u128 = run_cost.as_nanos();
        let cost_ns: u128 = if spent_ns < 1 {
            1
        } else {
            spent_ns
        };
        let affords: u128 = budget_ns / cost_ns;
        let total: u128 = if affords < 1 {
            1
        } else {
            affords
        };
        let share: u128 = total / (catalogue.len() as u128);
        let each: u128 = if share < 1 {
            1
        } else {
            share
        };
        assert(each == per_session(model.len(), run_cost@, total_budget@));
        let mut session_end_ns: u128 = 0;
        assert(model.take(0) =~= Seq::empty());
        for i in 0..catalogue.len()
            invariant
                model == catalogue.deep_view(),
                cost_ns == at_least_one(run_cost@ as int),
                session_end_ns == last_ended(model.take(i as int), run_cost@),
                forall|k: int|
                    0 <= k < model.len() ==> ended(#[trigger] model[k], run_cost@) <= u128::MAX,
        {
            proof {
                assert(model[i as int] == catalogue@[i as int].deep_view());
                assert(model.take(i + 1).drop_last() =~= model.take(i as int));
            }
            let end: u128 = match catalogue[i].closed_ns {
                Some(closed) => closed,
                None => catalogue[i].opened_ns + cost_ns,
            };
            if end > session_end_ns {
                session_end_ns = end;
            }
        }
        assert(model.take(model.len() as int) =~= model);
        let ghost ceiling = session_end_ns as int;
        let ghost all = grid(model, ceiling, each as int);
        let mut next_id: u64 = 0;
        for s in 0..catalogue.len()
            invariant
                model == catalogue.deep_view(),
                ceiling == session_end_ns,
                each >= 1,
                all == grid(model, ceiling, each as int),
                all.len() <= u32::MAX,
                next_id == grid(model.take(s as int), ceiling, each as int).len(),
                schedules.deep_view() == schedules_of(
                    grid(model.take(s as int), ceiling, each as int),
                ),
                forall|k: int|
                    0 <= k < model.len() ==> lifetime(#[trigger] model[k], ceiling) * (each - 1)
                        <= u128::MAX,
        {
            let session = &catalogue[s];
            let ghost here = session.deep_view();
            let ghost before = grid(model.take(s as int), ceiling, each as int);
            let ghost line = row(here, ceiling, each as int);
            proof {
                assert(model[s as int] == here);
                assert(model.take(s + 1).drop_last() =~= model.take(s as int));
                lemma_grid_grows(model, s + 1, ceiling, each as int);
                assert(before + line.take(0) =~= before);
            }
            let end: u128 = match session.closed_ns {
                Some(closed) => closed,
                None => session_end_ns,
            };
            let duration: u128 = end.saturating_sub(session.opened_ns);
            let mut i: u128 = 0;
            while i < each
                invariant
                    i <= each,
                    here == session.deep_view(),
                    line == row(here, ceiling, each as int),
                    duration == lifetime(here, ceiling),
                    duration * (each - 1) <= u128::MAX,
                    before.len() + line.len() <= u32::MAX,
                    next_id == before.len() + i,
                    schedules.deep_view() == schedules_of(before + line.take(i as int)),
                decreases each - i,
            {
                let ghost so_far = schedules.deep_view();
                assert(duration * i <= duration * (each - 1)) by (nonlinear_arith)
                    requires
                        i <= each - 1,
                        duration >= 0,
                ;
                assert(0 <= duration * i) by (nonlinear_arith);
                let offset: u128 = duration * i / each;
                let schedule = Schedule {
                    schedule_id: next_id as u32,
                    session: SessionRef {
                        service: session.service.clone(),
                        conn_id: session.conn_id,
                    },
                    fault_offset_ns: offset,
                    payload: Vec::new(),
                };
                let ghost added = schedule.deep_view();
                schedules.push_back(schedule);
                proof {
                    assert(added.payload =~= Seq::empty());
                    assert(line[i as int] == (here, offset as int));
                    assert(before + line.take(i + 1) =~= (before + line.take(i as int)).push(
                        line[i as int],
                    ));
                    assert(schedules.deep_view() =~= so_far.push(added));
                    assert(so_far.push(added) =~= schedules_of(
                        (before + line.take(i as int)).push(line[i as int]),
                    ));
                }
                next_id += 1;
                i += 1;
            }
            assert(line.take(line.len() as int) =~= line);
        }
        SessionDerivedScheduler { schedules }
    }

    /// The next schedule, or `None` once every one has been handed out.
    pub fn next(&mut self) -> (r: Option<Schedule>)
        ensures
            match r {
                Some(schedule) => {
                    &&& old(self).upcoming().len() > 0
                    &&& schedule.deep_view() == old(self).upcoming()[0]
                    &&& final(self).upcoming() == old(self).upcoming().skip(1)
                },
                None => {
                    &&& old(self).upcoming().len() == 0
                    &&& final(self).upcoming().len() == 0
                },
            },
    {
        let ghost before = self.schedules.deep_view();
        let r = self.schedules.pop_front();
        proof {
            if r is Some {
                assert(self.schedules.deep_view() =~= before.skip(1));
            }
        }
        r
    }
}

} // verus!
