//! A scheduler of empty schedules.

use vstd::prelude::*;

verus! {

/// A schedule with nothing in it but its id.
#[derive(Debug, PartialEq, Eq)]
pub struct Schedule {
    pub schedule_id: u32,
    pub payload: Vec<u8>,
}

/// Yields a fixed number of empty schedules with incrementing ids.
pub struct RandomScheduler {
    remaining: u32,
    next_id: u32,
}

impl RandomScheduler {
    #[verifier::type_invariant]
    closed spec fn numbered(self) -> bool {
        self.next_id + self.remaining <= u32::MAX
    }

    /// The ids still to come.
    pub closed spec fn upcoming(&self) -> Seq<u32> {
        Seq::new(self.remaining as nat, |i: int| (self.next_id + i) as u32)
    }

    /// A scheduler of `count` schedules, numbered from zero.
    pub fn new(count: u32) -> (r: RandomScheduler)
        ensures
            r.upcoming() == Seq::new(count as nat, |i: int| i as u32),
    {
        let r = RandomScheduler { remaining: count, next_id: 0 };
        assert(r.upcoming() =~= Seq::new(count as nat, |i: int| i as u32));
        r
    }

    /// The next schedule, or `None` once every one has been handed out.
    pub fn next(&mut self) -> (r: Option<Schedule>)
        ensures
            match r {
                Some(schedule) => {
                    &&& old(self).upcoming().len() > 0
                    &&& schedule.schedule_id == old(self).upcoming()[0]
                    &&& schedule.payload@.len() == 0
                    &&& final(self).upcoming() == old(self).upcoming().skip(1)
                },
                None => {
                    &&& old(self).upcoming().len() == 0
                    &&& *final(self) == *old(self)
                },
            },
    {
        proof {
            use_type_invariant(&*self);
        }
        if self.remaining == 0 {
            return None;
        }
        let ghost before = self.upcoming();
        let schedule_id = self.next_id;
        *self = RandomScheduler { remaining: self.remaining - 1, next_id: schedule_id + 1 };
        assert(self.upcoming() =~= before.skip(1));
        Some(Schedule { schedule_id, payload: Vec::new() })
    }
}

} // verus!
