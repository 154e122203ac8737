//! Schedule generation from what a fault-free run observed on the wire.

pub mod burst;
pub mod meaning;
pub mod random;
pub mod session_derived;

use vstd::prelude::*;

use crate::protocol::Direction;

pub use burst::BurstScheduler;

verus! {

/// A schedule the runner hands to a worker to execute. The fault fires once the
/// target service's proxy has observed `fault_packet_index` packets on
/// `direction`, so it lands relative to observed traffic rather than a clock.
#[derive(Debug, PartialEq, Eq)]
pub struct Schedule {
    pub schedule_id: u32,
    pub service: String,
    /// Direction whose packets the anchor counts.
    pub direction: Direction,
    /// Freeze and kill once this many packets have crossed on `direction`.
    pub fault_packet_index: u32,
    pub payload: Vec<u8>,
}

/// What a [`Schedule`] holds.
#[verifier::ext_equal]
pub struct PacketSchedule {
    pub schedule_id: u32,
    pub service: Seq<char>,
    pub direction: Direction,
    pub fault_packet_index: u32,
    pub payload: Seq<u8>,
}

impl DeepView for Schedule {
    type V = PacketSchedule;

    open spec fn deep_view(&self) -> PacketSchedule {
        PacketSchedule {
            schedule_id: self.schedule_id,
            service: self.service@,
            direction: self.direction,
            fault_packet_index: self.fault_packet_index,
            payload: self.payload@,
        }
    }
}

} // verus!
