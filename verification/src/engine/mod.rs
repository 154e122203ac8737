//! Running a campaign: what to schedule, and what each run does.

pub mod event_bus;
pub mod orchestrator;
pub mod scheduler;
