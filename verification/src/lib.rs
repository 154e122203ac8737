//! The decisions behind fault-injection campaigns against event-driven fleets.

pub mod amqp;
pub mod bytes;
pub mod deployment;
pub mod dsl;
pub mod engine;
pub mod fault;
pub mod fingerprint;
pub mod fleet;
pub mod ipc;
pub mod journal;
pub mod killing;
pub mod kind;
pub mod learned;
pub mod observer;
pub mod orchestrator;
pub mod plan;
pub mod progress;
pub mod protocol;
pub mod proxy;
pub mod proxy_log;
pub mod scenario;
pub mod schedule;
pub mod scheduler;
pub mod schema;
pub mod sorting;
pub mod spelling;
pub mod text;
pub mod time;
pub mod traffic;
pub mod turns;
pub mod verdict;
pub mod watched;
