//! Deployment plugins: bring a fleet replica up, wait for readiness, tear it
//! down.

pub mod containers;
pub mod docker;
