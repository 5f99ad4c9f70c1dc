//! A discrete-time simulator of a serverless compute cluster: functions
//! organized as DAGs of dependent tasks, executed by transient containers
//! placed on resource-limited nodes, with autoscaling policies deciding
//! container counts per function.
//!
//! The per-frame kernel — DAG-aware scheduling and placement, shared-link
//! transfer simulation, equal-share compute allocation with the container
//! lifecycle state machine, and the autoscaling decision layer — is
//! verified: its behaviour is stated in contracts and proved.

pub mod apis;
pub mod compute;
pub mod env;
pub mod es_ai;
pub mod es_hpa;
pub mod model;
pub mod scale;
pub mod schedule;
pub mod sim_schedule;
pub mod transfer;
