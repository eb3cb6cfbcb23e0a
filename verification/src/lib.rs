//! A bidirectional gateway core between a vehicle telemetry link and a
//! publish/subscribe fabric: the message envelope and its text codec, the
//! latest-value distribution hub, the task supervisor's registry, and the
//! decision logic of the four bridge loops. All I/O stays with the callers.

pub mod codec;
pub mod config;
pub mod hub;
pub mod loops;
pub mod msg;
pub mod tasks;
