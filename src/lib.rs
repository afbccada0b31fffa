//! A small HTTP service: a homepage, a health check and an endpoint that
//! waits for a caller-chosen time, with a cooperative shutdown protocol.
//!
//! The decisions of the service stand here, verified: how a `{seconds}`
//! path segment reads as a delay, which route answers a request, and the
//! lifecycle that moves the service from accepting work to draining it.
//! The sockets, timers and signals live with the program that runs it.
pub mod delay;

pub use delay::{delay, specified_delay, Delay, DelayError};
pub mod routes;

pub use routes::{route, Route};
pub mod shutdown;

pub use shutdown::{Admission, Coordinator, Phase, ShutdownError};
