//! A fixed-size worker pool, modelled as a verified state machine.
//!
//! The pool owns a fixed set of workers and the sending half of an unbounded
//! FIFO job queue. Producers submit jobs; each queued message is delivered to
//! exactly one worker; teardown sends one shutdown signal per live worker and
//! waits for each to exit. The `pool` module holds the verified protocol; the
//! `http` module holds the verified request-routing and response-building
//! logic that the surrounding server uses.

pub mod http;
pub mod pool;
