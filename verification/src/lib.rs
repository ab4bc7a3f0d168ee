//! A concurrent TCP port-reachability prober's verified core.
//!
//! Given a host and a set of port specifications, the scan decides for each
//! port whether a TCP connection succeeds (`Open`), fails (`Closed`), or runs
//! out of time (`TimedOut`), using bounded parallelism and a per-port retry
//! budget, and can attach listener metadata from an external inspection
//! command to ports found open.
//!
//! The crate holds the decision logic, each piece with a proved contract:
//! - [`cli`] — the port-specification normalizer (parsing, range expansion)
//!   and the scan request;
//! - [`scan`] — the per-port record, its terminal status, duplicate removal,
//!   and table formatting;
//! - [`probe`] — the retry state machine that fixes a port's status from its
//!   attempt outcomes;
//! - [`sched`] — the scheduler's bookkeeping that caps in-flight probes and
//!   accounts for every requested port exactly once;
//! - [`inspect`] — the classification of inspection outcomes.
//!
//! The host environment performs the connect calls, timers, and process
//! spawning, and feeds their outcomes to these machines as plain values.

pub mod cli;
pub mod inspect;
pub mod probe;
pub mod scan;
pub mod sched;
