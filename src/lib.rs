//! Outbound fund tracing over a ledger's transaction history.
//!
//! Starting from a set of seed addresses, every receiver of their recent
//! transfers is collected, then (up to a depth limit) the search repeats from
//! each newly discovered address. Each round yields a report of receivers and
//! the plain amounts of the native asset that they received.
pub mod address;
pub mod classify;
pub mod format;
pub mod ledger;
pub mod model;
pub mod round;
pub mod tracer;
