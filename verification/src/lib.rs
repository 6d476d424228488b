//! Verified core of a safe facade over an OS process-notification service.
//!
//! The daemon itself is reached through foreign calls that live outside this
//! library; everything here is the logic around that boundary: the total
//! mapping from raw status codes to a typed error taxonomy, validation of
//! notification names before they cross the boundary, interpretation of each
//! operation's raw outputs, and a model of the daemon's per-token state
//! machine (suspension stacks, state values, pending deliveries).

pub mod error;
pub mod name;
pub mod outcome;
pub mod registry;
pub mod laws;

pub use error::NotifyError;
