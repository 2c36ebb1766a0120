//! Distance-bounded exploration of a follow graph rooted at one account,
//! discovering which reachable accounts restrict the root.
//!
//! The crate holds the verified core: the request-signing scheme, the
//! resumable crawl state machine, and the report walker. Network traffic,
//! checkpoint files and console output live outside, feeding plain values
//! into the state machine and carrying its requests to the remote API.

pub mod encode;
pub mod task;
pub mod twitter;
