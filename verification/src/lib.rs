//! Core of a capability-based message bus: resource accounting with fair
//! quotas, intrusive collections, and transactional message delivery.

pub mod acct;
pub mod bus;
pub mod util;

