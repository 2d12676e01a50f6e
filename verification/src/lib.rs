//! A minimal cooperative task runtime: suspendable computations driven to
//! completion by a notification-based scheduler, with a two-lane priority
//! dispatch layer and one-shot join handles for result retrieval.
pub mod basic;
pub mod channel;
pub mod data;
pub mod executor;
pub mod futures;
pub mod handle;
pub mod runtime;
