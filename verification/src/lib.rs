//! A one-way bridge from a partitioned message log to an HTTP webhook.
//!
//! The crate holds the decisions of the bridge: how a message becomes a
//! request body, how a response is classified, when a failed delivery is
//! retried, which offset of a partition may be committed, and how one
//! partition moves between fetching, sending, waiting and draining. The
//! broker client, the HTTP client and the timers live with the caller, which
//! feeds events to the state machines here and performs the actions they ask
//! for.

pub mod base64;
pub mod commit;
pub mod config;
pub mod envelope;
pub mod error;
pub mod outcome;
pub mod pipeline;
pub mod record;
pub mod retry;
pub mod supervisor;
pub mod text;
pub mod tracker;
