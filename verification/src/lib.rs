//! A small synchronous TCP gateway: a configured IP endpoint, per-call
//! connections with a JSON-tagged request dispatch, and a persistent
//! last-error code behind a query operation.
//!
//! The library holds the verified logic: address validation over the IP
//! literal grammar, request routing, and the error state machine. The
//! network round trips themselves are performed by the caller, one per
//! send, between a `*_begin` and a `*_finish` step.

pub mod gateway;
pub mod ip;
