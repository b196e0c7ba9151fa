//! Core logic of an anonymous message relay.
//!
//! User messages are copied into a single operator conversation; the relay
//! remembers, for each copy, where the original came from, so that an
//! operator reply to a copy can be routed back to the original sender.
//!
//! This crate holds the verified core: the origin descriptor and its wire
//! codec, the link store that maps copy identifiers to encoded descriptors,
//! the router that classifies inbound events, and the two relay flows
//! (forward and return). Transport and store I/O live outside the crate and
//! hand plain values in.

pub mod error;
pub mod link;
pub mod codec;
pub mod store;
pub mod router;
pub mod flows;
pub mod laws;
