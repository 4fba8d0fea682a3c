//! A typed key/value variable store with owner-gated mutation and
//! cursor-based enumeration.
//!
//! A small set of owners may register, update and remove named values of
//! several primitive kinds; any caller may look values up individually, in
//! batches, or as a paginated listing in ascending key order. The host that
//! embeds the store supplies address-format validation and transports; the
//! store itself is a plain value that every handler threads through.

pub mod codec;
pub mod execute;
pub mod msgs;
pub mod owners;
pub mod provider;
pub mod query;
pub mod response;
pub mod state;
pub mod strings;
pub mod values;
