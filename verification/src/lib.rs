//! A peer-to-peer profile directory built on an append-only,
//! content-addressed record store.
//!
//! Participants register a nickname bound to their identity, discover each
//! other by case-insensitive nickname prefix, and fetch the current version
//! of any profile even after edits.  The storage substrate offers only
//! immutable records and typed edges between addresses, so every mutable
//! notion here is synthesized from those primitives:
//!
//! - [`index`] derives prefix buckets from nicknames and anchors them at
//!   deterministically derived index nodes;
//! - [`resolver`] walks a chain of superseding updates to find the current
//!   version of a logically mutable entry;
//! - [`directory`] offers the domain operations: register, update, point
//!   lookup, prefix search and full enumeration;
//! - [`signals`] classifies freshly committed records into typed events for
//!   subscribers.

pub mod directory;
pub mod index;
pub mod resolver;
pub mod signals;
pub mod store;
pub mod types;
