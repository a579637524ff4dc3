//! A storage-agnostic session persistence core: durable, expiring,
//! identifier-addressed session records behind one store contract.
//!
//! The crate holds the pieces every conforming backend must get right —
//! the record codec, collision-safe identifier assignment, expiry-aware
//! read/write semantics, the bulk expiry sweep and the sweeper's control
//! loop, and destination-name validation — each with a verified contract.
//! Engine-specific glue (query text, connections, scheduling) stays outside,
//! behind these interfaces.

pub mod clock;
pub mod codec;
pub mod ident;
pub mod ids;
pub mod record;
pub mod store;
pub mod sweeper;
