//! Session identifier generation: cryptographically random 128-bit tokens,
//! never derived from record content. Collision resistance comes from the
//! size of the identifier space; the store contract still rechecks freshness
//! at creation time.
use vstd::prelude::*;

use crate::record::SessionId;

verus! {

/// Relies on tower_sessions_core::session::Id::default, which draws a fresh
/// random 128-bit identifier. Nothing can be promised of a random value, so
/// this has no contract; creation rechecks freshness against the store.
#[verifier::external_body]
fn random_id_value() -> i128 {
    tower_sessions_core::session::Id::default().0
}

/// Draws a fresh random session identifier.
pub fn fresh_id() -> SessionId {
    SessionId(random_id_value())
}

} // verus!
