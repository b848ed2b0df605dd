//! A score ledger: at most one record per player identity, each holding a
//! monotonically non-decreasing high score.
//!
//! The ledger offers two operations. `create` allocates the record for an
//! identity, owned by that identity and starting at score zero; it fails if
//! the record already exists. `submit` offers a candidate score for an
//! identity's record on behalf of an authenticated caller: the record keeps
//! the greater of its current score and the candidate, and the call fails if
//! the record is missing or the caller is not its owner.
//!
//! Authentication, persistence and atomicity are the business of whatever
//! host environment drives the ledger; this crate states and proves what the
//! two operations do to the stored records.

pub mod laws;
pub mod ledger;
pub mod player;
