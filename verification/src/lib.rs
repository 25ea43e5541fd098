//! Verification engine for checking local files against their remote sources.
//!
//! The crate holds the decision logic: how a name is derived from a path or
//! URL, how a source of URLs is consulted and consumed, how the ledger of
//! earlier outcomes is replayed, how streamed content is compared with a local
//! file, and how a probe of an unclaimed remote target is classified.

pub mod batch;
pub mod compare;
pub mod ledger;
pub mod name;
pub mod outcome;
pub mod probe;
pub mod source;
pub mod text;
