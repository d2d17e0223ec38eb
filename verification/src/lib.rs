//! Core logic of a localized-content synchronization service: deterministic
//! content fingerprinting, drift validation of translations against source
//! fingerprints, quota-enforced ingestion into a content-addressed store with
//! a reconciling index, and stable server-side sorting of record sets.

use vstd::prelude::*;

pub mod dataset;
pub mod fingerprint;
pub mod ingest;
pub mod packed;
pub mod render;
pub mod store;
pub mod text;
pub mod validate;

verus! {

/// Upper bound on the number of keys a single ingested file may carry.
pub const MAX_KEYS_PER_FILE: usize = 10_000;

/// Upper bound on the total number of keys across one ingestion batch.
pub const MAX_TOTAL_KEYS: usize = 200_000;

/// Upper bound on the byte size of a single ingested file (5 MiB).
pub const MAX_BYTES_PER_FILE: usize = 5 * 1024 * 1024;

/// Upper bound on the total byte size of one ingestion batch (50 MiB).
pub const MAX_TOTAL_BYTES: usize = 50 * 1024 * 1024;

} // verus!
