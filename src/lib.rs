//! Storage adapter that keeps typed key-value entries in an ordered,
//! transactional, embedded byte store.
//!
//! `codec` fixes how keys and values are laid out as bytes; `range` turns what
//! the engine's cursor hands over for a batch of half-open key ranges into typed
//! entries, and holds that output to the requests. The store keeps every entry
//! in one table, the environment's unnamed one: independent keyspaces would
//! need a table each.
use vstd::prelude::*;

pub mod codec;
pub mod range;

verus! {

/// A handle on a leased queue message. The store serves no queue yet, so no
/// handle is ever handed out.
pub struct LmdbMessageHandle;

} // verus!
