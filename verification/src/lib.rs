//! Resolution of "space" container rooms in a federated chat protocol.
//!
//! A space is a room that groups child rooms and nested sub-spaces through
//! explicit parent/child relationship state.  This crate derives, from a
//! snapshot of locally synced room state, the ordered set of joined spaces,
//! and resolves the ordered list of a space's direct children by driving a
//! paginated hierarchy query as a state machine: pages are merged with
//! first-occurrence-wins deduplication, reconciled against locally known
//! relationship state (local tombstones suppress stale server data), and
//! ordered by sort key, creation timestamp and room id.
//!
//! Network transport and the event-sync engine are external collaborators:
//! the caller performs each request described by a [`resolver::FetchRequest`]
//! and feeds the outcome back as a [`resolver::ResolveEvent`].

use vstd::prelude::*;

pub mod room_id;
pub mod graph;
pub mod resolver;
pub mod coalesce;
pub mod service;

verus! {

/// Revision identifier of the underlying SDK build; empty when none is
/// embedded into the build.
pub fn sdk_git_sha() -> (r: String)
    ensures
        r@.len() == 0,
{
    proof {
        reveal_strlit("");
    }
    "".to_string()
}

} // verus!
