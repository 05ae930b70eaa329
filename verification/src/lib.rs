//! Deterministic, load-balanced spatial sharding over a sphere.
//!
//! The sphere is covered by fixed-granularity cells taken from the S2
//! indexing scheme.  The build pipeline enumerates every cell at a chosen
//! storage level by flood-filling the neighbor graph, scores each cell
//! against a pluggable load heuristic, and partitions the ordered cell
//! sequence into contiguous shards, searching for the shard count whose
//! per-shard loads have the smallest population standard deviation.  A
//! searcher built from the resulting collection answers "which shard owns
//! this location" queries by range containment.

use vstd::prelude::*;
use vstd::string::StringExecFns;

pub mod cell_list;
pub mod geoshard;
pub mod wide;
pub mod spatial;
pub mod users;

verus! {

/// A typed build failure.  Configuration errors and build-invariant
/// violations abort the pipeline; no partial shard collection is returned.
#[derive(Clone, Copy, Debug, PartialEq, Eq, Structural)]
pub enum GeoshardError {
    /// Configuration: shard-count bounds are non-positive or the minimum
    /// exceeds the maximum.
    InvalidShardBounds,
    /// Configuration: the storage level is finer than the finest cell level.
    InvalidStorageLevel,
    /// Build invariant: the partitioner received an empty scored set.
    EmptyScoredSet,
    /// Build invariant: a user mapped to a cell absent from the enumerated
    /// set, which indicates an enumerator/seed mismatch.
    UserCellNotFound,
    /// Build invariant: a cell's load counter cannot grow any further.
    ScoreOverflow,
    /// Build invariant: the scored set handed back by the scorer is not
    /// well formed (unsorted, duplicated, negative, or its total load
    /// does not fit the load counter).
    ScoredSetInvalid,
    /// Build invariant: fewer cells were enumerated than the minimum
    /// shard count asks for, so no partition can respect the bounds.
    TooFewCells,
}

impl GeoshardError {
    /// Names the invariant that failed, for diagnostics.
    pub fn describe(&self) -> (r: String)
        ensures
            r@.len() > 0,
    {
        let s = match self {
            GeoshardError::InvalidShardBounds => "invalid shard-count bounds",
            GeoshardError::InvalidStorageLevel => "invalid storage level",
            GeoshardError::EmptyScoredSet => "partitioner received an empty scored set",
            GeoshardError::UserCellNotFound => "cell for user not found in enumerated set",
            GeoshardError::ScoreOverflow => "cell load counter overflowed",
            GeoshardError::ScoredSetInvalid => "scored cell set is not well formed",
            GeoshardError::TooFewCells => "fewer cells than the minimum shard count",
        };
        proof {
            reveal_strlit("invalid shard-count bounds");
            reveal_strlit("invalid storage level");
            reveal_strlit("partitioner received an empty scored set");
            reveal_strlit("cell for user not found in enumerated set");
            reveal_strlit("cell load counter overflowed");
            reveal_strlit("scored cell set is not well formed");
            reveal_strlit("fewer cells than the minimum shard count");
        }
        String::from_str(s)
    }
}

} // verus!
