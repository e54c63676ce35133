//! The integer core of a Leiden community-detection engine.
//!
//! - `adjacency`: the neighbor structure of a network or of its aggregate,
//!   grouped from directed entries: sorted targets, no self-neighbors.
//! - `clustering`: node-to-cluster mappings, compaction and relabelling.
//! - `leiden`: the sanity step for a starting clustering and the starting
//!   clustering of an aggregate network.
//! - `leiden_level`: the decisions of one Leiden iteration after its local
//!   moves: which clusters are refined, how their results merge back, and
//!   how the aggregate's result relabels the level.
//! - `full_network`, `work_queue`, `random_vector`: the bookkeeping of the
//!   local-moving phase.
//! - `identifier`: dense ids for node ids in order of first sight.
//! - `hierarchical`, `hierarchical_driver`: the lineage records of
//!   hierarchical clustering and the decisions of which clusters to split.
//! - `safe_vectors`: bounds-checked access.
//! - `errors`: the failures reported.
use vstd::prelude::*;

pub mod adjacency;
pub mod clustering;
pub mod errors;
pub mod full_network;
pub mod hierarchical;
pub mod hierarchical_driver;
pub mod identifier;
pub mod leiden;
pub mod leiden_level;
pub mod random_vector;
pub mod safe_vectors;
pub mod work_queue;
