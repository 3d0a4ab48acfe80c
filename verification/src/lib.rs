//! Incremental build engine core: a bipartite graph of files and build
//! edges, per-run file state, and the fingerprint computation that decides
//! whether an edge must be re-executed.

pub mod db;
pub mod graph;
pub mod hash;
pub mod trace;
pub mod work;
