//! Projection of graph-alignment records onto a pangenome graph: per-node and
//! per-edge coverage accumulation.
//!
//! The crate parses GFA segment records into a node-length index, decodes the
//! path and target-interval fields of GAF alignment records, attributes the
//! covered length of each traversed node (with partial coverage at the walk's
//! first and last node), and folds the resulting node and edge events into
//! coverage accumulators.
//!
//! - [`scan`]: byte-level primitives — decimal integers, field splitting,
//!   trimming.
//! - [`graph`]: the segment parser and the node-length index.
//! - [`walk`]: the alignment-record decoder.
//! - [`allocate`]: the coverage allocator, the core arithmetic.
//! - [`accum`]: unweighted node totals and directed-edge counts, with the
//!   strict edge-validity mode.
//! - [`weighted`]: the query-group occurrence table and the exact weighted
//!   node totals.

use vstd::prelude::*;

pub mod scan;
pub mod walk;
pub mod graph;
pub mod allocate;
pub mod accum;
pub mod weighted;

verus! {

/// Errors surfaced by the coverage pipeline. None of them is recovered from:
/// a single bad record invalidates the whole run.
#[derive(Clone, Copy, Debug, PartialEq, Eq, Structural)]
pub enum CovError {
    /// A walk token of a path field is not a valid node-id integer.
    MalformedPath,
    /// A target-interval bound is not a valid integer, or the declared end
    /// precedes the declared start.
    MalformedInterval,
    /// The declared target start exceeds the first traversed node's length.
    IntervalOutOfRange,
    /// Strict-interval mode only: the declared interval is shorter than the
    /// length already attributed when the walk's last node is reached.
    IntervalTooShort,
    /// Strict edge-validation mode only: a walk implied an edge that the
    /// graph's declared link set does not contain.
    UnknownEdge { from: u64, to: u64 },
    /// A graph segment record carries an id that is not a valid integer.
    MalformedGraph,
}

} // verus!
