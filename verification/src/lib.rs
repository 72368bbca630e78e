//! Regular expressions over memory-model relation labels, computed from an
//! event graph by state elimination.
//!
//! An event graph is a finite directed multigraph whose nodes are memory
//! events and whose edges carry relation labels (program order, read-from,
//! fences, dependencies, coherence order, from-read).  The library removes
//! the interior nodes one at a time, rewiring each removed node's incoming
//! and outgoing edges into direct edges between its neighbours, until only
//! the start and end events remain; the labels of the surviving edges are
//! folded into one regular expression describing every labelled path from
//! start to end.

pub mod ast;
pub mod graph;
pub mod parse;
pub mod reduce;
