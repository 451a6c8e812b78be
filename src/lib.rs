//! A segmented index over a commit graph: commits get dense vertices in topological
//! order, runs of single-parent vertices are summarised as segments, and a tailer keeps
//! the index in step with a bookmark, saving versioned snapshots.

pub mod builder;
pub mod chunks;
pub mod idmap;
pub mod manager;
pub mod options;
pub mod segments;
pub mod tailer;
