//! Projection of linear-reference alignments onto the named paths of a
//! pangenome graph.
//!
//! The crate builds a path position index from a GFA-style graph text:
//! a table of segment lengths, and for every path an ordered sequence of
//! oriented steps together with a compressed sorted set of per-step start
//! offsets supporting rank/select queries.  A half-open coordinate range on
//! a path resolves to the contiguous slice of steps it overlaps, and an
//! alignment record expressed in reference coordinates is re-emitted as a
//! path-relative traversal line.

pub mod bytes;
pub mod decimal;
pub mod gfa;
pub mod index;
pub mod posset;
pub mod project;
pub mod query;
