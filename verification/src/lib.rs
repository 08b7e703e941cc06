//! Evaluation core of an in-memory triple store: ordered fact sets with
//! seekable cursors, the leapfrog join over them, and the three-stage
//! (`stable` / `delta` / `backlog`) semi-naive maintenance of each predicate.

pub mod fact;
pub mod ground;
pub mod cursor;
pub mod join;
pub mod atoms;
pub mod graph;
pub mod term;
