//! Per-author line ownership over a snapshot of a file tree: folding per-file
//! attribution maps into one tally, ranking it, and the decisions of the
//! concurrent pipeline (accumulator, workers, retries, cancellation) that
//! drives the fold.
pub mod tally;
pub mod rank;
pub mod accumulator;
pub mod control;
pub mod walk;
