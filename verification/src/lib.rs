//! Depth equalization for batches of genomic fragment files.
//!
//! The crate holds the decision and sampling logic of the pipeline: ranking
//! chromosomes, measuring usable depth, excluding outlier-low files by a
//! statistical cutoff, uniform reservoir sampling down to a common target
//! depth, deterministic record ordering, and the per-file task state machine.
//! File and process I/O stay outside; the functions here work on plain values.

pub mod text;

pub mod chrom;

pub mod depth;

pub mod qc;

pub mod sample;

pub mod records;

pub mod pipeline;
