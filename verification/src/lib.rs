//! Composable transformations over tabular data: a pipeline compiler with a
//! fixed stage order, materialized table operations (project, sort, dedup,
//! slice, filter, gather), a bounded-memory windowed random sampler, a
//! statistics aggregator over exact integer aggregates, and data-quality
//! (lint) checks, each stated and verified over a value-level model of the
//! table semantics. File I/O, terminal output and the full predicate
//! dialect belong to the surrounding shell; randomness enters through one
//! narrow trusted draw.

pub mod args;
pub mod command;
pub mod delimited;
pub mod error;
pub mod formats;
pub mod laws;
pub mod lint;
pub mod options;
pub mod pipeline;
pub mod sample;
pub mod sorting;
pub mod stats;
pub mod table;

pub use error::ToolError;
pub use options::Options;
