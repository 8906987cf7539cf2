//! Verified FASTA sequence statistics.
//!
//! The crate parses FASTA text into records, computes aggregate
//! length/composition statistics over them (total length, GC and N counts,
//! largest and shortest contig, N25/N50/N75 quantiles, a length histogram),
//! and renders the human-readable report, the semicolon-separated summary
//! row, and the command-line configuration. Everything here is verified;
//! the thin binary around it does the file and console I/O.

pub mod cli;
pub mod csv;
pub mod fasta;
pub mod numfmt;
pub mod records;
pub mod report;
pub mod stats;
