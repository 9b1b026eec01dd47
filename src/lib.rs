//! Construct resolution for split-pool combinatorial-indexing reads: barcode whitelists
//! with exact and one-mismatch lookup, the match chain over a forward read, UMI
//! extraction, the canonical construct, and the run statistics.
pub mod barcodes;
pub mod cli;
pub mod config;
pub mod dna;
pub mod parser;
pub mod stats;
pub mod tally;
