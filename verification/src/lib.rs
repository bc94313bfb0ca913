//! samesame: finds repeated fragments of code across files.
//!
//! The library holds the verified core: per-line hashing of file contents,
//! rolling window fingerprints, consolidation of pairwise matches into
//! duplicate groups, and the text and JSON report models.
pub mod types;
pub mod rolling_hash;
pub mod union_find;
pub mod paths;
pub mod grouping;
pub mod text;
pub mod output;
pub mod file;
pub mod error;
pub mod discovery;
pub mod filter;
pub mod detection;
