//! Duplicate-file grouping engine.
//!
//! The library finds sets of byte-identical files: paths are filtered,
//! hashed with a fast 128-bit digest, grouped by a composite fingerprint,
//! byte-wise verified, ordered, and finally handed to a set consumer.
//! All file and console I/O stays with the caller; the library holds the
//! decisions and the data they act on.

pub mod error_handling;
pub mod file_filters;
pub mod file_meta;
pub mod file_set_refiner;
pub mod grouping;
pub mod hashing;
pub mod input_source;
pub mod logger;
pub mod parse_file_size;
pub mod parse_number;
pub mod plan;
pub mod set_consumer;
pub mod set_order;
pub mod sorting;
pub mod util;

pub use error_handling::AlreadyReportedError;
pub use error_handling::Recoverable;
