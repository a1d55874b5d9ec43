//! Incremental decoder for a DICOM-style stream of tagged binary attributes.
//!
//! The stream is a flat sequence of records. Each record carries a tag, a
//! value-representation code (under explicit encoding), a length field of
//! variable width, and a payload. Chunks of bytes may arrive with arbitrary
//! boundaries; the parsers here reconstruct record boundaries regardless of
//! where a chunk ends, suspending and resuming without re-parsing.

pub mod attribute;
pub mod byte_parser;
pub mod dataset;
pub mod encoding;
pub mod parser;
pub mod tag;
