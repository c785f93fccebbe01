//! A flat archive container: named byte blobs laid out behind a fixed header
//! and a table of fixed-size offset records.

pub mod archive;
pub mod bytes;
pub mod error;
pub mod format;
pub mod laws;
pub mod path;

pub use archive::{Archive, ArchiveBuilder, Entry};
pub use error::Error;
pub use path::Path;
