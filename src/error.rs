use vstd::prelude::*;

verus! {

/// Every way in which building a path label or reading an archive can fail.
#[derive(Debug)]
pub enum Error {
    /// A path label holds a character outside the legal set.
    IllegalPath { path: String },
    /// The buffer is too short to hold a header.
    HeaderReadError,
    /// The header does not start with the archive signature.
    WrongMagicValue,
    /// The mapping record at `index` runs past the end of the buffer, or its
    /// offsets are inconsistent with the rest of the table.
    MappingReadError { index: usize },
    /// The path bytes of entry `index` are out of bounds or not a legal label.
    PathReadError { index: usize },
    /// The contents of an entry could not be read from their source.
    SourceReadError,
}

impl Error {
    /// `IllegalPath` carrying the text `s`.
    pub open spec fn is_illegal_path(self, s: Seq<char>) -> bool {
        match self {
            Error::IllegalPath { path } => path@ == s,
            _ => false,
        }
    }

    /// A one-line human-readable description of the error.
    pub fn message(&self) -> String {
        match self {
            Error::IllegalPath { .. } => "Illegal path was provided".to_owned(),
            Error::HeaderReadError => "Couldn't read the archive's header".to_owned(),
            Error::WrongMagicValue => "Wrong magic value in the archive's header".to_owned(),
            Error::MappingReadError { .. } => "Couldn't read an entry's mapping".to_owned(),
            Error::PathReadError { .. } => "Couldn't read an entry's path".to_owned(),
            Error::SourceReadError => "Couldn't read an entry's contents".to_owned(),
        }
    }
}

} // verus!
