//! The ways in which a run can fail.

use vstd::prelude::*;

verus! {

/// The closed set of failures a run can end in.
///
/// Only [`Error::ParseFailure`] is recoverable: the offending line is
/// dropped. Every other kind ends the run.
#[derive(Clone, Copy, Debug, PartialEq, Eq, Structural)]
pub enum Error {
    /// A line is not a well-formed corpus record.
    ParseFailure,
    /// A partition could not be opened or read.
    PartitionUnreadable,
    /// A partition could not be downloaded or decompressed.
    AcquisitionFailed,
    /// The partition manifest or the output could not be written or read back.
    SerializationFailed,
    /// The match counts of one word add up to more than a count can hold.
    CountOverflow,
}

impl Error {
    /// Whether this failure ends the whole run.
    pub open spec fn fatal(self) -> bool {
        self != Error::ParseFailure
    }

    /// The text shown to the user for this failure.
    pub open spec fn text(self) -> Seq<char> {
        match self {
            Error::ParseFailure => "malformed corpus line"@,
            Error::PartitionUnreadable => "partition cannot be read"@,
            Error::AcquisitionFailed => "partition cannot be acquired"@,
            Error::SerializationFailed => "serialization failed"@,
            Error::CountOverflow => "match count too large"@,
        }
    }

    /// Tells whether this failure ends the whole run.
    pub fn is_fatal(&self) -> (fatal: bool)
        ensures
            fatal == self.fatal(),
    {
        match self {
            Error::ParseFailure => false,
            _ => true,
        }
    }

    /// Renders this failure for the console.
    pub fn message(&self) -> (message: String)
        ensures
            message@ == self.text(),
    {
        match self {
            Error::ParseFailure => "malformed corpus line".to_owned(),
            Error::PartitionUnreadable => "partition cannot be read".to_owned(),
            Error::AcquisitionFailed => "partition cannot be acquired".to_owned(),
            Error::SerializationFailed => "serialization failed".to_owned(),
            Error::CountOverflow => "match count too large".to_owned(),
        }
    }
}

} // verus!
