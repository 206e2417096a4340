use vstd::prelude::*;

verus! {

/// Why a list of records could not be read.
#[derive(Debug)]
pub enum Error {
    /// There is no record after the header.
    NoEntries,
    /// A record is not a fields line and a metadata line, or its fields
    /// line has too few fields.
    InvalidEntryFormat,
    /// The index field of a record is not a non-negative integer.
    InvalidIndexFormat,
    /// A timecode is malformed or out of range; it carries the timecode.
    InvalidTimestamp(String),
}

/// An `Error` with its text as a sequence of characters.
pub enum ErrorModel {
    NoEntries,
    InvalidEntryFormat,
    InvalidIndexFormat,
    InvalidTimestamp(Seq<char>),
}

impl View for Error {
    type V = ErrorModel;

    open spec fn view(&self) -> ErrorModel {
        match self {
            Error::NoEntries => ErrorModel::NoEntries,
            Error::InvalidEntryFormat => ErrorModel::InvalidEntryFormat,
            Error::InvalidIndexFormat => ErrorModel::InvalidIndexFormat,
            Error::InvalidTimestamp(v) => ErrorModel::InvalidTimestamp(v@),
        }
    }
}

/// The message that describes an error to a reader.
pub open spec fn message_of(e: ErrorModel) -> Seq<char> {
    match e {
        ErrorModel::NoEntries => "No entries"@,
        ErrorModel::InvalidEntryFormat => "Invalid entry format"@,
        ErrorModel::InvalidIndexFormat => "Invalid index format"@,
        ErrorModel::InvalidTimestamp(v) => "Invalid timestamp: "@ + v,
    }
}

impl Error {
    /// The message that describes this error to a reader.
    pub fn message(&self) -> (r: String)
        ensures
            r@ == message_of(self@),
    {
        match self {
            Error::NoEntries => String::from_str("No entries"),
            Error::InvalidEntryFormat => String::from_str("Invalid entry format"),
            Error::InvalidIndexFormat => String::from_str("Invalid index format"),
            Error::InvalidTimestamp(v) => String::from_str("Invalid timestamp: ").concat(v.as_str()),
        }
    }
}

} // verus!
