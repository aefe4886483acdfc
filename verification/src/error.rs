//! Errors of the library.

use vstd::prelude::*;

verus! {

/// Why a read of the underlying bytes failed.
#[derive(Debug, Clone, Copy, PartialEq, Eq, Structural)]
pub enum IoError {
    /// The bytes are not here yet; the missing range was recorded.
    WouldBlock,
    /// The file ends before the requested bytes do.
    UnexpectedEof,
    /// A seek to a position that no file has.
    InvalidSeek,
}

/// An error of the library.
#[derive(Debug, Clone, PartialEq)]
pub enum Error {
    Io(IoError),
    /// A file that should be a plain fgb is none.
    Fgb(String),
    /// The bytes do not follow the file format.
    Format(String),
    /// No footer magic: not an FGBO file.
    NotFgbo,
    /// The directory does not match the checksum in the footer.
    CrcMismatch,
    InvalidInput(String),
    /// The header announces an index whose size cannot be computed: a node
    /// size of one, or a size that does not fit the address space.
    IndexSize,
}

pub type Result<T> = core::result::Result<T, Error>;

/// What an [`Error`] says, with its text as a sequence of characters.
pub enum Fault {
    Io(IoError),
    Fgb(Seq<char>),
    Format(Seq<char>),
    NotFgbo,
    CrcMismatch,
    InvalidInput(Seq<char>),
    IndexSize,
}

impl View for Error {
    type V = Fault;

    open spec fn view(&self) -> Fault {
        match self {
            Error::Io(e) => Fault::Io(*e),
            Error::Fgb(m) => Fault::Fgb(m@),
            Error::Format(m) => Fault::Format(m@),
            Error::NotFgbo => Fault::NotFgbo,
            Error::CrcMismatch => Fault::CrcMismatch,
            Error::InvalidInput(m) => Fault::InvalidInput(m@),
            Error::IndexSize => Fault::IndexSize,
        }
    }
}

impl Error {
    /// A [`Error::Fgb`] with the given text.
    pub fn fgb(text: &str) -> (e: Error)
        ensures
            e@ == Fault::Fgb(text@),
    {
        Error::Fgb(text.to_owned())
    }

    /// A [`Error::Format`] with the given text.
    pub fn format(text: &str) -> (e: Error)
        ensures
            e@ == Fault::Format(text@),
    {
        Error::Format(text.to_owned())
    }

    /// A [`Error::InvalidInput`] with the given text.
    pub fn invalid_input(text: &str) -> (e: Error)
        ensures
            e@ == Fault::InvalidInput(text@),
    {
        Error::InvalidInput(text.to_owned())
    }

    /// The text shown to a user.
    pub fn message(&self) -> (text: String)
        ensures
            text@ == fault_text(self@),
    {
        match self {
            Error::Io(IoError::WouldBlock) => "I/O error: range not cached yet".to_owned(),
            Error::Io(IoError::UnexpectedEof) => "I/O error: failed to fill whole buffer".to_owned(),
            Error::Io(IoError::InvalidSeek) => "I/O error: seek before start".to_owned(),
            Error::Fgb(m) => {
                let mut text: String = "FlatGeobuf error: ".to_owned();
                text.append(m.as_str());
                text
            },
            Error::Format(m) => {
                let mut text: String = "invalid FGBO format: ".to_owned();
                text.append(m.as_str());
                text
            },
            Error::NotFgbo => "not an FGBO file (no footer magic)".to_owned(),
            Error::CrcMismatch => "directory CRC mismatch".to_owned(),
            Error::InvalidInput(m) => {
                let mut text: String = "invalid input: ".to_owned();
                text.append(m.as_str());
                text
            },
            Error::IndexSize => "spatial index size out of range".to_owned(),
        }
    }
}

/// The text that stands for a fault.
pub open spec fn fault_text(f: Fault) -> Seq<char> {
    match f {
        Fault::Io(IoError::WouldBlock) => "I/O error: range not cached yet"@,
        Fault::Io(IoError::UnexpectedEof) => "I/O error: failed to fill whole buffer"@,
        Fault::Io(IoError::InvalidSeek) => "I/O error: seek before start"@,
        Fault::Fgb(m) => "FlatGeobuf error: "@ + m,
        Fault::Format(m) => "invalid FGBO format: "@ + m,
        Fault::NotFgbo => "not an FGBO file (no footer magic)"@,
        Fault::CrcMismatch => "directory CRC mismatch"@,
        Fault::InvalidInput(m) => "invalid input: "@ + m,
        Fault::IndexSize => "spatial index size out of range"@,
    }
}

} // verus!
