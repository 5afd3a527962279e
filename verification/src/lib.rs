//! Verified building blocks for databases: a bounded ring buffer, an appender that switches
//! between rotations, and a write-ahead log.
//!
//! Everything here computes on plain values. Files, threads and clocks belong to the program
//! around the library: it performs what the state machines of this crate ask for and hands the
//! outcome back.
use vstd::prelude::*;

pub mod appender;
pub mod btree;
pub mod byteorder;
pub mod io;
pub mod outside;
pub mod ringbuffer;
pub mod text;
pub mod wal;

verus! {

/// `std::io::Error` is carried through unread.
#[verifier::external_type_specification]
#[verifier::external_body]
pub struct ExIoError(std::io::Error);

/// What can go wrong.
#[derive(Debug)]
pub enum Error {
    /// Miscellaneous error.
    MiscError(String),
    /// The storage below failed.
    IoError(std::io::Error),
    /// The path is not a directory.
    NotADirectory(String),
    InvalidArgument(String),
    NotSupported(String),
    CrcCheckFailed,
    /// The ring buffer is full now. The caller may need to try again later.
    RingBufferFull,
    /// The maximum size allowed, and the actual size.
    LogEntryTooLarge(u32, u32),
    CorruptFile(String),
    /// The type that was being decoded, and the details.
    DecodingFailed(String, String),
    /// Some needed function (e.g. some backend) is not running.
    FunctionNotRunning(String),
}

/// An [`Error`] with its texts taken as sequences of characters.
pub enum ErrorView {
    MiscError(Seq<char>),
    IoError(std::io::Error),
    NotADirectory(Seq<char>),
    InvalidArgument(Seq<char>),
    NotSupported(Seq<char>),
    CrcCheckFailed,
    RingBufferFull,
    LogEntryTooLarge(u32, u32),
    CorruptFile(Seq<char>),
    DecodingFailed(Seq<char>, Seq<char>),
    FunctionNotRunning(Seq<char>),
}

impl View for Error {
    type V = ErrorView;

    open spec fn view(&self) -> ErrorView {
        match *self {
            Error::MiscError(s) => ErrorView::MiscError(s@),
            Error::IoError(e) => ErrorView::IoError(e),
            Error::NotADirectory(s) => ErrorView::NotADirectory(s@),
            Error::InvalidArgument(s) => ErrorView::InvalidArgument(s@),
            Error::NotSupported(s) => ErrorView::NotSupported(s@),
            Error::CrcCheckFailed => ErrorView::CrcCheckFailed,
            Error::RingBufferFull => ErrorView::RingBufferFull,
            Error::LogEntryTooLarge(a, b) => ErrorView::LogEntryTooLarge(a, b),
            Error::CorruptFile(s) => ErrorView::CorruptFile(s@),
            Error::DecodingFailed(t, s) => ErrorView::DecodingFailed(t@, s@),
            Error::FunctionNotRunning(s) => ErrorView::FunctionNotRunning(s@),
        }
    }
}

} // verus!
