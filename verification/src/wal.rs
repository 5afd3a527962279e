//! A write-ahead log: entries get consecutive log sequence numbers (LSNs), are laid out in
//! checksummed records and blocks, and can be replayed from any LSN that is still kept.
use crate::outside::contents;
use bytes::Bytes;
use vstd::prelude::*;

pub mod config;
pub mod control;
pub mod disk;
pub mod flush;
pub mod instance;
pub mod layout;
pub mod names;
pub mod reader;
pub mod replay;
pub mod restore;
pub mod task;
pub mod writing;
pub mod written;

verus! {

/// A log entry, with a LSN (Log Sequence Number) and a payload of bytes.
pub struct LogEntry {
    pub lsn: u64,
    pub payload: Bytes,
}

/// What a [`LogEntry`] says.
#[verifier::ext_equal]
pub struct Entry {
    pub lsn: u64,
    pub payload: Seq<u8>,
}

impl View for LogEntry {
    type V = Entry;

    open spec fn view(&self) -> Entry {
        Entry { lsn: self.lsn, payload: contents(self.payload) }
    }
}

} // verus!
