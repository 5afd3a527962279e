//! The reading side of the log: records are taken out of blocks and put together to entries.
//!
//! [`LogSeek`] finds the block that a replay starts in, and [`LogIterator`] goes on from there.
//! Both say what to read next, and are told what was read.
use super::disk::{
    decode_header, decode_record, record_consumed, DiskBlockHeader, DiskLogEntry, Fullness, Record,
    BLOCK_HEAD_SIZE, LOG_HEAD_SIZE,
};
use super::{Entry, LogEntry};
use crate::byteorder::{lemma_u64_zero, u32_at, u64_at, ByteOrder};
use crate::outside::{
    bytes_advance, bytes_as_slice, bytes_from_vec, bytes_len, contents, crc32c,
};
use crate::text::texts;
use crate::{Error, ErrorView};
use bytes::Bytes;
use std::collections::VecDeque;
use vstd::prelude::*;
use vstd::slice::slice_subrange;

verus! {

/// What has been read: entries, and the first part of one that goes on in the next block.
#[verifier::ext_equal]
pub struct ReadState {
    pub entries: Seq<Entry>,
    pub mid: Option<(u64, Seq<u8>)>,
}

/// A file that does not hold what it should.
pub open spec fn corrupt(details: Seq<char>) -> ErrorView {
    ErrorView::CorruptFile(details)
}

/// The state after one more record, or why it does not belong here.
pub open spec fn absorb(st: ReadState, rec: Record) -> Result<ReadState, ErrorView> {
    match rec.fullness {
        Fullness::Full => Ok(
            ReadState {
                entries: st.entries.push(Entry { lsn: rec.lsn, payload: rec.payload }),
                ..st
            },
        ),
        Fullness::First => if st.mid is Some {
            Err(corrupt("Partial log entry not finished"@))
        } else {
            Ok(ReadState { mid: Some((rec.lsn, rec.payload)), ..st })
        },
        _ => match st.mid {
            None => Err(corrupt("Unexpected paritial log entry"@)),
            Some((lsn, part)) => if lsn != rec.lsn {
                Err(corrupt("Unexpected paritial log lsn"@))
            } else if rec.fullness == Fullness::Last {
                Ok(
                    ReadState {
                        entries: st.entries.push(Entry { lsn, payload: part + rec.payload }),
                        mid: None,
                    },
                )
            } else {
                Ok(ReadState { mid: Some((lsn, part + rec.payload)), ..st })
            },
        },
    }
}

/// Whether no record follows in a block: there is no room for one, or there are zeros where its
/// checksum and its length would be, unless it is an empty one whose checksum is zero.
pub open spec fn records_end(o: ByteOrder, rest: Seq<u8>) -> bool {
    rest.len() < LOG_HEAD_SIZE || (u64_at(o, rest, 0) == 0 && (u64_at(o, rest, 8) == 0
        || decode_record(o, rest) is Err))
}

/// The state after the records that follow each other in `src`, and what stopped it early.
pub open spec fn parse_records(o: ByteOrder, st: ReadState, src: Seq<u8>) -> (
    ReadState,
    Option<ErrorView>,
)
    decreases src.len(),
{
    match decode_record(o, src) {
        Err(e) => (st, Some(e)),
        Ok(rec) => match absorb(st, rec) {
            Err(e) => (st, Some(e)),
            Ok(next) => {
                let rest = src.skip(record_consumed(o, src));
                if records_end(o, rest) {
                    (next, None)
                } else {
                    parse_records(o, next, rest)
                }
            },
        },
    }
}

/// The state after one more record of the block that a replay from `start_lsn` starts in.
pub open spec fn absorb_first(st: ReadState, rec: Record) -> Result<ReadState, ErrorView> {
    match rec.fullness {
        Fullness::Full => absorb(st, rec),
        Fullness::First => {
            let part = match st.mid {
                Some((_, part)) => part,
                None => Seq::empty(),
            };
            Ok(ReadState { mid: Some((rec.lsn, part + rec.payload)), ..st })
        },
        _ => Err(corrupt("Unexpected paritial log entry"@)),
    }
}

/// The state after the records from `start_lsn` on in the block that a replay starts in, and what
/// stopped it early.
pub open spec fn parse_from(o: ByteOrder, start_lsn: u64, st: ReadState, src: Seq<u8>) -> (
    ReadState,
    Option<ErrorView>,
)
    decreases src.len(),
{
    match decode_record(o, src) {
        Err(e) => (st, Some(e)),
        Ok(rec) => {
            let rest = src.skip(record_consumed(o, src));
            if rec.lsn < start_lsn {
                parse_from(o, start_lsn, st, rest)
            } else {
                match absorb_first(st, rec) {
                    Err(e) => (st, Some(e)),
                    Ok(next) => if records_end(o, rest) {
                        (next, None)
                    } else {
                        parse_from(o, start_lsn, next, rest)
                    },
                }
            }
        },
    }
}

/// The bytes of several handles, one after the other.
pub open spec fn joined(bufs: Seq<Bytes>) -> Seq<u8>
    decreases bufs.len(),
{
    if bufs.len() == 0 {
        Seq::empty()
    } else {
        joined(bufs.drop_last()) + contents(bufs.last())
    }
}

/// What several entries say.
pub open spec fn entries(v: Seq<LogEntry>) -> Seq<Entry> {
    v.map_values(|e: LogEntry| e@)
}

/// What a [`LogIterator`] was told.
pub enum ReadEvent {
    /// Nothing yet.
    Begin,
    /// The next block of the current rotation.
    Block(Bytes),
    /// There is no further block in the current rotation.
    Eof,
    /// The rotation that was asked for is open and has that size.
    Opened(u64),
    /// Something failed.
    Failed(Error),
}

/// What a [`LogIterator`] asks for.
pub enum ReadAction {
    /// Read the next block of the current rotation.
    ReadBlock,
    /// Open the rotation of that name. When a block is asked for next, it is the current one.
    OpenRot(String),
    /// Nothing: at least one entry was read, or none is left.
    Done(bool),
    /// Nothing: reading failed.
    Fail(Error),
}

/// What a [`ReadEvent`] says.
pub enum ReadSeen {
    Begin,
    Block(Seq<u8>),
    Eof,
    Opened(u64),
    Failed(ErrorView),
}

/// What a [`ReadAction`] says.
pub enum ReadWants {
    ReadBlock,
    OpenRot(Seq<char>),
    Done(bool),
    Fail(ErrorView),
}

impl View for ReadEvent {
    type V = ReadSeen;

    open spec fn view(&self) -> ReadSeen {
        match *self {
            ReadEvent::Begin => ReadSeen::Begin,
            ReadEvent::Block(b) => ReadSeen::Block(contents(b)),
            ReadEvent::Eof => ReadSeen::Eof,
            ReadEvent::Opened(n) => ReadSeen::Opened(n),
            ReadEvent::Failed(e) => ReadSeen::Failed(e@),
        }
    }
}

impl View for ReadAction {
    type V = ReadWants;

    open spec fn view(&self) -> ReadWants {
        match *self {
            ReadAction::ReadBlock => ReadWants::ReadBlock,
            ReadAction::OpenRot(n) => ReadWants::OpenRot(n@),
            ReadAction::Done(b) => ReadWants::Done(b),
            ReadAction::Fail(e) => ReadWants::Fail(e@),
        }
    }
}

/// The state of a [`LogIterator`].
#[verifier::ext_equal]
pub struct IterState {
    pub order: ByteOrder,
    pub block_size: int,
    pub read: ReadState,
    pub next_lsn: u64,
    /// The rotations that follow the current one.
    pub rot_names: Seq<Seq<char>>,
}

/// The size that a rotation must not have.
pub open spec fn odd_size() -> ErrorView {
    corrupt("File size is not multiple of block size"@)
}

impl IterState {
    /// The state after a block was read.
    pub open spec fn with_block(self, block: Seq<u8>) -> IterState {
        IterState {
            read: parse_records(self.order, self.read, block.skip(BLOCK_HEAD_SIZE as int)).0,
            ..self
        }
    }

    /// The state after an event.
    pub open spec fn after(self, ev: ReadSeen) -> IterState {
        match ev {
            ReadSeen::Block(block) => self.with_block(block),
            ReadSeen::Eof => if self.rot_names.len() == 0 {
                self
            } else {
                IterState { rot_names: self.rot_names.skip(1), ..self }
            },
            _ => self,
        }
    }

    /// What is asked for after an event.
    pub open spec fn asks(self, ev: ReadSeen) -> ReadWants {
        match ev {
            ReadSeen::Begin => ReadWants::ReadBlock,
            ReadSeen::Block(block) => match parse_records(
                self.order,
                self.read,
                block.skip(BLOCK_HEAD_SIZE as int),
            ).1 {
                Some(e) => ReadWants::Fail(e),
                None => if self.with_block(block).read.entries.len() != self.read.entries.len() {
                    ReadWants::Done(true)
                } else {
                    ReadWants::ReadBlock
                },
            },
            ReadSeen::Eof => if self.rot_names.len() > 0 {
                ReadWants::OpenRot(self.rot_names[0])
            } else if self.read.mid is Some {
                ReadWants::Fail(corrupt("Unended paritial log"@))
            } else {
                ReadWants::Done(false)
            },
            ReadSeen::Opened(size) => if size as int % self.block_size != 0 {
                ReadWants::Fail(odd_size())
            } else {
                ReadWants::ReadBlock
            },
            ReadSeen::Failed(e) => ReadWants::Fail(e),
        }
    }

    /// The entry that is handed out next, if it is the one that is expected.
    pub open spec fn next_entry(self) -> Option<Result<Entry, ErrorView>> {
        if self.read.entries.len() == 0 {
            None
        } else if self.read.entries[0].lsn != self.next_lsn {
            Some(Err(ErrorView::MiscError("Unexpected LSN in log entry"@)))
        } else {
            Some(Ok(self.read.entries[0]))
        }
    }

    /// The state after the next entry was handed out.
    pub open spec fn advanced(self) -> IterState {
        if self.read.entries.len() == 0 {
            self
        } else {
            IterState {
                read: ReadState { entries: self.read.entries.skip(1), ..self.read },
                next_lsn: if self.read.entries[0].lsn != self.next_lsn {
                    self.next_lsn
                } else {
                    (self.next_lsn + 1) as u64
                },
                ..self
            }
        }
    }
}

/// Hands out the entries of a log one by one.
pub struct LogIterator {
    order: ByteOrder,
    block_size: u32,
    cached: VecDeque<LogEntry>,
    middle_log_lsn: u64,
    middle_log_bufs: Vec<Bytes>,
    next_lsn: u64,
    rot_names: VecDeque<String>,
}

impl View for LogIterator {
    type V = IterState;

    closed spec fn view(&self) -> IterState {
        IterState {
            order: self.order,
            block_size: self.block_size as int,
            read: ReadState {
                entries: entries(self.cached@),
                mid: if self.middle_log_bufs@.len() == 0 {
                    None
                } else {
                    Some((self.middle_log_lsn, joined(self.middle_log_bufs@)))
                },
            },
            next_lsn: self.next_lsn,
            rot_names: texts(self.rot_names@),
        }
    }
}

/// The error of a file that does not hold what it should.
pub(crate) fn corrupt_file(details: &str) -> (e: Error)
    ensures
        e@ == corrupt(details@),
{
    Error::CorruptFile(details.to_string())
}

/// Eight zeros are a checksum and a length of zero.
proof fn lemma_empty_head(o: ByteOrder, s: Seq<u8>)
    requires
        u64_at(o, s, 0) == 0,
    ensures
        u32_at(o, s, 0) == 0,
        u32_at(o, s, 4) == 0,
{
    lemma_u64_zero(o, s, 0);
    assert(0u32 | 0u32 << 8 | 0u32 << 16 | 0u32 << 24 == 0) by (bit_vector);
}

fn join(bufs: &Vec<Bytes>) -> (b: Bytes)
    ensures
        contents(b) == joined(bufs@),
{
    let mut payload: Vec<u8> = Vec::new();
    let mut i: usize = 0;
    while i < bufs.len()
        invariant
            i <= bufs@.len(),
            payload@ == joined(bufs@.take(i as int)),
        decreases bufs@.len() - i,
    {
        let ghost before = payload@;
        payload.extend_from_slice(bytes_as_slice(&bufs[i]));
        proof {
            assert(payload@ =~= before + contents(bufs@[i as int]));
            assert(bufs@.take(i + 1).drop_last() =~= bufs@.take(i as int));
        }
        i += 1;
    }
    assert(bufs@.take(i as int) =~= bufs@);
    bytes_from_vec(payload)
}

impl LogIterator {
    fn push_entry(&mut self, lsn: u64, payload: Bytes)
        ensures
            final(self)@ == (IterState {
                read: ReadState {
                    entries: old(self)@.read.entries.push(
                        Entry { lsn, payload: contents(payload) },
                    ),
                    ..old(self)@.read
                },
                ..old(self)@
            }),
    {
        let entry = LogEntry { lsn, payload };
        self.cached.push_back(entry);
        assert(entries(self.cached@) =~= entries(old(self).cached@).push(entry@));
    }

    fn absorb(&mut self, log: DiskLogEntry) -> (r: Result<(), Error>)
        ensures
            match (absorb(old(self)@.read, log@), r) {
                (Ok(st), Ok(_)) => final(self)@ == (IterState { read: st, ..old(self)@ }),
                (Err(expected), Err(e)) => e@ == expected && final(self)@ == old(self)@,
                _ => false,
            },
    {
        match log.fullness {
            Fullness::Full => {
                self.push_entry(log.lsn, log.payload);
                Ok(())
            },
            Fullness::First => {
                if self.middle_log_bufs.len() > 0 {
                    return Err(corrupt_file("Partial log entry not finished"));
                }
                self.middle_log_lsn = log.lsn;
                self.middle_log_bufs.push(log.payload);
                proof {
                    assert(self.middle_log_bufs@.drop_last() =~= Seq::empty());
                    assert(joined(Seq::<Bytes>::empty()) == Seq::<u8>::empty());
                    assert(joined(self.middle_log_bufs@) =~= log@.payload);
                }
                Ok(())
            },
            fullness => {
                if self.middle_log_bufs.len() == 0 {
                    return Err(corrupt_file("Unexpected paritial log entry"));
                }
                if self.middle_log_lsn != log.lsn {
                    return Err(corrupt_file("Unexpected paritial log lsn"));
                }
                self.middle_log_bufs.push(log.payload);
                proof {
                    assert(self.middle_log_bufs@.drop_last() =~= old(self).middle_log_bufs@);
                }
                if fullness == Fullness::Last {
                    let payload = join(&self.middle_log_bufs);
                    self.middle_log_bufs.clear();
                    self.push_entry(log.lsn, payload);
                }
                Ok(())
            },
        }
    }

    /// Tells whether no record follows in a block.
    fn at_end(&self, buf: &Bytes) -> (r: bool)
        ensures
            r == records_end(self@.order, contents(*buf)),
    {
        if bytes_len(buf) < LOG_HEAD_SIZE {
            return true;
        }
        let rest = bytes_as_slice(buf);
        if self.order.get_u64(rest, 0) != 0 {
            return false;
        }
        proof {
            lemma_empty_head(self.order, rest@);
        }
        self.order.get_u64(rest, 8) == 0 || crc32c(slice_subrange(rest, 4, LOG_HEAD_SIZE)) != 0
            || Fullness::try_from(rest[17]).is_err()
    }

    fn parse(&mut self, buf: Bytes) -> (r: Result<(), Error>)
        ensures
            ({
                let (st, e) = parse_records(old(self)@.order, old(self)@.read, contents(buf));
                &&& final(self)@ == (IterState { read: st, ..old(self)@ })
                &&& match (e, r) {
                    (None, Ok(_)) => true,
                    (Some(expected), Err(e)) => e@ == expected,
                    _ => false,
                }
            }),
    {
        let ghost whole = parse_records(self@.order, self@.read, contents(buf));
        let mut rest = buf;
        loop
            invariant_except_break
                parse_records(self@.order, self@.read, contents(rest)) == whole,
            invariant
                self@ == (IterState { read: self@.read, ..old(self)@ }),
                whole == parse_records(old(self)@.order, old(self)@.read, contents(buf)),
            ensures
                self@.read == whole.0,
                whole.1 is None,
            decreases contents(rest).len(),
        {
            let log = match DiskLogEntry::decode_as(self.order, &mut rest) {
                Ok(log) => log,
                Err(e) => return Err(e),
            };
            match self.absorb(log) {
                Ok(_) => {},
                Err(e) => return Err(e),
            }
            if self.at_end(&rest) {
                break;
            }
        }
        Ok(())
    }

    /// Goes on reading until at least one more entry is there.
    pub fn read_next(&mut self, ev: ReadEvent) -> (r: ReadAction)
        requires
            ev matches ReadEvent::Block(block) ==> contents(block).len() >= BLOCK_HEAD_SIZE,
            0 < old(self)@.block_size,
        ensures
            final(self)@ == old(self)@.after(ev@),
            r@ == old(self)@.asks(ev@),
    {
        match ev {
            ReadEvent::Begin => ReadAction::ReadBlock,
            ReadEvent::Block(block) => {
                let mut block = block;
                let ocnt: usize = self.cached.len();
                bytes_advance(&mut block, BLOCK_HEAD_SIZE);
                match self.parse(block) {
                    Err(e) => ReadAction::Fail(e),
                    Ok(_) => if self.cached.len() != ocnt {
                        ReadAction::Done(true)
                    } else {
                        ReadAction::ReadBlock
                    },
                }
            },
            ReadEvent::Eof => match self.rot_names.pop_front() {
                Some(rot_name) => {
                    proof {
                        assert(texts(self.rot_names@) =~= texts(old(self).rot_names@).skip(1));
                    }
                    ReadAction::OpenRot(rot_name)
                },
                None => if self.middle_log_bufs.len() > 0 {
                    ReadAction::Fail(corrupt_file("Unended paritial log"))
                } else {
                    ReadAction::Done(false)
                },
            },
            ReadEvent::Opened(size) => if size % self.block_size as u64 != 0 {
                ReadAction::Fail(corrupt_file("File size is not multiple of block size"))
            } else {
                ReadAction::ReadBlock
            },
            ReadEvent::Failed(e) => ReadAction::Fail(e),
        }
    }

    /// Hands out the next entry that has been read, if there is one. When there is none, the caller
    /// goes on with [`LogIterator::read_next`].
    pub fn next(&mut self) -> (r: Option<Result<LogEntry, Error>>)
        requires
            old(self)@.next_lsn < u64::MAX,
        ensures
            final(self)@ == old(self)@.advanced(),
            match (old(self)@.next_entry(), r) {
                (None, None) => true,
                (Some(Ok(expected)), Some(Ok(entry))) => entry@ == expected,
                (Some(Err(expected)), Some(Err(e))) => e@ == expected,
                _ => false,
            },
    {
        match self.cached.pop_front() {
            None => None,
            Some(entry) => {
                proof {
                    assert(entries(self.cached@) =~= entries(old(self).cached@).skip(1));
                    assert(entries(old(self).cached@)[0] == entry@);
                }
                if entry.lsn != self.next_lsn {
                    Some(Err(Error::MiscError("Unexpected LSN in log entry".to_string())))
                } else {
                    self.next_lsn = self.next_lsn + 1;
                    Some(Ok(entry))
                }
            },
        }
    }

    /// Takes over a record of the block that a replay starts in.
    fn absorb_first(&mut self, log: DiskLogEntry) -> (r: Result<(), Error>)
        ensures
            match (absorb_first(old(self)@.read, log@), r) {
                (Ok(st), Ok(_)) => final(self)@ == (IterState { read: st, ..old(self)@ }),
                (Err(expected), Err(e)) => e@ == expected && final(self)@ == old(self)@,
                _ => false,
            },
    {
        match log.fullness {
            Fullness::Full => {
                self.push_entry(log.lsn, log.payload);
                Ok(())
            },
            Fullness::First => {
                self.middle_log_lsn = log.lsn;
                self.middle_log_bufs.push(log.payload);
                proof {
                    assert(self.middle_log_bufs@.drop_last() =~= old(self).middle_log_bufs@);
                    assert(old(self).middle_log_bufs@.len() == 0 ==> joined(
                        old(self).middle_log_bufs@,
                    ) == Seq::<u8>::empty());
                }
                Ok(())
            },
            _ => Err(corrupt_file("Unexpected paritial log entry")),
        }
    }

    fn parse_from(&mut self, start_lsn: u64, buf: Bytes) -> (r: Result<(), Error>)
        ensures
            ({
                let (st, e) = parse_from(
                    old(self)@.order,
                    start_lsn,
                    old(self)@.read,
                    contents(buf),
                );
                &&& final(self)@ == (IterState { read: st, ..old(self)@ })
                &&& match (e, r) {
                    (None, Ok(_)) => true,
                    (Some(expected), Err(e)) => e@ == expected,
                    _ => false,
                }
            }),
    {
        let ghost whole = parse_from(self@.order, start_lsn, self@.read, contents(buf));
        let mut rest = buf;
        loop
            invariant_except_break
                parse_from(self@.order, start_lsn, self@.read, contents(rest)) == whole,
            invariant
                self@ == (IterState { read: self@.read, ..old(self)@ }),
                whole == parse_from(old(self)@.order, start_lsn, old(self)@.read, contents(buf)),
            ensures
                self@.read == whole.0,
                whole.1 is None,
            decreases contents(rest).len(),
        {
            let log = match DiskLogEntry::decode_as(self.order, &mut rest) {
                Ok(log) => log,
                Err(e) => return Err(e),
            };
            if log.lsn < start_lsn {
                continue;
            }
            match self.absorb_first(log) {
                Ok(_) => {},
                Err(e) => return Err(e),
            }
            if self.at_end(&rest) {
                break;
            }
        }
        Ok(())
    }
}

/// What a [`LogSeek`] was told.
pub enum SeekEvent {
    /// The rotation is open and has that size.
    Opened(u64),
    /// The block header that was asked for.
    Header(Bytes),
    /// The block that was asked for.
    Block(Bytes),
    /// The file ends within the block that was asked for.
    BlockEof,
    /// The iterator read on, and got at least one entry or none.
    ReadOn(bool),
    /// Something failed.
    Failed(Error),
}

/// What a [`LogSeek`] asks for.
pub enum SeekAction {
    /// Read the block header at that position of the rotation.
    ReadHeader(u64),
    /// Read the block at that position of the rotation.
    ReadBlock(u64),
    /// Let the iterator read on, with [`LogIterator::read_next`], behind the block that was read.
    ReadOn,
    /// Nothing: the iterator is ready, and goes on behind the last block that was read.
    Found,
    /// Nothing: there is no replay.
    Fail(Error),
}

/// What a [`SeekEvent`] says.
pub enum SeekSeen {
    Opened(u64),
    Header(Seq<u8>),
    Block(Seq<u8>),
    BlockEof,
    ReadOn(bool),
    Failed(ErrorView),
}

/// What a [`SeekAction`] says.
pub enum SeekWants {
    ReadHeader(u64),
    ReadBlock(u64),
    ReadOn,
    Found,
    Fail(ErrorView),
}

impl View for SeekEvent {
    type V = SeekSeen;

    open spec fn view(&self) -> SeekSeen {
        match *self {
            SeekEvent::Opened(n) => SeekSeen::Opened(n),
            SeekEvent::Header(b) => SeekSeen::Header(contents(b)),
            SeekEvent::Block(b) => SeekSeen::Block(contents(b)),
            SeekEvent::BlockEof => SeekSeen::BlockEof,
            SeekEvent::ReadOn(b) => SeekSeen::ReadOn(b),
            SeekEvent::Failed(e) => SeekSeen::Failed(e@),
        }
    }
}

impl View for SeekAction {
    type V = SeekWants;

    open spec fn view(&self) -> SeekWants {
        match *self {
            SeekAction::ReadHeader(n) => SeekWants::ReadHeader(n),
            SeekAction::ReadBlock(n) => SeekWants::ReadBlock(n),
            SeekAction::ReadOn => SeekWants::ReadOn,
            SeekAction::Found => SeekWants::Found,
            SeekAction::Fail(e) => SeekWants::Fail(e@),
        }
    }
}

/// The state of a [`LogSeek`].
#[verifier::ext_equal]
pub struct SeekState {
    pub start_lsn: u64,
    /// The size of the rotation that is searched.
    pub size: u64,
    /// Where the block that is looked at starts.
    pub offset: u64,
    pub iter: IterState,
}

/// The replay cannot start because no block holds its first entry.
pub open spec fn no_such_entry() -> ErrorView {
    ErrorView::MiscError("Unable to find log entry matching `start_lsn`"@)
}

impl SeekState {
    /// Whether the block that is looked at lies within the rotation.
    pub open spec fn within(self) -> bool {
        self.offset < self.size && self.size - self.offset >= self.iter.block_size
    }

    /// What is asked for when a block is to be looked at.
    pub open spec fn looks(self) -> SeekWants {
        if self.within() {
            SeekWants::ReadHeader(self.offset)
        } else {
            SeekWants::Fail(no_such_entry())
        }
    }

    /// The state in which the next block is looked at.
    pub open spec fn skipped(self) -> SeekState {
        SeekState { offset: (self.offset + self.iter.block_size) as u64, ..self }
    }

    /// What the block that is looked at holds from the first entry of the replay on.
    pub open spec fn parsed(self, block: Seq<u8>) -> (ReadState, Option<ErrorView>) {
        parse_from(
            self.iter.order,
            self.start_lsn,
            self.iter.read,
            block.skip(BLOCK_HEAD_SIZE as int),
        )
    }

    /// Whether the block with that header is the one to start in.
    pub open spec fn starts_in(self, header: Seq<u8>) -> bool {
        match decode_header(self.iter.order, header) {
            Ok(h) => h.min_lsn <= self.start_lsn <= h.max_lsn,
            Err(_) => false,
        }
    }

    /// The state after an event.
    pub open spec fn after(self, ev: SeekSeen) -> SeekState {
        match ev {
            SeekSeen::Opened(size) => SeekState { size, offset: 0, ..self },
            SeekSeen::Header(header) => if decode_header(self.iter.order, header) is Ok
                && !self.starts_in(header) {
                self.skipped()
            } else {
                self
            },
            SeekSeen::Block(block) => SeekState {
                iter: IterState { read: self.parsed(block).0, ..self.iter },
                ..self
            },
            _ => self,
        }
    }

    /// What is asked for after an event.
    pub open spec fn asks(self, ev: SeekSeen) -> SeekWants {
        match ev {
            SeekSeen::Opened(size) => if size as int % self.iter.block_size != 0 {
                SeekWants::Fail(odd_size())
            } else {
                self.after(ev).looks()
            },
            SeekSeen::Header(header) => match decode_header(self.iter.order, header) {
                Err(e) => SeekWants::Fail(e),
                Ok(_) => if self.starts_in(header) {
                    SeekWants::ReadBlock(self.offset)
                } else {
                    self.skipped().looks()
                },
            },
            SeekSeen::Block(block) => match self.parsed(block).1 {
                Some(e) => SeekWants::Fail(e),
                None => if self.parsed(block).0.entries.len() == 0 {
                    SeekWants::ReadOn
                } else {
                    SeekWants::Found
                },
            },
            SeekSeen::BlockEof => SeekWants::Fail(no_such_entry()),
            SeekSeen::ReadOn(any) => if any {
                SeekWants::Found
            } else {
                SeekWants::Fail(no_such_entry())
            },
            SeekSeen::Failed(e) => SeekWants::Fail(e),
        }
    }
}

/// Looks in a rotation for the block in which a replay starts.
pub struct LogSeek {
    start_lsn: u64,
    size: u64,
    offset: u64,
    rot_name: String,
    iter: LogIterator,
}

impl View for LogSeek {
    type V = SeekState;

    closed spec fn view(&self) -> SeekState {
        SeekState {
            start_lsn: self.start_lsn,
            size: self.size,
            offset: self.offset,
            iter: self.iter@,
        }
    }
}

impl LogSeek {
    /// The name of the rotation that is searched.
    pub closed spec fn name(&self) -> Seq<char> {
        self.rot_name@
    }

    /// Starts to look for `start_lsn` in the rotation `rot_name`, which `rot_names` follow.
    pub(crate) fn new(
        order: ByteOrder,
        block_size: u32,
        start_lsn: u64,
        rot_name: String,
        rot_names: VecDeque<String>,
    ) -> (r: Self)
        ensures
            r.name() == rot_name@,
            r@ == (SeekState {
                start_lsn,
                size: 0,
                offset: 0,
                iter: IterState {
                    order,
                    block_size: block_size as int,
                    read: ReadState { entries: Seq::empty(), mid: None },
                    next_lsn: start_lsn,
                    rot_names: texts(rot_names@),
                },
            }),
    {
        let iter = LogIterator {
            order,
            block_size,
            cached: VecDeque::new(),
            middle_log_lsn: 0,
            middle_log_bufs: Vec::new(),
            next_lsn: start_lsn,
            rot_names,
        };
        assert(entries(iter.cached@) =~= Seq::empty());
        LogSeek { start_lsn, size: 0, offset: 0, rot_name, iter }
    }

    /// The name of the rotation to open.
    pub fn rot_name(&self) -> (r: &str)
        ensures
            r@ == self.name(),
    {
        self.rot_name.as_str()
    }

    fn not_found() -> (r: SeekAction)
        ensures
            r@ == SeekWants::Fail(no_such_entry()),
    {
        SeekAction::Fail(
            Error::MiscError("Unable to find log entry matching `start_lsn`".to_string()),
        )
    }

    fn look(&self) -> (r: SeekAction)
        ensures
            r@ == self@.looks(),
    {
        if self.offset < self.size && self.size - self.offset >= self.iter.block_size as u64 {
            SeekAction::ReadHeader(self.offset)
        } else {
            LogSeek::not_found()
        }
    }

    /// Takes one more step in the search.
    pub fn step(&mut self, ev: SeekEvent) -> (r: SeekAction)
        requires
            0 < old(self)@.iter.block_size,
            ev matches SeekEvent::Block(block) ==> contents(block).len() >= BLOCK_HEAD_SIZE,
            ev is Header ==> old(self)@.within(),
        ensures
            final(self)@ == old(self)@.after(ev@),
            final(self).name() == old(self).name(),
            r@ == old(self)@.asks(ev@),
            r is ReadHeader ==> final(self)@.within(),
    {
        match ev {
            SeekEvent::Opened(size) => {
                self.size = size;
                self.offset = 0;
                if size % self.iter.block_size as u64 != 0 {
                    SeekAction::Fail(corrupt_file("File size is not multiple of block size"))
                } else {
                    self.look()
                }
            },
            SeekEvent::Header(header) => {
                let mut hbuf = header;
                match DiskBlockHeader::decode_as(self.iter.order, &mut hbuf) {
                    Err(e) => SeekAction::Fail(e),
                    Ok(h) => if h.min_lsn <= self.start_lsn && self.start_lsn <= h.max_lsn {
                        SeekAction::ReadBlock(self.offset)
                    } else {
                        self.offset = self.offset + self.iter.block_size as u64;
                        self.look()
                    },
                }
            },
            SeekEvent::Block(block) => {
                let mut block = block;
                bytes_advance(&mut block, BLOCK_HEAD_SIZE);
                match self.iter.parse_from(self.start_lsn, block) {
                    Err(e) => SeekAction::Fail(e),
                    Ok(_) => if self.iter.cached.len() == 0 {
                        SeekAction::ReadOn
                    } else {
                        SeekAction::Found
                    },
                }
            },
            SeekEvent::BlockEof => LogSeek::not_found(),
            SeekEvent::ReadOn(any) => if any {
                SeekAction::Found
            } else {
                LogSeek::not_found()
            },
            SeekEvent::Failed(e) => SeekAction::Fail(e),
        }
    }

    /// Lets the iterator read on, as [`LogIterator::read_next`] does.
    pub fn read_on(&mut self, ev: ReadEvent) -> (r: ReadAction)
        requires
            ev matches ReadEvent::Block(block) ==> contents(block).len() >= BLOCK_HEAD_SIZE,
            0 < old(self)@.iter.block_size,
        ensures
            final(self)@ == (SeekState { iter: old(self)@.iter.after(ev@), ..old(self)@ }),
            final(self).name() == old(self).name(),
            r@ == old(self)@.iter.asks(ev@),
    {
        self.iter.read_next(ev)
    }

    /// Ends the search: what was found.
    pub fn finish(self) -> (r: LogIterator)
        ensures
            r@ == self@.iter,
    {
        self.iter
    }
}

// ---------------------------------------------------------------------------------------------
// Laws
// ---------------------------------------------------------------------------------------------

/// Records are put together to entries: one that holds a whole entry gives it, and otherwise the parts
/// from the first to the last one do, in that order. A part that is out of place is refused: a first one
/// when the entry before it has not ended, and another one when there is no entry that it belongs to.
pub proof fn law_parts_are_put_together(st: ReadState, rec: Record)
    ensures
        absorb(st, rec) is Err <==> match rec.fullness {
            Fullness::Full => false,
            Fullness::First => st.mid is Some,
            _ => st.mid is None || (st.mid->0).0 != rec.lsn,
        },
        absorb(st, rec) matches Ok(next) ==> match rec.fullness {
            Fullness::Full => {
                &&& next.entries == st.entries.push(Entry { lsn: rec.lsn, payload: rec.payload })
                &&& next.mid == st.mid
            },
            Fullness::First => {
                &&& next.entries == st.entries
                &&& next.mid == Some((rec.lsn, rec.payload))
            },
            Fullness::Middle => {
                &&& next.entries == st.entries
                &&& next.mid == Some((rec.lsn, (st.mid->0).1 + rec.payload))
            },
            Fullness::Last => {
                &&& next.entries == st.entries.push(
                    Entry { lsn: rec.lsn, payload: (st.mid->0).1 + rec.payload },
                )
                &&& next.mid is None
            },
        },
        absorb(st, rec) matches Err(e) ==> e == ErrorView::CorruptFile(
            if rec.fullness is First {
                "Partial log entry not finished"@
            } else if st.mid is None {
                "Unexpected paritial log entry"@
            } else {
                "Unexpected paritial log lsn"@
            },
        ),
{
}

/// Only the entry that is expected is handed out, and the next one is expected then. Any other entry is
/// reported.
pub proof fn law_expected_entry_is_handed_out(it: IterState)
    requires
        it.next_lsn < u64::MAX,
    ensures
        it.read.entries.len() == 0 ==> it.next_entry() is None && it.advanced() == it,
        it.read.entries.len() > 0 && it.read.entries[0].lsn == it.next_lsn ==> {
            &&& it.next_entry() == Some(Ok::<Entry, ErrorView>(it.read.entries[0]))
            &&& it.advanced().next_lsn == it.next_lsn + 1
        },
        it.read.entries.len() > 0 && it.read.entries[0].lsn != it.next_lsn ==> {
            &&& it.next_entry() == Some(
                Err::<Entry, ErrorView>(ErrorView::MiscError("Unexpected LSN in log entry"@)),
            )
            &&& it.advanced().next_lsn == it.next_lsn
        },
        it.read.entries.len() > 0 ==> it.advanced().read.entries == it.read.entries.skip(1),
        it.read.entries.len() > 0 ==> it.advanced() == (IterState {
            read: ReadState { entries: it.read.entries.skip(1), mid: it.read.mid },
            next_lsn: it.advanced().next_lsn,
            ..it
        }),
{
}

/// Reading goes on from block to block and from rotation to rotation, until there is an entry: it ends
/// without one only when no rotation is left, and then it is an error if an entry has not ended.
/// A rotation that does not consist of whole blocks is refused, and what failed is reported.
pub proof fn law_reading_goes_on(it: IterState, size: u64, e: ErrorView)
    ensures
        it.asks(ReadSeen::Begin) == ReadWants::ReadBlock,
        it.rot_names.len() > 0 ==> it.asks(ReadSeen::Eof) == ReadWants::OpenRot(it.rot_names[0])
            && it.after(ReadSeen::Eof) == (IterState { rot_names: it.rot_names.skip(1), ..it }),
        it.rot_names.len() == 0 ==> it.after(ReadSeen::Eof) == it,
        it.rot_names.len() == 0 && it.read.mid is None ==> it.asks(ReadSeen::Eof)
            == ReadWants::Done(false),
        it.rot_names.len() == 0 && it.read.mid is Some ==> it.asks(ReadSeen::Eof)
            == ReadWants::Fail(ErrorView::CorruptFile("Unended paritial log"@)),
        it.asks(ReadSeen::Opened(size)) == (if size as int % it.block_size == 0 {
            ReadWants::ReadBlock
        } else {
            ReadWants::Fail(ErrorView::CorruptFile("File size is not multiple of block size"@))
        }),
        it.after(ReadSeen::Opened(size)) == it,
        it.asks(ReadSeen::Failed(e)) == ReadWants::Fail(e),
        it.after(ReadSeen::Begin) == it,
        it.after(ReadSeen::Failed(e)) == it,
{
}

/// A search looks at the headers of one block after the other, from the first one on, up to the one
/// whose LSNs include the one that is searched for. When there is none, there is no such entry.
pub proof fn law_search_looks_at_each_block(s: SeekState, size: u64, header: Seq<u8>, e: ErrorView)
    requires
        0 < s.iter.block_size,
        s.offset + s.iter.block_size <= u64::MAX,
    ensures
        ({
            let first = SeekState { size, offset: 0, ..s };
            &&& s.after(SeekSeen::Opened(size)) == first
            &&& s.asks(SeekSeen::Opened(size)) == (if size as int % s.iter.block_size != 0 {
                SeekWants::Fail(ErrorView::CorruptFile("File size is not multiple of block size"@))
            } else if size > 0 {
                SeekWants::ReadHeader(0)
            } else {
                SeekWants::Fail(
                    ErrorView::MiscError("Unable to find log entry matching `start_lsn`"@),
                )
            })
        }),
        match decode_header(s.iter.order, header) {
            Err(why) => s.asks(SeekSeen::Header(header)) == SeekWants::Fail(why),
            Ok(h) => if h.min_lsn <= s.start_lsn <= h.max_lsn {
                &&& s.asks(SeekSeen::Header(header)) == SeekWants::ReadBlock(s.offset)
                &&& s.after(SeekSeen::Header(header)) == s
            } else {
                let next = s.offset + s.iter.block_size;
                &&& s.after(SeekSeen::Header(header)) == SeekState { offset: next as u64, ..s }
                &&& s.asks(SeekSeen::Header(header)) == (if next + s.iter.block_size <= s.size {
                    SeekWants::ReadHeader(next as u64)
                } else {
                    SeekWants::Fail(
                        ErrorView::MiscError("Unable to find log entry matching `start_lsn`"@),
                    )
                })
            },
        },
        s.asks(SeekSeen::BlockEof) == SeekWants::Fail(
            ErrorView::MiscError("Unable to find log entry matching `start_lsn`"@),
        ),
        s.asks(SeekSeen::ReadOn(true)) == SeekWants::Found,
        s.asks(SeekSeen::ReadOn(false)) == SeekWants::Fail(
            ErrorView::MiscError("Unable to find log entry matching `start_lsn`"@),
        ),
        s.asks(SeekSeen::Failed(e)) == SeekWants::Fail(e),
        decode_header(s.iter.order, header) is Err ==> s.after(SeekSeen::Header(header)) == s,
        s.after(SeekSeen::BlockEof) == s,
        s.after(SeekSeen::ReadOn(true)) == s,
        s.after(SeekSeen::ReadOn(false)) == s,
        s.after(SeekSeen::Failed(e)) == s,
{
    if size > 0 && size as int % s.iter.block_size == 0 {
        if size < s.iter.block_size {
            vstd::arithmetic::div_mod::lemma_small_mod(size as nat, s.iter.block_size as nat);
        }
    }
}

/// The records of a block are read one after the other. What was read before a record that cannot be
/// decoded, or that is out of place, is kept, and the record is reported.
pub proof fn law_records_are_read_in_turn(o: ByteOrder, st: ReadState, src: Seq<u8>)
    ensures
        match decode_record(o, src) {
            Err(e) => parse_records(o, st, src) == (st, Some(e)),
            Ok(rec) => {
                let rest = src.skip(20 + rec.payload.len() as int);
                match absorb(st, rec) {
                    Err(e) => parse_records(o, st, src) == (st, Some(e)),
                    Ok(next) => parse_records(o, st, src) == (if records_end(o, rest) {
                        (next, None)
                    } else {
                        parse_records(o, next, rest)
                    }),
                }
            },
        },
{
}

/// The records of a block have ended when there is no room for one, or when sixteen zeros follow, or when
/// eight zeros follow that are not the start of a record. They have not ended when one of the next eight
/// bytes is not zero, or when a record follows that has an LSN or a payload.
pub proof fn law_zeros_end_records(o: ByteOrder, rest: Seq<u8>)
    ensures
        rest.len() < 20 ==> records_end(o, rest),
        rest.len() >= 20 && (forall|i: int| 0 <= i < 16 ==> rest[i] == 0) ==> records_end(o, rest),
        rest.len() >= 20 && (exists|i: int| 0 <= i < 8 && rest[i] != 0) ==> !records_end(o, rest),
        rest.len() >= 20 && (forall|i: int| 0 <= i < 8 ==> rest[i] == 0) && decode_record(o, rest)
            is Err ==> records_end(o, rest),
        decode_record(o, rest) matches Ok(rec) && (rec.lsn != 0 || rec.payload.len() > 0)
            ==> !records_end(o, rest),
{
    lemma_u64_zero(o, rest, 0);
    lemma_u64_zero(o, rest, 8);
    if rest.len() >= 20 && records_end(o, rest) {
        lemma_empty_head(o, rest);
    }
}

/// In the block that a replay starts in, the records before the one it starts with are passed over, and
/// those that follow are read one after the other. There is no part of an entry that began before.
pub proof fn law_replay_passes_over_what_is_before(
    o: ByteOrder,
    start_lsn: u64,
    st: ReadState,
    src: Seq<u8>,
)
    ensures
        match decode_record(o, src) {
            Err(e) => parse_from(o, start_lsn, st, src) == (st, Some(e)),
            Ok(rec) => {
                let rest = src.skip(20 + rec.payload.len() as int);
                let read = match rec.fullness {
                    Fullness::Full => Ok::<ReadState, ErrorView>(
                        ReadState {
                            entries: st.entries.push(
                                Entry { lsn: rec.lsn, payload: rec.payload },
                            ),
                            mid: st.mid,
                        },
                    ),
                    Fullness::First => Ok(
                        ReadState {
                            entries: st.entries,
                            mid: Some(
                                (
                                    rec.lsn,
                                    if st.mid is Some {
                                        (st.mid->0).1 + rec.payload
                                    } else {
                                        rec.payload
                                    },
                                ),
                            ),
                        },
                    ),
                    _ => Err(ErrorView::CorruptFile("Unexpected paritial log entry"@)),
                };
                parse_from(o, start_lsn, st, src) == (if rec.lsn < start_lsn {
                    parse_from(o, start_lsn, st, rest)
                } else {
                    match read {
                        Err(e) => (st, Some(e)),
                        Ok(next) => if records_end(o, rest) {
                            (next, None)
                        } else {
                            parse_from(o, start_lsn, next, rest)
                        },
                    }
                })
            },
        },
{
    if let Ok(rec) = decode_record(o, src) {
        assert(Seq::<u8>::empty() + rec.payload =~= rec.payload);
    }
}

/// The records of a block stand behind the 32 bytes of its header. When a block has been read, what is
/// wrong in it is reported. Otherwise reading is done if there is an entry more than before, and goes on
/// if there is none.
pub proof fn law_blocks_are_read(it: IterState, s: SeekState, block: Seq<u8>)
    ensures
        ({
            let (st, e) = parse_records(it.order, it.read, block.skip(32));
            &&& it.after(ReadSeen::Block(block)) == (IterState { read: st, ..it })
            &&& match e {
                Some(why) => it.asks(ReadSeen::Block(block)) == ReadWants::Fail(why),
                None => it.asks(ReadSeen::Block(block)) == (if st.entries.len()
                    == it.read.entries.len() {
                    ReadWants::ReadBlock
                } else {
                    ReadWants::Done(true)
                }),
            }
        }),
        ({
            let (st, e) = parse_from(s.iter.order, s.start_lsn, s.iter.read, block.skip(32));
            &&& s.after(SeekSeen::Block(block)) == (SeekState {
                iter: IterState { read: st, ..s.iter },
                ..s
            })
            &&& match e {
                Some(why) => s.asks(SeekSeen::Block(block)) == SeekWants::Fail(why),
                None => s.asks(SeekSeen::Block(block)) == (if st.entries.len() == 0 {
                    SeekWants::ReadOn
                } else {
                    SeekWants::Found
                }),
            }
        }),
{
}

} // verus!
