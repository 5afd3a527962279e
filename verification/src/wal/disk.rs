//! What the log looks like on disk.
//!
//! The data is a sequence of blocks of equal size. A block starts with a header, which the records
//! of log entries follow; what they leave of the block is filled with zeros. An entry that does
//! not fit in the rest of a block is cut into several records. The manifest is a sequence of
//! small entries that keep the smallest LSN still needed. Header, record and manifest entry each
//! start with a checksum of what follows in them.
use crate::byteorder::{native_order, u32_at, u32_bytes, u64_at, u64_bytes, ByteOrder};
use crate::outside::{
    bytes_advance, bytes_as_slice, bytes_len, bytes_split_to, contents, crc32c, crc32c_of,
};
use crate::{Error, ErrorView};
use bytes::Bytes;
use vstd::prelude::*;
use vstd::slice::slice_subrange;

verus! {

/// The size of a record without its payload.
pub const LOG_HEAD_SIZE: usize = 20;

/// The size of a block header.
pub const BLOCK_HEAD_SIZE: usize = 32;

/// The size of a manifest entry.
pub const MANI_ENTRY_SIZE: usize = 16;

/// Which part of a log entry a record holds.
#[derive(Clone, Copy, Debug, PartialEq, Eq, Structural)]
pub enum Fullness {
    Full,
    First,
    Middle,
    Last,
}

impl Fullness {
    /// The byte that stands for it on disk.
    pub open spec fn code(self) -> u8 {
        match self {
            Fullness::Full => 0,
            Fullness::First => 1,
            Fullness::Middle => 2,
            Fullness::Last => 3,
        }
    }

    /// What a byte on disk stands for.
    pub open spec fn of_code(v: u8) -> Option<Fullness> {
        if v == 0 {
            Some(Fullness::Full)
        } else if v == 1 {
            Some(Fullness::First)
        } else if v == 2 {
            Some(Fullness::Middle)
        } else if v == 3 {
            Some(Fullness::Last)
        } else {
            None
        }
    }

    /// The byte that stands for it on disk.
    pub fn to_code(self) -> (v: u8)
        ensures
            v == self.code(),
    {
        match self {
            Fullness::Full => 0,
            Fullness::First => 1,
            Fullness::Middle => 2,
            Fullness::Last => 3,
        }
    }
}

impl TryFrom<u8> for Fullness {
    type Error = ();

    fn try_from(v: u8) -> (r: Result<Self, ()>) {
        match v {
            0 => Ok(Fullness::Full),
            1 => Ok(Fullness::First),
            2 => Ok(Fullness::Middle),
            3 => Ok(Fullness::Last),
            _ => Err(()),
        }
    }
}

impl vstd::std_specs::convert::TryFromSpecImpl<u8> for Fullness {
    open spec fn obeys_try_from_spec() -> bool {
        true
    }

    open spec fn try_from_spec(v: u8) -> Result<Self, ()> {
        match Fullness::of_code(v) {
            Some(f) => Ok(f),
            None => Err(()),
        }
    }
}

/// A failure to decode.
pub open spec fn undecodable(what: Seq<char>, details: Seq<char>) -> ErrorView {
    ErrorView::DecodingFailed(what, details)
}

// ---------------------------------------------------------------------------------------------
// Records
// ---------------------------------------------------------------------------------------------

/// What a record says, without what can be computed from it.
pub struct Record {
    pub lsn: u64,
    pub fullness: Fullness,
    pub payload: Seq<u8>,
}

impl Record {
    /// The part of the record that its checksum covers.
    pub open spec fn body(self, o: ByteOrder) -> Seq<u8> {
        u32_bytes(o, self.payload.len() as u32) + u64_bytes(o, self.lsn) + seq![
            0u8,
            self.fullness.code(),
            0u8,
            0u8,
        ] + self.payload
    }

    /// The record on disk.
    pub open spec fn bytes(self, o: ByteOrder) -> Seq<u8> {
        u32_bytes(o, crc32c_of(self.body(o))) + self.body(o)
    }

    /// Its size on disk.
    pub open spec fn size(self) -> int {
        LOG_HEAD_SIZE + self.payload.len()
    }
}

/// A decoded record.
pub struct DiskLogEntry {
    pub payload: Bytes,
    pub _crc: u32,
    pub _len: u32,
    pub lsn: u64,
    pub _ver: u8,
    pub fullness: Fullness,
    pub _flags: u8,
    pub _resv: u8,
}

impl View for DiskLogEntry {
    type V = Record;

    open spec fn view(&self) -> Record {
        Record { lsn: self.lsn, fullness: self.fullness, payload: contents(self.payload) }
    }
}

/// The length field of the record that `src` starts with.
pub open spec fn record_len(o: ByteOrder, src: Seq<u8>) -> int {
    u32_at(o, src, 4) as int
}

/// The record that `src` starts with, or why there is none.
pub open spec fn decode_record(o: ByteOrder, src: Seq<u8>) -> Result<Record, ErrorView> {
    let what = "DiskLogEntry"@;
    if src.len() < LOG_HEAD_SIZE {
        Err(undecodable(what, "Buffer is too short to decode"@))
    } else if record_len(o, src) > src.len() - LOG_HEAD_SIZE {
        Err(undecodable(what, "len field is too large"@))
    } else if crc32c_of(src.subrange(4, LOG_HEAD_SIZE + record_len(o, src))) != u32_at(o, src, 0) {
        Err(undecodable(what, "CRC check failed"@))
    } else {
        match Fullness::of_code(src[17]) {
            None => Err(undecodable(what, "Invalid fullness"@)),
            Some(fullness) => Ok(
                Record {
                    lsn: u64_at(o, src, 8),
                    fullness,
                    payload: src.subrange(
                        LOG_HEAD_SIZE as int,
                        LOG_HEAD_SIZE + record_len(o, src),
                    ),
                },
            ),
        }
    }
}

/// How many bytes of `src` an attempt to decode a record consumes.
pub open spec fn record_consumed(o: ByteOrder, src: Seq<u8>) -> int {
    if src.len() < LOG_HEAD_SIZE {
        0
    } else if record_len(o, src) > src.len() - LOG_HEAD_SIZE {
        4
    } else if crc32c_of(src.subrange(4, LOG_HEAD_SIZE + record_len(o, src))) != u32_at(o, src, 0) {
        4
    } else if Fullness::of_code(src[17]) is None {
        18
    } else {
        LOG_HEAD_SIZE + record_len(o, src)
    }
}

impl DiskLogEntry {
    /// Appends the record of a part of a log entry, in the given byte order.
    pub fn encode_as(
        o: ByteOrder,
        buf: &mut Vec<u8>,
        lsn: u64,
        payload: Bytes,
        fullness: Fullness,
    )
        requires
            old(buf)@.len() + LOG_HEAD_SIZE + contents(payload).len() <= usize::MAX,
        ensures
            final(buf)@ == old(buf)@ + (Record {
                lsn,
                fullness,
                payload: contents(payload),
            }).bytes(o),
    {
        let ghost rec = Record { lsn, fullness, payload: contents(payload) };
        let ostart: usize = buf.len();
        o.put_u32(buf, 0);
        let len: u32 = #[verifier::truncate] (bytes_len(&payload) as u32);
        o.put_u32(buf, len);
        o.put_u64(buf, lsn);
        buf.push(0);
        buf.push(fullness.to_code());
        buf.push(0);
        buf.push(0);
        buf.extend_from_slice(bytes_as_slice(&payload));
        proof {
            assert(buf@ =~= old(buf)@ + u32_bytes(o, 0) + rec.body(o));
        }
        let crc = crc32c(slice_subrange(buf.as_slice(), ostart + 4, buf.len()));
        proof {
            assert(buf@.subrange(ostart + 4, buf@.len() as int) =~= rec.body(o));
        }
        o.set_u32(buf, ostart, crc);
        assert(buf@ =~= old(buf)@ + rec.bytes(o));
    }

    /// Appends the record of a part of a log entry, in the byte order of the machine.
    pub fn encode(buf: &mut Vec<u8>, lsn: u64, payload: Bytes, fullness: Fullness)
        requires
            old(buf)@.len() + LOG_HEAD_SIZE + contents(payload).len() <= usize::MAX,
        ensures
            final(buf)@ == old(buf)@ + (Record {
                lsn,
                fullness,
                payload: contents(payload),
            }).bytes(native_order()),
    {
        DiskLogEntry::encode_as(ByteOrder::native(), buf, lsn, payload, fullness)
    }

    fn decode_err(details: &str) -> (r: Result<Self, Error>)
        ensures
            r matches Err(e) && e@ == undecodable("DiskLogEntry"@, details@),
    {
        Err(Error::DecodingFailed("DiskLogEntry".to_string(), details.to_string()))
    }

    /// Takes a record off the front of `src`, in the given byte order.
    pub fn decode_as(o: ByteOrder, src: &mut Bytes) -> (r: Result<Self, Error>)
        ensures
            match (decode_record(o, contents(*old(src))), r) {
                (Ok(rec), Ok(entry)) => {
                    &&& entry@ == rec
                    &&& entry._crc == u32_at(o, contents(*old(src)), 0)
                    &&& entry._len == record_len(o, contents(*old(src)))
                    &&& entry._ver == contents(*old(src))[16]
                    &&& entry._flags == contents(*old(src))[18]
                    &&& entry._resv == contents(*old(src))[19]
                },
                (Err(expected), Err(e)) => e@ == expected,
                _ => false,
            },
            contents(*final(src)) == contents(*old(src)).skip(
                record_consumed(o, contents(*old(src))),
            ),
    {
        let ghost s = contents(*src);
        let olen: usize = bytes_len(src);
        if olen < LOG_HEAD_SIZE {
            assert(s.skip(0) =~= s);
            return Self::decode_err("Buffer is too short to decode");
        }
        let head = bytes_as_slice(src);
        let recv_crc = o.get_u32(head, 0);
        let len_field = o.get_u32(head, 4);
        let lsn = o.get_u64(head, 8);
        let ver = head[16];
        let kind = head[17];
        let flags = head[18];
        let resv = head[19];
        let entry_len: usize = len_field as usize;
        if entry_len > olen - LOG_HEAD_SIZE {
            bytes_advance(src, 4);
            return Self::decode_err("len field is too large");
        }
        let calc_crc = crc32c(slice_subrange(head, 4, LOG_HEAD_SIZE + entry_len));
        if calc_crc != recv_crc {
            bytes_advance(src, 4);
            return Self::decode_err("CRC check failed");
        }
        let fullness = match Fullness::try_from(kind) {
            Ok(fullness) => fullness,
            Err(_) => {
                bytes_advance(src, 18);
                return Self::decode_err("Invalid fullness");
            },
        };
        bytes_advance(src, LOG_HEAD_SIZE);
        let payload = bytes_split_to(src, entry_len);
        proof {
            assert(s.skip(LOG_HEAD_SIZE as int).take(entry_len as int) =~= s.subrange(
                LOG_HEAD_SIZE as int,
                LOG_HEAD_SIZE + entry_len,
            ));
            assert(s.skip(LOG_HEAD_SIZE as int).skip(entry_len as int) =~= s.skip(
                LOG_HEAD_SIZE + entry_len,
            ));
        }
        Ok(
            Self {
                payload,
                _crc: recv_crc,
                _len: len_field,
                lsn,
                _ver: ver,
                fullness,
                _flags: flags,
                _resv: resv,
            },
        )
    }

    /// Takes a record off the front of `src`, in the byte order of the machine.
    pub fn decode(src: &mut Bytes) -> (r: Result<Self, Error>)
        ensures
            match (decode_record(native_order(), contents(*old(src))), r) {
                (Ok(rec), Ok(entry)) => {
                    &&& entry@ == rec
                    &&& entry._crc == u32_at(native_order(), contents(*old(src)), 0)
                    &&& entry._len == record_len(native_order(), contents(*old(src)))
                    &&& entry._ver == contents(*old(src))[16]
                    &&& entry._flags == contents(*old(src))[18]
                    &&& entry._resv == contents(*old(src))[19]
                },
                (Err(expected), Err(e)) => e@ == expected,
                _ => false,
            },
            contents(*final(src)) == contents(*old(src)).skip(
                record_consumed(native_order(), contents(*old(src))),
            ),
    {
        DiskLogEntry::decode_as(ByteOrder::native(), src)
    }
}

// ---------------------------------------------------------------------------------------------
// Block headers
// ---------------------------------------------------------------------------------------------

/// A decoded block header.
pub struct DiskBlockHeader {
    pub _crc: u32,
    pub _ver: u8,
    pub _resv: [u8; 3],
    /// The smallest LSN in the block.
    pub min_lsn: u64,
    /// The largest LSN in the block.
    pub max_lsn: u64,
    /// The smallest LSN that is needed of the whole log.
    pub whole_min_lsn: u64,
}

/// What a block header says.
pub struct Header {
    pub min_lsn: u64,
    pub max_lsn: u64,
    pub whole_min_lsn: u64,
}

impl View for DiskBlockHeader {
    type V = Header;

    open spec fn view(&self) -> Header {
        Header {
            min_lsn: self.min_lsn,
            max_lsn: self.max_lsn,
            whole_min_lsn: self.whole_min_lsn,
        }
    }
}

/// The header of a block that is still being filled: only its smallest LSN is known.
pub open spec fn open_header(o: ByteOrder, min_lsn: u64) -> Seq<u8> {
    u64_bytes(o, 0) + u64_bytes(o, min_lsn) + u64_bytes(o, 0) + u64_bytes(o, 0)
}

/// The header that `src` starts with, or why there is none.
pub open spec fn decode_header(o: ByteOrder, src: Seq<u8>) -> Result<Header, ErrorView> {
    let what = "DiskBlockHeader"@;
    if src.len() < BLOCK_HEAD_SIZE {
        Err(undecodable(what, "Buffer is too short to decode"@))
    } else if crc32c_of(src.subrange(4, BLOCK_HEAD_SIZE as int)) != u32_at(o, src, 0) {
        Err(ErrorView::CrcCheckFailed)
    } else if src[4] != 0 {
        Err(undecodable(what, "Invalid ver"@))
    } else if src[5] != 0 || src[6] != 0 || src[7] != 0 {
        Err(undecodable(what, "Invalid resv"@))
    } else {
        Ok(
            Header {
                min_lsn: u64_at(o, src, 8),
                max_lsn: u64_at(o, src, 16),
                whole_min_lsn: u64_at(o, src, 24),
            },
        )
    }
}

/// How many bytes of `src` an attempt to decode a header consumes.
pub open spec fn header_consumed(o: ByteOrder, src: Seq<u8>) -> int {
    if src.len() < BLOCK_HEAD_SIZE {
        0
    } else if crc32c_of(src.subrange(4, BLOCK_HEAD_SIZE as int)) != u32_at(o, src, 0) {
        4
    } else if src[4] != 0 {
        5
    } else if src[5] != 0 || src[6] != 0 || src[7] != 0 {
        8
    } else {
        BLOCK_HEAD_SIZE as int
    }
}

impl DiskBlockHeader {
    /// Appends the header of a block that is to be filled, in the given byte order.
    pub fn encode_as(o: ByteOrder, buf: &mut Vec<u8>, min_lsn: u64)
        ensures
            final(buf)@ == old(buf)@ + open_header(o, min_lsn),
    {
        o.put_u64(buf, 0);
        o.put_u64(buf, min_lsn);
        o.put_u64(buf, 0);
        o.put_u64(buf, 0);
        assert(buf@ =~= old(buf)@ + open_header(o, min_lsn));
    }

    /// Appends the header of a block that is to be filled, in the byte order of the machine.
    pub fn encode(buf: &mut Vec<u8>, min_lsn: u64)
        ensures
            final(buf)@ == old(buf)@ + open_header(native_order(), min_lsn),
    {
        DiskBlockHeader::encode_as(ByteOrder::native(), buf, min_lsn)
    }

    fn decode_err(details: &str) -> (r: Result<Self, Error>)
        ensures
            r matches Err(e) && e@ == undecodable("DiskBlockHeader"@, details@),
    {
        Err(Error::DecodingFailed("DiskBlockHeader".to_string(), details.to_string()))
    }

    /// Takes a header off the front of `src`, in the given byte order.
    pub fn decode_as(o: ByteOrder, src: &mut Bytes) -> (r: Result<Self, Error>)
        ensures
            match (decode_header(o, contents(*old(src))), r) {
                (Ok(h), Ok(header)) => {
                    &&& header@ == h
                    &&& header._crc == u32_at(o, contents(*old(src)), 0)
                    &&& header._ver == 0
                    &&& header._resv@ == seq![0u8, 0u8, 0u8]
                },
                (Err(expected), Err(e)) => e@ == expected,
                _ => false,
            },
            contents(*final(src)) == contents(*old(src)).skip(
                header_consumed(o, contents(*old(src))),
            ),
    {
        let ghost s = contents(*src);
        if bytes_len(src) < BLOCK_HEAD_SIZE {
            assert(s.skip(0) =~= s);
            return Self::decode_err("Buffer is too short to decode");
        }
        let head = bytes_as_slice(src);
        let recv_crc = o.get_u32(head, 0);
        let calc_crc = crc32c(slice_subrange(head, 4, BLOCK_HEAD_SIZE));
        let ver = head[4];
        let resv = [head[5], head[6], head[7]];
        let min_lsn = o.get_u64(head, 8);
        let max_lsn = o.get_u64(head, 16);
        let whole_min_lsn = o.get_u64(head, 24);
        if calc_crc != recv_crc {
            bytes_advance(src, 4);
            return Err(Error::CrcCheckFailed);
        }
        if ver != 0 {
            bytes_advance(src, 5);
            return Self::decode_err("Invalid ver");
        }
        if resv[0] != 0 || resv[1] != 0 || resv[2] != 0 {
            bytes_advance(src, 8);
            return Self::decode_err("Invalid resv");
        }
        bytes_advance(src, BLOCK_HEAD_SIZE);
        assert(resv@ =~= seq![0u8, 0u8, 0u8]);
        Ok(
            Self {
                _crc: recv_crc,
                _ver: ver,
                _resv: resv,
                min_lsn,
                max_lsn,
                whole_min_lsn,
            },
        )
    }

    /// Takes a header off the front of `src`, in the byte order of the machine.
    pub fn decode(src: &mut Bytes) -> (r: Result<Self, Error>)
        ensures
            match (decode_header(native_order(), contents(*old(src))), r) {
                (Ok(h), Ok(header)) => {
                    &&& header@ == h
                    &&& header._crc == u32_at(native_order(), contents(*old(src)), 0)
                    &&& header._ver == 0
                    &&& header._resv@ == seq![0u8, 0u8, 0u8]
                },
                (Err(expected), Err(e)) => e@ == expected,
                _ => false,
            },
            contents(*final(src)) == contents(*old(src)).skip(
                header_consumed(native_order(), contents(*old(src))),
            ),
    {
        DiskBlockHeader::decode_as(ByteOrder::native(), src)
    }
}

// ---------------------------------------------------------------------------------------------
// Manifest entries
// ---------------------------------------------------------------------------------------------

/// A decoded manifest entry.
pub struct DiskManiEntry {
    pub _crc: u32,
    pub _ver: u8,
    pub _resv: [u8; 3],
    /// The smallest LSN that is needed.
    pub min_lsn: u64,
}

impl Default for DiskManiEntry {
    fn default() -> (r: Self)
        ensures
            r._crc == 0,
            r._ver == 0,
            r._resv@ == seq![0u8, 0u8, 0u8],
            r.min_lsn == 0,
    {
        let resv = [0u8, 0u8, 0u8];
        assert(resv@ =~= seq![0u8, 0u8, 0u8]);
        Self { _crc: 0u32, _ver: 0, _resv: resv, min_lsn: 0 }
    }
}

/// `buf` with a manifest entry appended. The checksum covers all but the first four bytes of the
/// whole and replaces those.
pub open spec fn with_mani_entry(o: ByteOrder, buf: Seq<u8>, min_lsn: u64) -> Seq<u8> {
    let whole = buf + u64_bytes(o, 0) + u64_bytes(o, min_lsn);
    u32_bytes(o, crc32c_of(whole.skip(4))) + whole.skip(4)
}

/// A manifest entry on disk.
pub open spec fn mani_entry(o: ByteOrder, min_lsn: u64) -> Seq<u8> {
    with_mani_entry(o, Seq::empty(), min_lsn)
}

/// The smallest needed LSN that the manifest entry at the start of `src` keeps, or why there is
/// none.
pub open spec fn decode_mani(o: ByteOrder, src: Seq<u8>) -> Result<u64, ErrorView> {
    let what = "DiskManiEntry"@;
    if src.len() < MANI_ENTRY_SIZE {
        Err(undecodable(what, "Buffer is too short to decode"@))
    } else if crc32c_of(src.subrange(4, MANI_ENTRY_SIZE as int)) != u32_at(o, src, 0) {
        Err(undecodable(what, "CRC check failed"@))
    } else {
        Ok(u64_at(o, src, 8))
    }
}

/// How many bytes of `src` an attempt to decode a manifest entry consumes.
pub open spec fn mani_consumed(o: ByteOrder, src: Seq<u8>) -> int {
    if src.len() < MANI_ENTRY_SIZE {
        0
    } else if crc32c_of(src.subrange(4, MANI_ENTRY_SIZE as int)) != u32_at(o, src, 0) {
        4
    } else {
        MANI_ENTRY_SIZE as int
    }
}

impl DiskManiEntry {
    /// Appends a manifest entry, in the given byte order.
    pub fn encode_as(o: ByteOrder, buf: &mut Vec<u8>, min_lsn: u64)
        ensures
            final(buf)@ == with_mani_entry(o, old(buf)@, min_lsn),
    {
        o.put_u64(buf, 0);
        o.put_u64(buf, min_lsn);
        let ghost whole = buf@;
        let crc = crc32c(slice_subrange(buf.as_slice(), 4, buf.len()));
        assert(whole.subrange(4, whole.len() as int) =~= whole.skip(4));
        o.set_u32(buf, 0, crc);
        assert(buf@ =~= with_mani_entry(o, old(buf)@, min_lsn));
    }

    /// Appends a manifest entry, in the byte order of the machine.
    pub fn encode(buf: &mut Vec<u8>, min_lsn: u64)
        ensures
            final(buf)@ == with_mani_entry(native_order(), old(buf)@, min_lsn),
    {
        DiskManiEntry::encode_as(ByteOrder::native(), buf, min_lsn)
    }

    fn decode_err(details: &str) -> (r: Result<Self, Error>)
        ensures
            r matches Err(e) && e@ == undecodable("DiskManiEntry"@, details@),
    {
        Err(Error::DecodingFailed("DiskManiEntry".to_string(), details.to_string()))
    }

    /// Takes a manifest entry off the front of `src`, in the given byte order.
    pub fn decode_as(o: ByteOrder, src: &mut Bytes) -> (r: Result<Self, Error>)
        ensures
            match (decode_mani(o, contents(*old(src))), r) {
                (Ok(min_lsn), Ok(entry)) => {
                    &&& entry.min_lsn == min_lsn
                    &&& entry._crc == u32_at(o, contents(*old(src)), 0)
                    &&& entry._ver == contents(*old(src))[4]
                    &&& entry._resv@ == contents(*old(src)).subrange(5, 8)
                },
                (Err(expected), Err(e)) => e@ == expected,
                _ => false,
            },
            contents(*final(src)) == contents(*old(src)).skip(
                mani_consumed(o, contents(*old(src))),
            ),
    {
        let ghost s = contents(*src);
        if bytes_len(src) < MANI_ENTRY_SIZE {
            assert(s.skip(0) =~= s);
            return Self::decode_err("Buffer is too short to decode");
        }
        let head = bytes_as_slice(src);
        let recv_crc = o.get_u32(head, 0);
        let calc_crc = crc32c(slice_subrange(head, 4, MANI_ENTRY_SIZE));
        let ver = head[4];
        let resv = [head[5], head[6], head[7]];
        let min_lsn = o.get_u64(head, 8);
        if calc_crc != recv_crc {
            bytes_advance(src, 4);
            return Self::decode_err("CRC check failed");
        }
        bytes_advance(src, MANI_ENTRY_SIZE);
        assert(resv@ =~= s.subrange(5, 8));
        Ok(Self { _crc: recv_crc, _ver: ver, _resv: resv, min_lsn })
    }

    /// Takes a manifest entry off the front of `src`, in the byte order of the machine.
    pub fn decode(src: &mut Bytes) -> (r: Result<Self, Error>)
        ensures
            match (decode_mani(native_order(), contents(*old(src))), r) {
                (Ok(min_lsn), Ok(entry)) => {
                    &&& entry.min_lsn == min_lsn
                    &&& entry._crc == u32_at(native_order(), contents(*old(src)), 0)
                    &&& entry._ver == contents(*old(src))[4]
                    &&& entry._resv@ == contents(*old(src)).subrange(5, 8)
                },
                (Err(expected), Err(e)) => e@ == expected,
                _ => false,
            },
            contents(*final(src)) == contents(*old(src)).skip(
                mani_consumed(native_order(), contents(*old(src))),
            ),
    {
        DiskManiEntry::decode_as(ByteOrder::native(), src)
    }
}

// ---------------------------------------------------------------------------------------------
// Laws
// ---------------------------------------------------------------------------------------------

/// The codes of the parts of an entry. Other bytes stand for nothing.
pub proof fn law_fullness_codes(v: u8)
    ensures
        Fullness::Full.code() == 0,
        Fullness::First.code() == 1,
        Fullness::Middle.code() == 2,
        Fullness::Last.code() == 3,
        match Fullness::of_code(v) {
            Some(f) => f.code() == v,
            None => v > 3,
        },
{
}

/// A record is decoded exactly if it is all there, its checksum is that of what follows the checksum,
/// and it says which part of an entry it holds. Then it says what stands in it: the size of the payload
/// behind the checksum, then the LSN, then the kind of part, and the payload behind the 20 bytes of the
/// head.
pub proof fn law_decoded_record(o: ByteOrder, src: Seq<u8>)
    ensures
        decode_record(o, src) is Ok <==> {
            &&& src.len() >= 20
            &&& u32_at(o, src, 4) + 20 <= src.len()
            &&& crc32c_of(src.subrange(4, 20 + u32_at(o, src, 4))) == u32_at(o, src, 0)
            &&& src[17] <= 3
        },
        decode_record(o, src) matches Ok(rec) ==> {
            &&& rec.lsn == u64_at(o, src, 8)
            &&& rec.fullness.code() == src[17]
            &&& rec.payload == src.subrange(20, 20 + u32_at(o, src, 4))
            &&& record_consumed(o, src) == 20 + rec.payload.len()
        },
        0 <= record_consumed(o, src) <= src.len(),
        record_len(o, src) == u32_at(o, src, 4),
{
}

/// Why a record is not decoded.
pub proof fn law_undecodable_record(o: ByteOrder, src: Seq<u8>)
    ensures
        decode_record(o, src) matches Err(e) ==> {
            &&& e matches ErrorView::DecodingFailed(what, details)
            &&& what == "DiskLogEntry"@
            &&& src.len() < 20 ==> details == "Buffer is too short to decode"@
            &&& src.len() >= 20 && u32_at(o, src, 4) + 20 > src.len() ==> details
                == "len field is too large"@
            &&& src.len() >= 20 && u32_at(o, src, 4) + 20 <= src.len() && crc32c_of(
                src.subrange(4, 20 + u32_at(o, src, 4)),
            ) != u32_at(o, src, 0) ==> details == "CRC check failed"@
            &&& src.len() >= 20 && u32_at(o, src, 4) + 20 <= src.len() && crc32c_of(
                src.subrange(4, 20 + u32_at(o, src, 4)),
            ) == u32_at(o, src, 0) ==> details == "Invalid fullness"@
        },
{
}

/// A block header is decoded exactly if it is all there, its checksum is that of what follows the
/// checksum, and its version and what is reserved are zero. Then it gives the three LSNs that stand
/// in it.
pub proof fn law_decoded_header(o: ByteOrder, src: Seq<u8>)
    ensures
        decode_header(o, src) is Ok <==> {
            &&& src.len() >= 32
            &&& crc32c_of(src.subrange(4, 32)) == u32_at(o, src, 0)
            &&& src[4] == 0 && src[5] == 0 && src[6] == 0 && src[7] == 0
        },
        decode_header(o, src) matches Ok(h) ==> {
            &&& h.min_lsn == u64_at(o, src, 8)
            &&& h.max_lsn == u64_at(o, src, 16)
            &&& h.whole_min_lsn == u64_at(o, src, 24)
            &&& header_consumed(o, src) == 32
        },
        src.len() >= 32 && crc32c_of(src.subrange(4, 32)) != u32_at(o, src, 0) ==> decode_header(
            o,
            src,
        ) == Err::<Header, ErrorView>(ErrorView::CrcCheckFailed),
        0 <= header_consumed(o, src) <= src.len(),
{
}

/// Why a block header is not decoded.
pub proof fn law_undecodable_header(o: ByteOrder, src: Seq<u8>)
    ensures
        src.len() < 32 ==> decode_header(o, src) == Err::<Header, ErrorView>(
            ErrorView::DecodingFailed("DiskBlockHeader"@, "Buffer is too short to decode"@),
        ),
        src.len() >= 32 && crc32c_of(src.subrange(4, 32)) == u32_at(o, src, 0) && decode_header(
            o,
            src,
        ) is Err ==> decode_header(o, src) == Err::<Header, ErrorView>(
            ErrorView::DecodingFailed(
                "DiskBlockHeader"@,
                if src[4] != 0 {
                    "Invalid ver"@
                } else {
                    "Invalid resv"@
                },
            ),
        ),
{
}

/// A manifest entry is decoded exactly if it is all there and its checksum is that of what follows the
/// checksum. Then it gives the LSN that stands in it.
pub proof fn law_decoded_mani_entry(o: ByteOrder, src: Seq<u8>)
    ensures
        decode_mani(o, src) is Ok <==> {
            &&& src.len() >= 16
            &&& crc32c_of(src.subrange(4, 16)) == u32_at(o, src, 0)
        },
        decode_mani(o, src) matches Ok(min_lsn) ==> {
            &&& min_lsn == u64_at(o, src, 8)
            &&& mani_consumed(o, src) == 16
        },
        decode_mani(o, src) matches Err(e) ==> e == ErrorView::DecodingFailed(
            "DiskManiEntry"@,
            if src.len() < 16 {
                "Buffer is too short to decode"@
            } else {
                "CRC check failed"@
            },
        ),
        0 <= mani_consumed(o, src) <= src.len(),
{
}

/// What an attempt to decode consumes when it fails: what was looked at.
pub proof fn law_failed_decoding_consumes(o: ByteOrder, src: Seq<u8>)
    ensures
        src.len() < 20 ==> record_consumed(o, src) == 0,
        src.len() < 32 ==> header_consumed(o, src) == 0,
        src.len() < 16 ==> mani_consumed(o, src) == 0,
        src.len() >= 20 && decode_record(o, src) is Err ==> record_consumed(o, src) == (if u32_at(
            o,
            src,
            4,
        ) + 20 <= src.len() && crc32c_of(src.subrange(4, 20 + u32_at(o, src, 4))) == u32_at(
            o,
            src,
            0,
        ) {
            18int
        } else {
            4
        }),
        src.len() >= 32 && decode_header(o, src) is Err ==> header_consumed(o, src) == (if crc32c_of(
            src.subrange(4, 32),
        ) != u32_at(o, src, 0) {
            4int
        } else if src[4] != 0 {
            5
        } else {
            8
        }),
        src.len() >= 16 && decode_mani(o, src) is Err ==> mani_consumed(o, src) == 4,
{
}

} // verus!
