//! What is known of a log when it is opened: the range of LSNs that it still has to keep.
//!
//! It is found in the last sound entry of the manifest and in the header of the last block of data.
//! A rotation of the manifest that was just begun has no entry yet, and then the one before it is
//! looked at. A data rotation that was just begun has no block yet, and then its name says how far
//! the entries go.
//!
//! The largest LSN in that header counts also if its entry was only begun when the writing stopped.
//! The next entry gets the LSN behind it, and a replay from before such an entry ends there, though
//! what follows it is persisted: replays from behind it give that.
use super::disk::{
    decode_header, decode_mani, DiskBlockHeader, DiskManiEntry, MANI_ENTRY_SIZE,
};
use super::reader::{corrupt, corrupt_file, odd_size};
use crate::byteorder::ByteOrder;
use crate::outside::contents;
use crate::{Error, ErrorView};
use bytes::Bytes;
use vstd::prelude::*;

verus! {

/// What a [`LsnRestore`] was told.
pub enum RestoreEvent {
    /// There is no manifest.
    ManiMissing,
    /// The latest rotation of the manifest, or the older one that was asked for, is open and has that
    /// size.
    ManiOpened(u64),
    /// There is no older rotation of the manifest.
    ManiExhausted,
    /// The manifest entry that was asked for.
    ManiEntry(Bytes),
    /// There is no data.
    DataMissing,
    /// The latest rotation of the data is open: its size, and the LSN in its name.
    DataOpened(u64, u64),
    /// The block header that was asked for.
    DataHeader(Bytes),
    /// Something failed.
    Failed(Error),
}

/// What a [`LsnRestore`] asks for.
pub enum RestoreAction {
    /// Read the manifest entry at that position.
    ReadMani(u64),
    /// Open the rotation of the manifest before the one that is open.
    OpenOlderMani,
    /// Open the latest rotation of the data.
    OpenData,
    /// Read the block header at that position.
    ReadData(u64),
    /// Nothing: the smallest and the largest LSN are known.
    Done(u64, u64),
    /// Nothing: they could not be found.
    Fail(Error),
}

/// What a [`RestoreEvent`] says.
pub enum RestoreSeen {
    ManiMissing,
    ManiOpened(u64),
    ManiExhausted,
    ManiEntry(Seq<u8>),
    DataMissing,
    DataOpened(u64, u64),
    DataHeader(Seq<u8>),
    Failed(ErrorView),
}

/// What a [`RestoreAction`] says.
pub enum RestoreWants {
    ReadMani(u64),
    OpenOlderMani,
    OpenData,
    ReadData(u64),
    Done(u64, u64),
    Fail(ErrorView),
}

impl View for RestoreEvent {
    type V = RestoreSeen;

    open spec fn view(&self) -> RestoreSeen {
        match *self {
            RestoreEvent::ManiMissing => RestoreSeen::ManiMissing,
            RestoreEvent::ManiOpened(n) => RestoreSeen::ManiOpened(n),
            RestoreEvent::ManiExhausted => RestoreSeen::ManiExhausted,
            RestoreEvent::ManiEntry(b) => RestoreSeen::ManiEntry(contents(b)),
            RestoreEvent::DataMissing => RestoreSeen::DataMissing,
            RestoreEvent::DataOpened(n, lsn) => RestoreSeen::DataOpened(n, lsn),
            RestoreEvent::DataHeader(b) => RestoreSeen::DataHeader(contents(b)),
            RestoreEvent::Failed(e) => RestoreSeen::Failed(e@),
        }
    }
}

impl View for RestoreAction {
    type V = RestoreWants;

    open spec fn view(&self) -> RestoreWants {
        match *self {
            RestoreAction::ReadMani(n) => RestoreWants::ReadMani(n),
            RestoreAction::OpenOlderMani => RestoreWants::OpenOlderMani,
            RestoreAction::OpenData => RestoreWants::OpenData,
            RestoreAction::ReadData(n) => RestoreWants::ReadData(n),
            RestoreAction::Done(a, b) => RestoreWants::Done(a, b),
            RestoreAction::Fail(e) => RestoreWants::Fail(e@),
        }
    }
}

/// Where the last whole entry of a manifest of that size starts.
pub open spec fn last_mani_entry(size: u64) -> int {
    (size as int / MANI_ENTRY_SIZE as int - 1) * MANI_ENTRY_SIZE
}

/// The LSN before that one, if there is one.
pub open spec fn before(lsn: u64) -> u64 {
    if lsn == 0 {
        0
    } else {
        (lsn - 1) as u64
    }
}

/// The smallest and the largest LSN, given the smallest one in the manifest, and the smallest and
/// the largest one in the data.
pub open spec fn lsn_range(mani_min: u64, data_min: u64, data_max: u64) -> (u64, u64) {
    let min = if mani_min > data_min {
        mani_min
    } else {
        data_min
    };
    if min == 0 && data_max > 0 {
        (1, data_max)
    } else {
        (min, data_max)
    }
}

/// The state of a [`LsnRestore`].
#[verifier::ext_equal]
pub struct RestoreState {
    pub order: ByteOrder,
    pub block_size: int,
    /// Where the manifest entry that is looked at starts.
    pub mani_at: u64,
    /// The smallest needed LSN in the manifest.
    pub mani_min: u64,
}

impl RestoreState {
    /// The state after an event.
    pub open spec fn after(self, ev: RestoreSeen) -> RestoreState {
        match ev {
            RestoreSeen::ManiOpened(size) => RestoreState {
                mani_at: if size < MANI_ENTRY_SIZE {
                    0
                } else {
                    last_mani_entry(size) as u64
                },
                mani_min: 0,
                ..self
            },
            RestoreSeen::ManiEntry(src) => match decode_mani(self.order, src) {
                Ok(min_lsn) => RestoreState { mani_min: min_lsn, ..self },
                Err(_) => if self.mani_at >= MANI_ENTRY_SIZE {
                    RestoreState { mani_at: (self.mani_at - MANI_ENTRY_SIZE) as u64, ..self }
                } else {
                    self
                },
            },
            _ => self,
        }
    }

    /// What is asked for after an event.
    pub open spec fn asks(self, ev: RestoreSeen) -> RestoreWants {
        match ev {
            RestoreSeen::ManiMissing => RestoreWants::Done(0, 0),
            RestoreSeen::ManiExhausted => RestoreWants::OpenData,
            RestoreSeen::ManiOpened(size) => if size == 0 {
                RestoreWants::OpenOlderMani
            } else if size < MANI_ENTRY_SIZE {
                RestoreWants::Fail(corrupt("The manifest file is too small"@))
            } else {
                RestoreWants::ReadMani(last_mani_entry(size) as u64)
            },
            RestoreSeen::ManiEntry(src) => match decode_mani(self.order, src) {
                Ok(_) => RestoreWants::OpenData,
                Err(e) => if self.mani_at >= MANI_ENTRY_SIZE {
                    RestoreWants::ReadMani((self.mani_at - MANI_ENTRY_SIZE) as u64)
                } else {
                    RestoreWants::Fail(e)
                },
            },
            RestoreSeen::DataMissing => RestoreWants::Fail(ErrorView::MiscError("Missing data rotations"@)),
            RestoreSeen::DataOpened(size, lsn) => if size == 0 {
                let (min, max) = lsn_range(self.mani_min, 0, before(lsn));
                RestoreWants::Done(min, max)
            } else if size < self.block_size {
                RestoreWants::Fail(corrupt("The data file is too small"@))
            } else if size as int % self.block_size != 0 {
                RestoreWants::Fail(odd_size())
            } else {
                RestoreWants::ReadData((size - self.block_size) as u64)
            },
            RestoreSeen::DataHeader(src) => match decode_header(self.order, src) {
                Ok(h) => {
                    let (min, max) = lsn_range(self.mani_min, h.whole_min_lsn, h.max_lsn);
                    RestoreWants::Done(min, max)
                },
                Err(e) => RestoreWants::Fail(e),
            },
            RestoreSeen::Failed(e) => RestoreWants::Fail(e),
        }
    }
}

/// What reading the manifest leads to, entry by entry, from the one that is looked at on.
pub open spec fn mani_read(s: RestoreState, file: Seq<u8>) -> (RestoreState, RestoreWants)
    decreases s.mani_at,
{
    let at = s.mani_at as int;
    let ev = RestoreSeen::ManiEntry(file.subrange(at, at + MANI_ENTRY_SIZE));
    match s.asks(ev) {
        RestoreWants::ReadMani(_) if at >= MANI_ENTRY_SIZE => mani_read(s.after(ev), file),
        other => (s.after(ev), other),
    }
}

/// The last entry of the manifest that is sound is the one that counts: if the entry with the index
/// `k` can be decoded and none behind it can, up to the one that is looked at first, its smallest
/// needed LSN is found.
pub proof fn law_last_sound_entry_counts(s: RestoreState, file: Seq<u8>, j: int, k: int)
    requires
        0 <= k <= j,
        s.mani_at == j * MANI_ENTRY_SIZE,
        decode_mani(
            s.order,
            file.subrange(k * MANI_ENTRY_SIZE, k * MANI_ENTRY_SIZE + MANI_ENTRY_SIZE),
        ) is Ok,
        forall|i: int|
            k < i <= j ==> (#[trigger] decode_mani(
                s.order,
                file.subrange(i * MANI_ENTRY_SIZE, i * MANI_ENTRY_SIZE + MANI_ENTRY_SIZE),
            )) is Err,
    ensures
        mani_read(s, file).1 == RestoreWants::OpenData,
        Ok::<u64, ErrorView>(mani_read(s, file).0.mani_min) == decode_mani(
            s.order,
            file.subrange(k * MANI_ENTRY_SIZE, k * MANI_ENTRY_SIZE + MANI_ENTRY_SIZE),
        ),
    decreases j,
{
    if k < j {
        let at = s.mani_at as int;
        let ev = RestoreSeen::ManiEntry(file.subrange(at, at + MANI_ENTRY_SIZE));
        assert(decode_mani(
            s.order,
            file.subrange(j * MANI_ENTRY_SIZE, j * MANI_ENTRY_SIZE + MANI_ENTRY_SIZE),
        ) is Err);
        law_last_sound_entry_counts(s.after(ev), file, j - 1, k);
    }
}

/// When the range of LSNs is known, the smallest LSN of a reader is not above the largest one, and it
/// is zero exactly if the largest one is: then there is nothing to read.
pub proof fn law_readable_range(s: RestoreState, ev: RestoreSeen)
    ensures
        s.asks(ev) matches RestoreWants::Done(min, max) ==> {
            let r = readable(min, max);
            &&& r.0 <= r.1
            &&& r.0 == 0 <==> r.1 == 0
            &&& r.0 <= min
        },
{
}

/// The smallest and the largest LSN that can be read, given those that are needed and persisted: none,
/// if nothing that is needed has been persisted.
pub open spec fn readable(min_lsn: u64, max_lsn: u64) -> (u64, u64) {
    if max_lsn < min_lsn {
        (0, 0)
    } else {
        (min_lsn, max_lsn)
    }
}

/// Finds out the range of LSNs that a log has to keep.
pub struct LsnRestore {
    order: ByteOrder,
    block_size: u32,
    mani_at: u64,
    mani_min: u64,
}

impl View for LsnRestore {
    type V = RestoreState;

    closed spec fn view(&self) -> RestoreState {
        RestoreState {
            order: self.order,
            block_size: self.block_size as int,
            mani_at: self.mani_at,
            mani_min: self.mani_min,
        }
    }
}

fn done(mani_min: u64, data_min: u64, data_max: u64) -> (r: RestoreAction)
    ensures
        ({
            let (min, max) = lsn_range(mani_min, data_min, data_max);
            r@ == RestoreWants::Done(min, max)
        }),
{
    let min = if mani_min > data_min {
        mani_min
    } else {
        data_min
    };
    if min == 0 && data_max > 0 {
        RestoreAction::Done(1, data_max)
    } else {
        RestoreAction::Done(min, data_max)
    }
}

impl LsnRestore {
    /// Starts with nothing known.
    pub fn new(order: ByteOrder, block_size: u32) -> (r: Self)
        ensures
            r@ == (RestoreState {
                order,
                block_size: block_size as int,
                mani_at: 0,
                mani_min: 0,
            }),
    {
        LsnRestore { order, block_size, mani_at: 0, mani_min: 0 }
    }

    fn mani_opened(&mut self, size: u64) -> (r: RestoreAction)
        ensures
            final(self)@ == old(self)@.after(RestoreSeen::ManiOpened(size)),
            r@ == old(self)@.asks(RestoreSeen::ManiOpened(size)),
    {
        self.mani_at = 0;
        self.mani_min = 0;
        let entry_size: u64 = MANI_ENTRY_SIZE as u64;
        if size == 0 {
            RestoreAction::OpenOlderMani
        } else if size < entry_size {
            RestoreAction::Fail(corrupt_file("The manifest file is too small"))
        } else {
            assert(1 <= size / entry_size && (size / entry_size) * entry_size <= size)
                by (nonlinear_arith)
                requires
                    entry_size == 16,
                    size >= entry_size,
            ;
            assert((size / entry_size - 1) * entry_size == (size / entry_size) * entry_size
                - entry_size) by (nonlinear_arith);
            self.mani_at = (size / entry_size - 1) * entry_size;
            RestoreAction::ReadMani(self.mani_at)
        }
    }

    fn read_latest_manifest_entry(&mut self, src: Bytes) -> (r: RestoreAction)
        ensures
            final(self)@ == old(self)@.after(RestoreSeen::ManiEntry(contents(src))),
            r@ == old(self)@.asks(RestoreSeen::ManiEntry(contents(src))),
    {
        let mut src = src;
        match DiskManiEntry::decode_as(self.order, &mut src) {
            Ok(entry) => {
                self.mani_min = entry.min_lsn;
                RestoreAction::OpenData
            },
            Err(e) => {
                // the entry before it may be sound
                let entry_size: u64 = MANI_ENTRY_SIZE as u64;
                if self.mani_at < entry_size {
                    return RestoreAction::Fail(e);
                }
                self.mani_at = self.mani_at - entry_size;
                RestoreAction::ReadMani(self.mani_at)
            },
        }
    }

    fn data_opened(&self, size: u64, lsn: u64) -> (r: RestoreAction)
        requires
            0 < self@.block_size,
        ensures
            r@ == self@.asks(RestoreSeen::DataOpened(size, lsn)),
    {
        let block_size: u64 = self.block_size as u64;
        if size == 0 {
            let max = if lsn == 0 {
                0
            } else {
                lsn - 1
            };
            done(self.mani_min, 0, max)
        } else if size < block_size {
            RestoreAction::Fail(corrupt_file("The data file is too small"))
        } else if size % block_size != 0 {
            RestoreAction::Fail(corrupt_file("File size is not multiple of block size"))
        } else {
            RestoreAction::ReadData(size - block_size)
        }
    }

    fn restore_lsn_from_data(&self, src: Bytes) -> (r: RestoreAction)
        ensures
            r@ == self@.asks(RestoreSeen::DataHeader(contents(src))),
    {
        let mut src = src;
        match DiskBlockHeader::decode_as(self.order, &mut src) {
            Ok(header) => done(self.mani_min, header.whole_min_lsn, header.max_lsn),
            Err(e) => RestoreAction::Fail(e),
        }
    }

    /// Takes one more step in finding out the range of LSNs.
    pub fn restore_lsn(&mut self, ev: RestoreEvent) -> (r: RestoreAction)
        requires
            0 < old(self)@.block_size,
        ensures
            final(self)@ == old(self)@.after(ev@),
            r@ == old(self)@.asks(ev@),
    {
        match ev {
            RestoreEvent::ManiMissing => RestoreAction::Done(0, 0),
            RestoreEvent::ManiOpened(size) => self.mani_opened(size),
            RestoreEvent::ManiExhausted => RestoreAction::OpenData,
            RestoreEvent::ManiEntry(src) => self.read_latest_manifest_entry(src),
            RestoreEvent::DataMissing => RestoreAction::Fail(
                Error::MiscError("Missing data rotations".to_string()),
            ),
            RestoreEvent::DataOpened(size, lsn) => self.data_opened(size, lsn),
            RestoreEvent::DataHeader(src) => self.restore_lsn_from_data(src),
            RestoreEvent::Failed(e) => RestoreAction::Fail(e),
        }
    }
}

/// What is found is what the files keep: the largest LSN is the one of the data, and the smallest one is
/// the larger one of those in the manifest and in the data. It is never zero when there is data, because
/// the LSNs start at one.
pub proof fn law_found_range(mani_min: u64, data_min: u64, data_max: u64)
    ensures
        ({
            let (min, max) = lsn_range(mani_min, data_min, data_max);
            &&& max == data_max
            &&& min >= mani_min && min >= data_min
            &&& mani_min > 0 || data_min > 0 ==> min == mani_min || min == data_min
            &&& mani_min == 0 && data_min == 0 ==> min == (if data_max > 0 {
                1u64
            } else {
                0
            })
        }),
{
}

/// The manifest is read from its last whole entry on. A manifest that is empty is passed over, and one
/// that is too small for an entry is refused.
pub proof fn law_manifest_is_read_from_the_end(s: RestoreState, size: u64)
    ensures
        match s.asks(RestoreSeen::ManiOpened(size)) {
            RestoreWants::ReadMani(at) => {
                &&& at % 16 == 0
                &&& at + 16 <= size < at + 32
                &&& s.after(RestoreSeen::ManiOpened(size)) == (RestoreState {
                    mani_at: at,
                    mani_min: 0,
                    ..s
                })
            },
            RestoreWants::OpenOlderMani => size == 0,
            RestoreWants::Fail(e) => 0 < size < 16 && e == ErrorView::CorruptFile(
                "The manifest file is too small"@,
            ),
            _ => false,
        },
        size >= 16 ==> s.asks(RestoreSeen::ManiOpened(size)) is ReadMani,
{
    if size >= 16 {
        let q = size as int / 16;
        assert(last_mani_entry(size) == (q - 1) * 16);
    }
}

/// The entry of the manifest that was read counts if it can be decoded. Otherwise the one before it is
/// read, and when there is none, what was wrong with it is reported.
pub proof fn law_damaged_manifest_entry_is_passed_over(s: RestoreState, src: Seq<u8>)
    ensures
        match decode_mani(s.order, src) {
            Ok(min_lsn) => {
                &&& s.asks(RestoreSeen::ManiEntry(src)) == RestoreWants::OpenData
                &&& s.after(RestoreSeen::ManiEntry(src)) == (RestoreState {
                    mani_min: min_lsn,
                    ..s
                })
            },
            Err(e) => if s.mani_at >= 16 {
                &&& s.asks(RestoreSeen::ManiEntry(src)) == RestoreWants::ReadMani(
                    (s.mani_at - 16) as u64,
                )
                &&& s.after(RestoreSeen::ManiEntry(src)) == (RestoreState {
                    mani_at: (s.mani_at - 16) as u64,
                    ..s
                })
            } else {
                s.asks(RestoreSeen::ManiEntry(src)) == RestoreWants::Fail(e)
            },
        },
{
}

/// The header of the last block of the data is read, if there is one, and the data consists of whole
/// blocks. If there is none, the name of the rotation says how far the entries go.
pub proof fn law_last_header_is_read(s: RestoreState, size: u64, lsn: u64)
    requires
        0 < s.block_size,
    ensures
        match s.asks(RestoreSeen::DataOpened(size, lsn)) {
            RestoreWants::ReadData(at) => {
                &&& size > 0
                &&& size as int % s.block_size == 0
                &&& at + s.block_size == size
            },
            RestoreWants::Done(min, max) => {
                &&& size == 0
                &&& max == (if lsn == 0 {
                    0
                } else {
                    lsn - 1
                })
                &&& s.mani_min > 0 || max == 0 ==> min == s.mani_min
                &&& s.mani_min == 0 && max > 0 ==> min == 1
            },
            RestoreWants::Fail(e) => {
                &&& size > 0
                &&& size as int % s.block_size != 0
                &&& e == ErrorView::CorruptFile(
                    if size < s.block_size {
                        "The data file is too small"@
                    } else {
                        "File size is not multiple of block size"@
                    },
                )
            },
            _ => false,
        },
{
    if 0 < size < s.block_size {
        vstd::arithmetic::div_mod::lemma_small_mod(size as nat, s.block_size as nat);
    } else if size > 0 && size as int % s.block_size == 0 {
        assert(size >= s.block_size);
    }
}

/// A header that was read gives the largest LSN, and a smallest one that is below neither the manifest
/// nor the header. One that cannot be decoded is reported.
pub proof fn law_header_gives_range(s: RestoreState, src: Seq<u8>)
    ensures
        match (decode_header(s.order, src), s.asks(RestoreSeen::DataHeader(src))) {
            (Ok(h), RestoreWants::Done(min, max)) => {
                &&& max == h.max_lsn
                &&& min >= s.mani_min && min >= h.whole_min_lsn
                &&& s.mani_min > 0 || h.whole_min_lsn > 0 || max == 0 ==> min == s.mani_min || min
                    == h.whole_min_lsn
                &&& s.mani_min == 0 && h.whole_min_lsn == 0 && max > 0 ==> min == 1
            },
            (Err(e), RestoreWants::Fail(reported)) => reported == e,
            _ => false,
        },
{
}

/// What the manifest said is kept while the data is looked at.
pub proof fn law_manifest_counts_to_the_end(s: RestoreState, ev: RestoreSeen)
    ensures
        !(ev is ManiOpened) && !(ev is ManiEntry) ==> s.after(ev) == s,
        s.after(ev).order == s.order,
        s.after(ev).block_size == s.block_size,
{
}

/// A log without a manifest is new, one without data is refused, and what failed is reported.
pub proof fn law_missing_files(s: RestoreState, e: ErrorView)
    ensures
        s.asks(RestoreSeen::ManiMissing) == RestoreWants::Done(0, 0),
        s.asks(RestoreSeen::ManiExhausted) == RestoreWants::OpenData,
        s.asks(RestoreSeen::DataMissing) == RestoreWants::Fail(
            ErrorView::MiscError("Missing data rotations"@),
        ),
        s.asks(RestoreSeen::Failed(e)) == RestoreWants::Fail(e),
{
}

} // verus!
