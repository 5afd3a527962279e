//! The writing side of the log: entries are put into blocks, and full blocks are flushed to the
//! current data rotation.
//!
//! [`FlushingControlBlock`] decides what to write and when. It hands out [`FlushOp`]s, which the
//! flushing thread performs in order; when one of them fails, the thread stops for good.
use super::config::TunableConfig;
use super::disk::{
    mani_entry, open_header, DiskBlockHeader, DiskLogEntry, DiskManiEntry, Fullness, Record,
    BLOCK_HEAD_SIZE, LOG_HEAD_SIZE,
};
use super::names::{data_rot_name, WalDataRotNameProvider};
use super::LogEntry;
use crate::appender::{DefaultRotator, RotAppender};
use crate::byteorder::{overwritten, u32_bytes, u64_bytes, ByteOrder};
use crate::outside::{bytes_len, bytes_split_to, contents, crc32c, crc32c_of};
use bytes::Bytes;
use vstd::prelude::*;
use vstd::slice::slice_subrange;

verus! {

/// Something that the flushing thread has to do.
pub enum FlushOp {
    /// Append these bytes to the manifest, let it switch rotations if it is full, and synchronize.
    AppendMani(Vec<u8>),
    /// Append these bytes to the current data rotation.
    AppendData(Vec<u8>),
    /// Flush and synchronize the current data rotation.
    SyncData,
    /// Create the data rotation of that name and make it the current one.
    NewDataRot(String),
    /// Remove the data rotations that hold only entries below that LSN, and report back.
    ReleaseRots(u64),
    /// Publish that all entries up to that LSN have been persisted.
    SetMaxLsn(u64),
}

/// What a [`FlushOp`] says.
pub enum Op {
    AppendMani(Seq<u8>),
    AppendData(Seq<u8>),
    SyncData,
    NewDataRot(Seq<char>),
    ReleaseRots(u64),
    SetMaxLsn(u64),
}

impl View for FlushOp {
    type V = Op;

    open spec fn view(&self) -> Op {
        match *self {
            FlushOp::AppendMani(b) => Op::AppendMani(b@),
            FlushOp::AppendData(b) => Op::AppendData(b@),
            FlushOp::SyncData => Op::SyncData,
            FlushOp::NewDataRot(n) => Op::NewDataRot(n@),
            FlushOp::ReleaseRots(l) => Op::ReleaseRots(l),
            FlushOp::SetMaxLsn(l) => Op::SetMaxLsn(l),
        }
    }
}

/// What a sequence of [`FlushOp`]s says.
pub open spec fn ops(v: Seq<FlushOp>) -> Seq<Op> {
    v.map_values(|op: FlushOp| op@)
}

/// How the flushing thread passes the time until it looks for entries again.
#[derive(Clone, Copy, Debug, PartialEq, Eq, Structural)]
pub enum Pause {
    NoPause,
    Spin,
    Yield,
    Sleep,
}

/// The entry that is being written: what is left of it, and whether a part is already written.
pub struct Pending {
    pub lsn: u64,
    pub left: Seq<u8>,
    pub split: bool,
}

/// The state of a [`FlushingControlBlock`].
#[verifier::ext_equal]
pub struct FlushState {
    pub order: ByteOrder,
    pub block_size: int,
    pub buf_size: int,
    pub checks_log: u32,
    pub checks_adv_lsn: u32,
    /// What is to be flushed to the current data rotation.
    pub buf: Seq<u8>,
    pub pending: Option<Pending>,
    pub last_filled_lsn: u64,
    pub max_flushed_lsn: u64,
    pub last_min_lsn: u64,
    /// The smallest needed LSN in the manifest entry that was written last; zero if none was.
    pub mani_min_lsn: u64,
    pub next_no_use_lsn: u64,
    pub log_check_cnt: u32,
    pub adv_lsn_check_cnt: u32,
    pub backoff: u32,
    /// The size of the current data rotation.
    pub rot_size: u64,
    /// The size from which on a data rotation is followed by a new one.
    pub rot_size_max: u64,
    pub rot_no: u32,
    pub prefix: Seq<char>,
    /// The LSN of the first entry that the next rotation will hold.
    pub rot_lsn: u64,
}

/// `buf` with the header of the block that starts at `start` completed.
pub open spec fn sealed_block(
    o: ByteOrder,
    buf: Seq<u8>,
    start: int,
    max_lsn: u64,
    whole_min_lsn: u64,
) -> Seq<u8> {
    let b = overwritten(
        overwritten(buf, start + 16, u64_bytes(o, max_lsn)),
        start + 24,
        u64_bytes(o, whole_min_lsn),
    );
    overwritten(b, start, u32_bytes(o, crc32c_of(b.subrange(start + 4, start + BLOCK_HEAD_SIZE))))
}

/// So many zeros.
pub open spec fn zeros(n: int) -> Seq<u8> {
    Seq::new(n as nat, |i: int| 0u8)
}

impl FlushState {
    /// Whether the current data rotation has reached the size at which a new one is started.
    pub open spec fn rot_full(self) -> bool {
        self.rot_size >= self.rot_size_max
    }

    /// Whether the buffer ends at the end of a block.
    pub open spec fn aligned(self) -> bool {
        self.buf.len() % self.block_size as nat == 0
    }

    /// Whether the block that is being filled holds no record yet.
    pub open spec fn unfilled(self) -> bool {
        self.buf.len() % self.block_size as nat == BLOCK_HEAD_SIZE
    }

    /// The room left in the block that is being filled.
    pub open spec fn room(self) -> int {
        self.block_size - self.buf.len() % self.block_size as nat
    }

    /// The state with the header of the last block in the buffer completed.
    pub open spec fn sealed(self, min_lsn: u64) -> FlushState {
        if self.buf.len() == 0 {
            self
        } else {
            let start = (self.buf.len() - 1) / self.block_size * self.block_size;
            FlushState {
                buf: sealed_block(self.order, self.buf, start, self.last_filled_lsn, min_lsn),
                last_min_lsn: min_lsn,
                ..self
            }
        }
    }

    /// The state in which there is a block with room for records: at the end of a block the next
    /// one is begun.
    pub open spec fn begun(self, min_lsn: u64) -> FlushState {
        if self.aligned() {
            let s = self.sealed(min_lsn);
            FlushState { buf: s.buf + open_header(s.order, s.pending->0.lsn), ..s }
        } else {
            self
        }
    }

    /// The state after as much as possible of the pending entry went into the block: all of it, a
    /// part that fills the block, or nothing, and then the block is filled with zeros. An entry is
    /// not cut when the rotation is full, unless it already was or not even an empty block holds it.
    pub open spec fn placed(self) -> FlushState {
        let p = self.pending->0;
        let n = self.room() - LOG_HEAD_SIZE;
        if p.left.len() <= n {
            let fullness = if p.split {
                Fullness::Last
            } else {
                Fullness::Full
            };
            FlushState {
                buf: self.buf + (Record { lsn: p.lsn, fullness, payload: p.left }).bytes(
                    self.order,
                ),
                pending: None,
                last_filled_lsn: p.lsn,
                max_flushed_lsn: p.lsn,
                ..self
            }
        } else if 0 < n && (p.split || !self.rot_full() || self.unfilled()) {
            let fullness = if p.split {
                Fullness::Middle
            } else {
                Fullness::First
            };
            FlushState {
                buf: self.buf + (Record { lsn: p.lsn, fullness, payload: p.left.take(n) }).bytes(
                    self.order,
                ),
                pending: Some(Pending { lsn: p.lsn, left: p.left.skip(n), split: true }),
                last_filled_lsn: p.lsn,
                ..self
            }
        } else {
            FlushState { buf: self.buf + zeros(self.room()), ..self }
        }
    }

    /// The state after a manifest entry was written.
    pub open spec fn noted(self, min_lsn: u64) -> FlushState {
        FlushState { last_min_lsn: min_lsn, mani_min_lsn: min_lsn, adv_lsn_check_cnt: 0, ..self }
    }

    /// Whether flushing the buffer completes the current rotation.
    pub open spec fn rotates(self, rotatable: bool) -> bool {
        rotatable && self.rot_size + self.buf.len() >= self.rot_size_max
    }

    /// Whether the smallest needed LSN goes to the manifest before the buffer is flushed: an empty
    /// rotation, which follows when the current one is complete, does not hold it. When the rotation
    /// is already full, an LSN that has grown goes there in any case.
    pub open spec fn notes_first(self, rotatable: bool, min_lsn: u64) -> bool {
        ||| self.rotates(rotatable) && min_lsn > self.mani_min_lsn
        ||| self.rot_full() && min_lsn > self.last_min_lsn
    }

    /// The state after the buffer was flushed.
    pub open spec fn flushed(self, rotatable: bool, min_lsn: u64) -> FlushState {
        let s = if self.notes_first(rotatable, min_lsn) {
            self.noted(min_lsn)
        } else {
            self
        };
        FlushState {
            buf: Seq::empty(),
            log_check_cnt: 0,
            adv_lsn_check_cnt: 0,
            rot_lsn: (s.last_filled_lsn + 1) as u64,
            rot_size: if s.rotates(rotatable) {
                0
            } else {
                (s.rot_size + s.buf.len()) as u64
            },
            rot_no: if s.rotates(rotatable) {
                (s.rot_no + 1) as u32
            } else {
                s.rot_no
            },
            ..s
        }
    }

    /// What flushing the buffer takes.
    pub open spec fn flush_ops(self, rotatable: bool, min_lsn: u64) -> Seq<Op> {
        let note = if self.notes_first(rotatable, min_lsn) {
            seq![Op::AppendMani(mani_entry(self.order, min_lsn))]
        } else {
            Seq::empty()
        };
        let rot = if self.rotates(rotatable) {
            seq![
                Op::NewDataRot(
                    data_rot_name(
                        self.prefix,
                        (self.rot_no + 1) as u32,
                        (self.last_filled_lsn + 1) as u64,
                    ),
                ),
                Op::ReleaseRots(min_lsn),
            ]
        } else {
            Seq::empty()
        };
        let publish = if rotatable {
            seq![Op::SetMaxLsn(self.max_flushed_lsn)]
        } else {
            Seq::empty()
        };
        note + seq![Op::AppendData(self.buf), Op::SyncData] + rot + publish
    }

    /// Whether no part of the pending entry, if there is one, is written yet.
    pub open spec fn whole(self) -> bool {
        self.pending is Some ==> !self.pending->0.split
    }

    /// Whether the buffer is flushed after something was placed in it: when it is full, or at the
    /// end of a block when the rotation is.
    pub open spec fn flushes(self) -> bool {
        self.buf.len() == self.buf_size || (self.rot_full() && self.aligned())
    }

    /// The state after one step of writing the pending entry.
    pub open spec fn filled(self, min_lsn: u64, flush_min_lsn: u64) -> FlushState {
        let s = self.begun(min_lsn).placed();
        if s.flushes() {
            s.sealed(min_lsn).flushed(s.whole(), flush_min_lsn)
        } else {
            s
        }
    }

    /// What one step of writing the pending entry takes.
    pub open spec fn fill_ops(self, min_lsn: u64, flush_min_lsn: u64) -> Seq<Op> {
        let s = self.begun(min_lsn).placed();
        if s.flushes() {
            s.sealed(min_lsn).flush_ops(s.whole(), flush_min_lsn)
        } else {
            Seq::empty()
        }
    }

    /// The invariant: blocks have room for a header and a record, and the buffer holds whole
    /// blocks when it is full.
    pub open spec fn wf(self) -> bool {
        &&& BLOCK_HEAD_SIZE + LOG_HEAD_SIZE < self.block_size <= u32::MAX
        &&& 0 < self.buf_size <= u32::MAX
        &&& self.buf_size % self.block_size == 0
        &&& self.buf.len() < self.buf_size
        &&& !self.aligned() ==> self.buf.len() % self.block_size as nat >= BLOCK_HEAD_SIZE
        &&& self.pending is Some ==> self.pending->0.lsn < u64::MAX
        &&& self.last_filled_lsn < u64::MAX
        &&& self.log_check_cnt <= self.checks_log
        &&& self.adv_lsn_check_cnt <= self.checks_adv_lsn
        &&& self.backoff <= 201
    }

    /// Whether sizes and rotation numbers stay in the range of their types when the buffer is
    /// flushed.
    pub open spec fn has_room(self) -> bool {
        &&& self.rot_no < u32::MAX
        &&& self.rot_size + self.buf_size <= u64::MAX
    }
}

impl FlushState {
    /// Whether what is buffered has waited long enough.
    pub open spec fn overdue(self) -> bool {
        self.buf.len() > 0 && self.log_check_cnt >= self.checks_log
    }

    /// The state with the block that is being filled completed by zeros.
    pub open spec fn padded(self) -> FlushState {
        if self.aligned() {
            self
        } else {
            FlushState { buf: self.buf + zeros(self.room()), ..self }
        }
    }

    /// The state after the buffer was flushed if it was overdue.
    pub open spec fn timed(self, min_lsn: u64, flush_min_lsn: u64) -> FlushState {
        if self.overdue() {
            self.padded().sealed(min_lsn).flushed(true, flush_min_lsn)
        } else {
            self
        }
    }

    /// What flushing an overdue buffer takes.
    pub open spec fn timed_ops(self, min_lsn: u64, flush_min_lsn: u64) -> Seq<Op> {
        if self.overdue() {
            self.padded().sealed(min_lsn).flush_ops(true, flush_min_lsn)
        } else {
            Seq::empty()
        }
    }

    /// Whether the smallest needed LSN has left a rotation behind.
    pub open spec fn releases(self, min_lsn: u64) -> bool {
        min_lsn > self.last_min_lsn && min_lsn >= self.next_no_use_lsn
    }

    /// The state after rotations were released, if some were.
    pub open spec fn released(self, min_lsn: u64) -> FlushState {
        if self.releases(min_lsn) {
            self.noted(min_lsn)
        } else {
            self
        }
    }

    /// Whether an advanced LSN has waited long enough to be persisted.
    pub open spec fn persists(self, min_lsn: u64) -> bool {
        min_lsn > self.last_min_lsn && self.released(min_lsn).adv_lsn_check_cnt
            >= self.checks_adv_lsn
    }

    /// The state after the smallest needed LSN was looked at.
    pub open spec fn advanced(self, min_lsn: u64) -> FlushState {
        if self.persists(min_lsn) {
            self.noted(min_lsn)
        } else {
            self.released(min_lsn)
        }
    }

    /// What a look at the smallest needed LSN takes.
    pub open spec fn advance_ops(self, min_lsn: u64) -> Seq<Op> {
        let entry = Op::AppendMani(mani_entry(self.order, min_lsn));
        let release = if self.releases(min_lsn) {
            seq![entry, Op::ReleaseRots(min_lsn)]
        } else {
            Seq::empty()
        };
        let persist = if self.persists(min_lsn) {
            seq![entry]
        } else {
            Seq::empty()
        };
        release + persist
    }

    /// The state after a round in which there was something to do, or nothing.
    pub open spec fn rested(self, idle: bool, min_lsn: u64) -> FlushState {
        if !idle {
            FlushState { backoff: 0, ..self }
        } else {
            let backoff = if self.backoff <= 200 {
                (self.backoff + 1) as u32
            } else {
                self.backoff
            };
            if backoff <= 100 {
                FlushState { backoff, ..self }
            } else {
                FlushState {
                    backoff,
                    log_check_cnt: if self.buf.len() > 0 {
                        (self.log_check_cnt + 1) as u32
                    } else {
                        self.log_check_cnt
                    },
                    adv_lsn_check_cnt: if min_lsn > self.last_min_lsn {
                        (self.adv_lsn_check_cnt + 1) as u32
                    } else {
                        self.adv_lsn_check_cnt
                    },
                    ..self
                }
            }
        }
    }

    /// How the thread pauses in the state after a round: longer the more rounds there was nothing
    /// to do.
    pub open spec fn pause(self) -> Pause {
        if self.backoff == 0 {
            Pause::NoPause
        } else if self.backoff <= 100 {
            Pause::Spin
        } else if self.backoff <= 200 {
            Pause::Yield
        } else {
            Pause::Sleep
        }
    }

    /// Whether a round had nothing to do.
    pub open spec fn idles(self, noop: bool, min_lsn: u64) -> bool {
        noop && !self.releases(min_lsn) && !self.persists(min_lsn)
    }

    /// The state after a round, in which nothing is overdue any more.
    pub open spec fn round_ended(self, noop: bool, min_lsn: u64) -> FlushState {
        self.advanced(min_lsn).rested(self.idles(noop, min_lsn), min_lsn)
    }
}

/// Where the last block of so many bytes starts.
pub proof fn lemma_last_block(len: int, bs: int)
    requires
        0 < len,
        0 < bs,
    ensures
        ({
            let start = (len - 1) / bs * bs;
            &&& 0 <= start < len <= start + bs
            &&& start % bs == 0
            &&& len % bs == 0 ==> start + bs == len
            &&& len % bs != 0 ==> start + len % bs == len
        }),
{
    let q = (len - 1) / bs;
    vstd::arithmetic::div_mod::lemma_fundamental_div_mod(len - 1, bs);
    vstd::arithmetic::div_mod::lemma_mod_multiples_basic(q, bs);
    assert(q * bs == bs * q) by (nonlinear_arith);
    let r = len - q * bs;
    assert(1 <= r <= bs);
    assert(q >= 0) by (nonlinear_arith)
        requires
            q == (len - 1) / bs,
            len > 0,
            bs > 0,
    ;
    assert(q * bs >= 0) by (nonlinear_arith)
        requires
            q >= 0,
            bs > 0,
    ;
    if r == bs {
        assert(len == bs * (q + 1)) by (nonlinear_arith)
            requires
                len - q * bs == bs,
        ;
        vstd::arithmetic::div_mod::lemma_mod_multiples_basic(q + 1, bs);
        assert((q + 1) * bs == bs * (q + 1)) by (nonlinear_arith);
    } else {
        vstd::arithmetic::div_mod::lemma_fundamental_div_mod_converse(len, bs, q, r);
    }
}

/// A block that is begun below a multiple of the block size ends below it too.
pub proof fn lemma_block_fits(len: int, total: int, bs: int)
    requires
        0 <= len < total,
        0 < bs,
        total % bs == 0,
    ensures
        len - len % bs + bs <= total,
        0 <= len % bs < bs,
{
    vstd::arithmetic::div_mod::lemma_fundamental_div_mod(len, bs);
    vstd::arithmetic::div_mod::lemma_fundamental_div_mod(total, bs);
    let a = len / bs;
    let b = total / bs;
    assert(a < b) by (nonlinear_arith)
        requires
            bs * a <= len,
            len < total,
            total == bs * b,
            bs > 0,
    ;
    assert(bs * a + bs <= bs * b) by (nonlinear_arith)
        requires
            a < b,
            bs > 0,
    ;
}

/// Adding within a block.
pub proof fn lemma_within_block(len: int, n: int, bs: int)
    requires
        0 <= len,
        0 < bs,
        0 <= n,
        len % bs + n <= bs,
    ensures
        len % bs + n < bs ==> (len + n) % bs == len % bs + n,
        len % bs + n == bs ==> (len + n) % bs == 0,
{
    vstd::arithmetic::div_mod::lemma_fundamental_div_mod(len, bs);
    let q = len / bs;
    if len % bs + n < bs {
        assert(len + n == q * bs + (len % bs + n)) by (nonlinear_arith)
            requires
                len == bs * q + len % bs,
        ;
        vstd::arithmetic::div_mod::lemma_fundamental_div_mod_converse(
            len + n,
            bs,
            q,
            len % bs + n,
        );
    } else {
        assert(len + n == (q + 1) * bs + 0) by (nonlinear_arith)
            requires
                len == bs * q + len % bs,
                len % bs + n == bs,
        ;
        vstd::arithmetic::div_mod::lemma_fundamental_div_mod_converse(len + n, bs, q + 1, 0);
    }
}

/// Completing a header changes no length.
pub proof fn lemma_sealed(s: FlushState, min_lsn: u64)
    requires
        sealable(s),
    ensures
        s.sealed(min_lsn).buf.len() == s.buf.len(),
{
    if s.buf.len() > 0 {
        lemma_last_block(s.buf.len() as int, s.block_size);
    }
}

/// The sizes when a block is begun.
pub proof fn lemma_begun(s: FlushState, min_lsn: u64)
    requires
        s.wf(),
    ensures
        ({
            let b = s.begun(min_lsn);
            &&& b.buf.len() == s.buf.len() + (if s.aligned() {
                BLOCK_HEAD_SIZE as int
            } else {
                0
            })
            &&& BLOCK_HEAD_SIZE <= b.buf.len() % b.block_size as nat
            &&& 0 < b.room()
            &&& b.buf.len() + b.room() <= b.buf_size
        }),
{
    lemma_sealed(s, min_lsn);
    lemma_block_fits(s.buf.len() as int, s.buf_size, s.block_size);
    if s.aligned() {
        lemma_within_block(s.buf.len() as int, BLOCK_HEAD_SIZE as int, s.block_size);
    }
}

/// The sizes when something is placed.
pub proof fn lemma_placed(b: FlushState)
    requires
        b.pending is Some,
        0 < b.block_size,
        BLOCK_HEAD_SIZE <= b.buf.len() % b.block_size as nat,
        b.buf.len() + b.room() <= b.buf_size,
    ensures
        ({
            let s = b.placed();
            &&& b.buf.len() < s.buf.len() <= b.buf.len() + b.room()
            &&& s.aligned() || s.buf.len() % s.block_size as nat >= BLOCK_HEAD_SIZE
            &&& s.aligned() <==> s.buf.len() == b.buf.len() + b.room()
            &&& sealable(s)
            &&& s.buf.len() <= s.buf_size
        }),
{
    let s = b.placed();
    let n = s.buf.len() - b.buf.len();
    lemma_within_block(b.buf.len() as int, n, b.block_size);
}

/// The invariant holds after a step of writing.
pub proof fn lemma_filled(s: FlushState, min_lsn: u64, flush_min_lsn: u64)
    requires
        s.wf(),
        s.pending is Some,
    ensures
        s.filled(min_lsn, flush_min_lsn).wf(),
{
    let b = s.begun(min_lsn);
    let t = b.placed();
    lemma_begun(s, min_lsn);
    lemma_placed(b);
    lemma_sealed(t, min_lsn);
    vstd::arithmetic::div_mod::lemma_small_mod(0, s.block_size as nat);
}

/// The invariant holds after an overdue buffer was flushed, and then nothing is overdue.
pub proof fn lemma_timed(s: FlushState, min_lsn: u64, flush_min_lsn: u64)
    requires
        s.wf(),
    ensures
        s.timed(min_lsn, flush_min_lsn).wf(),
        !s.timed(min_lsn, flush_min_lsn).overdue(),
        s.padded().buf.len() <= s.buf_size,
        sealable(s.padded()),
        s.padded().aligned(),
        s.padded().sealed(min_lsn).buf.len() == s.padded().buf.len(),
{
    lemma_block_fits(s.buf.len() as int, s.buf_size, s.block_size);
    lemma_within_block(s.buf.len() as int, s.room(), s.block_size);
    lemma_sealed(s.padded(), min_lsn);
    vstd::arithmetic::div_mod::lemma_small_mod(0, s.block_size as nat);
}

/// An entry that is being written.
struct PendingLog {
    lsn: u64,
    log: Bytes,
    split: bool,
}

/// The state of the flushing thread.
pub struct FlushingControlBlock {
    order: ByteOrder,
    data_app: RotAppender<DefaultRotator<WalDataRotNameProvider>>,
    data_buf: Vec<u8>,
    pending: Option<PendingLog>,
    last_min_lsn: u64,
    mani_min_lsn: u64,
    next_no_use_lsn: u64,
    max_flushed_lsn: u64,
    last_filled_lsn: u64,
    block_size: usize,
    buf_size: usize,
    log_check_cnt: u32,
    adv_lsn_check_cnt: u32,
    checks_bef_flush_log: u32,
    checks_bef_flush_adv_lsn: u32,
    backoff_count: u32,
}

/// What the end of a round of the flushing thread takes.
pub struct RoundEnd {
    pub ops: Vec<FlushOp>,
    pub pause: Pause,
}

impl View for FlushingControlBlock {
    type V = FlushState;

    closed spec fn view(&self) -> FlushState {
        FlushState {
            order: self.order,
            block_size: self.block_size as int,
            buf_size: self.buf_size as int,
            checks_log: self.checks_bef_flush_log,
            checks_adv_lsn: self.checks_bef_flush_adv_lsn,
            buf: self.data_buf@,
            pending: match self.pending {
                Some(p) => Some(Pending { lsn: p.lsn, left: contents(p.log), split: p.split }),
                None => None,
            },
            last_filled_lsn: self.last_filled_lsn,
            max_flushed_lsn: self.max_flushed_lsn,
            last_min_lsn: self.last_min_lsn,
            mani_min_lsn: self.mani_min_lsn,
            next_no_use_lsn: self.next_no_use_lsn,
            log_check_cnt: self.log_check_cnt,
            adv_lsn_check_cnt: self.adv_lsn_check_cnt,
            backoff: self.backoff_count,
            rot_size: self.data_app.esize,
            rot_size_max: self.data_app.rot.rot_size_max,
            rot_no: self.data_app.rot.cur_rot_no,
            prefix: self.data_app.rot.rnp.prefix@,
            rot_lsn: self.data_app.rot.rnp.next_lsn,
        }
    }
}

/// Whether the buffer can be sealed: its last block has a header.
pub open spec fn sealable(s: FlushState) -> bool {
    &&& 0 < s.block_size
    &&& s.aligned() ==> BLOCK_HEAD_SIZE <= s.block_size
    &&& !s.aligned() ==> s.buf.len() % s.block_size as nat >= BLOCK_HEAD_SIZE
}

fn put_zeros(buf: &mut Vec<u8>, n: usize)
    ensures
        final(buf)@ == old(buf)@ + zeros(n as int),
{
    let mut k: usize = 0;
    assert(buf@ =~= old(buf)@ + zeros(0));
    while k < n
        invariant
            k <= n,
            buf@ == old(buf)@ + zeros(k as int),
        decreases n - k,
    {
        buf.push(0);
        assert(buf@ =~= old(buf)@ + zeros(k + 1));
        k += 1;
    }
}

impl FlushingControlBlock {
    /// Sets up the writing to a log.
    ///
    /// Parameters:
    /// - `order`: The byte order on disk.
    /// - `config`: The configuration of the log.
    /// - `data_app`: The appender of the data rotations.
    /// - `min_lsn`: The smallest LSN that is needed.
    /// - `max_lsn`: The largest LSN that has been persisted.
    /// - `next_no_use_lsn`: The LSN at which the next rotation falls out of use.
    pub fn new(
        order: ByteOrder,
        config: &TunableConfig,
        data_app: RotAppender<DefaultRotator<WalDataRotNameProvider>>,
        min_lsn: u64,
        max_lsn: u64,
        next_no_use_lsn: u64,
    ) -> (r: Self)
        requires
            config.usable(),
            max_lsn < u64::MAX,
        ensures
            r@ == (FlushState {
                order,
                block_size: config.block_size as int,
                buf_size: config.bulk_flush_size as int,
                checks_log: config.checks_bef_flush_log,
                checks_adv_lsn: config.checks_bef_flush_adv_lsn,
                buf: Seq::empty(),
                pending: None,
                last_filled_lsn: max_lsn,
                max_flushed_lsn: max_lsn,
                last_min_lsn: min_lsn,
                mani_min_lsn: 0,
                next_no_use_lsn,
                log_check_cnt: 0,
                adv_lsn_check_cnt: 0,
                backoff: 0,
                rot_size: data_app.esize,
                rot_size_max: data_app.rot.rot_size_max,
                rot_no: data_app.rot.cur_rot_no,
                prefix: data_app.rot.rnp.prefix@,
                rot_lsn: data_app.rot.rnp.next_lsn,
            }),
            r@.wf(),
    {
        let r = FlushingControlBlock {
            order,
            data_app,
            data_buf: Vec::with_capacity(config.bulk_flush_size as usize),
            pending: None,
            last_min_lsn: min_lsn,
            mani_min_lsn: 0,
            next_no_use_lsn,
            max_flushed_lsn: max_lsn,
            last_filled_lsn: max_lsn,
            block_size: config.block_size as usize,
            buf_size: config.bulk_flush_size as usize,
            log_check_cnt: 0,
            adv_lsn_check_cnt: 0,
            checks_bef_flush_log: config.checks_bef_flush_log,
            checks_bef_flush_adv_lsn: config.checks_bef_flush_adv_lsn,
            backoff_count: 0,
        };
        proof {
            assert(r@.buf =~= Seq::empty());
            vstd::arithmetic::div_mod::lemma_small_mod(0, config.block_size as nat);
        }
        r
    }

    /// What has to be done before the first round: a log that is new gets a manifest entry.
    pub fn start(&mut self) -> (r: Vec<FlushOp>)
        requires
            old(self)@.wf(),
        ensures
            final(self)@.wf(),
            final(self)@ == (if old(self)@.last_min_lsn == 0 {
                old(self)@.noted(0)
            } else {
                old(self)@
            }),
            ops(r@) == (if old(self)@.last_min_lsn == 0 {
                seq![Op::AppendMani(mani_entry(old(self)@.order, 0))]
            } else {
                Seq::empty()
            }),
    {
        let mut r: Vec<FlushOp> = Vec::new();
        if self.last_min_lsn == 0 {
            self.flush_mani_entry(0, &mut r);
        }
        assert(ops(r@) =~= (if old(self)@.last_min_lsn == 0 {
            seq![Op::AppendMani(mani_entry(old(self)@.order, 0))]
        } else {
            Seq::empty()
        }));
        r
    }

    /// Tells whether an entry is still being written.
    pub fn is_busy(&self) -> (r: bool)
        ensures
            r == (self@.pending is Some),
    {
        self.pending.is_some()
    }

    /// Tells whether sizes and rotation numbers stay in the range of their types when the buffer is
    /// flushed.
    pub fn has_room(&self) -> (r: bool)
        requires
            self@.wf(),
        ensures
            r == self@.has_room(),
    {
        self.data_app.rot.cur_rot_no < u32::MAX && self.data_app.esize <= u64::MAX
            - self.buf_size as u64
    }

    /// Takes an entry to be written.
    pub fn accept(&mut self, entry: LogEntry)
        requires
            old(self)@.wf(),
            old(self)@.pending is None,
            entry.lsn < u64::MAX,
        ensures
            final(self)@ == (FlushState {
                pending: Some(Pending { lsn: entry.lsn, left: entry@.payload, split: false }),
                ..old(self)@
            }),
            final(self)@.wf(),
    {
        self.pending = Some(PendingLog { lsn: entry.lsn, log: entry.payload, split: false });
    }

    /// Notes at which LSN the next rotation falls out of use, after rotations were released.
    pub fn released(&mut self, next_no_use_lsn: u64)
        requires
            old(self)@.wf(),
        ensures
            final(self)@ == (FlushState { next_no_use_lsn, ..old(self)@ }),
            final(self)@.wf(),
    {
        self.next_no_use_lsn = next_no_use_lsn;
    }

    fn flush_mani_entry(&mut self, min_lsn: u64, out: &mut Vec<FlushOp>)
        ensures
            final(self)@ == old(self)@.noted(min_lsn),
            final(self).data_app == old(self).data_app,
            final(self).data_buf == old(self).data_buf,
            ops(final(out)@) == ops(old(out)@).push(
                Op::AppendMani(mani_entry(old(self)@.order, min_lsn)),
            ),
    {
        let mut mani_buf: Vec<u8> = Vec::new();
        DiskManiEntry::encode_as(self.order, &mut mani_buf, min_lsn);
        let ghost before = out@;
        out.push(FlushOp::AppendMani(mani_buf));
        self.last_min_lsn = min_lsn;
        self.mani_min_lsn = min_lsn;
        self.adv_lsn_check_cnt = 0;
        assert(ops(out@) =~= ops(before).push(
            Op::AppendMani(mani_entry(self.order, min_lsn)),
        ));
    }

    fn fix_block_headers(&mut self, min_lsn: u64)
        requires
            sealable(old(self)@),
        ensures
            final(self)@ == old(self)@.sealed(min_lsn),
            final(self).data_app == old(self).data_app,
            final(self).pending == old(self).pending,
    {
        let len: usize = self.data_buf.len();
        if len > 0 {
            proof {
                lemma_last_block(len as int, self.block_size as int);
            }
            let offset: usize = (len - 1) / self.block_size * self.block_size;
            self.order.set_u64(&mut self.data_buf, offset + 16, self.last_filled_lsn);
            self.last_min_lsn = min_lsn;
            self.order.set_u64(&mut self.data_buf, offset + 24, min_lsn);
            let crc = crc32c(
                slice_subrange(
                    self.data_buf.as_slice(),
                    offset + 4,
                    offset + BLOCK_HEAD_SIZE,
                ),
            );
            self.order.set_u32(&mut self.data_buf, offset, crc);
        }
    }

    fn flush_data_blocks(&mut self, rotatable: bool, min_lsn: u64, out: &mut Vec<FlushOp>)
        requires
            old(self)@.buf.len() <= old(self)@.buf_size <= u32::MAX,
            old(self)@.last_filled_lsn < u64::MAX,
            old(self)@.has_room(),
        ensures
            final(self)@ == old(self)@.flushed(rotatable, min_lsn),
            ops(final(out)@) == ops(old(out)@) + old(self)@.flush_ops(rotatable, min_lsn),
    {
        let ghost s0 = self@;
        let ghost ops0 = ops(out@);
        self.data_app.rot.rnp.set_flush_lsn(self.last_filled_lsn);
        let size: u64 = self.data_buf.len() as u64;
        let full = self.data_app.needs_new_rot();
        let new_rot = self.data_app.append(size, rotatable);
        if (new_rot && min_lsn > self.mani_min_lsn) || (full && min_lsn > self.last_min_lsn) {
            self.flush_mani_entry(min_lsn, out);
        }
        let ghost ops1 = ops(out@);
        let mut data: Vec<u8> = Vec::with_capacity(self.buf_size);
        std::mem::swap(&mut data, &mut self.data_buf);
        let ghost out1 = out@;
        out.push(FlushOp::AppendData(data));
        out.push(FlushOp::SyncData);
        proof {
            assert(ops(out@) =~= ops1 + seq![Op::AppendData(s0.buf), Op::SyncData]);
        }
        if new_rot {
            let none: Vec<String> = Vec::new();
            let next = self.data_app.rot.new_rot(&none);
            self.data_app.rot.switched(next.rot_no);
            self.data_app.switched();
            let ghost out2 = out@;
            let ghost name = next.name@;
            out.push(FlushOp::NewDataRot(next.name));
            out.push(FlushOp::ReleaseRots(min_lsn));
            proof {
                assert(ops(out@) =~= ops(out2) + seq![
                    Op::NewDataRot(name),
                    Op::ReleaseRots(min_lsn),
                ]);
            }
        }
        let ghost ops3 = ops(out@);
        if rotatable {
            let ghost out3 = out@;
            out.push(FlushOp::SetMaxLsn(self.max_flushed_lsn));
            proof {
                assert(ops(out@) =~= ops(out3) + seq![Op::SetMaxLsn(s0.max_flushed_lsn)]);
            }
        }
        self.log_check_cnt = 0;
        self.adv_lsn_check_cnt = 0;
        proof {
            assert(self@.buf =~= Seq::empty());
            assert(ops(out@) =~= ops0 + s0.flush_ops(rotatable, min_lsn));
        }
    }

    /// Writes as much as possible of the entry that was accepted into one block.
    ///
    /// Parameters:
    /// - `min_lsn`: The smallest LSN that is needed, for the block headers.
    /// - `flush_min_lsn`: The smallest LSN that is needed, for the manifest.
    pub fn fill(&mut self, min_lsn: u64, flush_min_lsn: u64) -> (r: Vec<FlushOp>)
        requires
            old(self)@.wf(),
            old(self)@.pending is Some,
            old(self)@.has_room(),
        ensures
            final(self)@ == old(self)@.filled(min_lsn, flush_min_lsn),
            ops(r@) == old(self)@.fill_ops(min_lsn, flush_min_lsn),
            final(self)@.wf(),
    {
        let ghost s0 = self@;
        let mut out: Vec<FlushOp> = Vec::new();
        assert(ops(out@) =~= Seq::empty());
        if self.data_buf.len() % self.block_size == 0 {
            self.fix_block_headers(min_lsn);
            let lsn = match &self.pending {
                Some(p) => p.lsn,
                None => 0,
            };
            DiskBlockHeader::encode_as(self.order, &mut self.data_buf, lsn);
        }
        let ghost b = self@;
        proof {
            assert(b == s0.begun(min_lsn));
            lemma_begun(s0, min_lsn);
            lemma_placed(b);
            lemma_filled(s0, min_lsn, flush_min_lsn);
        }
        let bk_len: usize = self.data_buf.len() % self.block_size;
        let bk_left: usize = self.block_size - bk_len;
        let mut split = false;
        if let Some(p) = self.pending.take() {
            let PendingLog { lsn, mut log, split: was_split } = p;
            let left: usize = bytes_len(&log);
            if bk_left >= LOG_HEAD_SIZE && left <= bk_left - LOG_HEAD_SIZE {
                // the rest of the entry fits
                let fullness = if was_split {
                    Fullness::Last
                } else {
                    Fullness::Full
                };
                DiskLogEntry::encode_as(self.order, &mut self.data_buf, lsn, log, fullness);
                self.last_filled_lsn = lsn;
                self.max_flushed_lsn = lsn;
            } else if LOG_HEAD_SIZE < bk_left && (was_split || !self.data_app.needs_new_rot()
                || bk_len == BLOCK_HEAD_SIZE) {
                // a part of it fills the block
                let fullness = if was_split {
                    Fullness::Middle
                } else {
                    Fullness::First
                };
                let part_log = bytes_split_to(&mut log, bk_left - LOG_HEAD_SIZE);
                DiskLogEntry::encode_as(self.order, &mut self.data_buf, lsn, part_log, fullness);
                self.last_filled_lsn = lsn;
                self.pending = Some(PendingLog { lsn, log, split: true });
                split = true;
            } else {
                // fill with zeros
                put_zeros(&mut self.data_buf, bk_left);
                self.pending = Some(PendingLog { lsn, log, split: was_split });
                split = was_split;
            }
        }
        let ghost t = self@;
        assert(t == b.placed());
        assert(split == !t.whole());
        if self.data_buf.len() == self.buf_size || (self.data_app.needs_new_rot()
            && self.data_buf.len() % self.block_size == 0) {
            proof {
                lemma_sealed(t, min_lsn);
            }
            self.fix_block_headers(min_lsn);
            self.flush_data_blocks(!split, flush_min_lsn, &mut out);
        }
        assert(Seq::<Op>::empty() + s0.fill_ops(min_lsn, flush_min_lsn) =~= s0.fill_ops(
            min_lsn,
            flush_min_lsn,
        ));
        out
    }

    /// Flushes what has waited long enough, when there are no more entries in a round.
    ///
    /// Parameters:
    /// - `min_lsn`: The smallest LSN that is needed, for the block headers.
    /// - `flush_min_lsn`: The smallest LSN that is needed, for the manifest.
    pub fn flush_overdue(&mut self, min_lsn: u64, flush_min_lsn: u64) -> (r: Vec<FlushOp>)
        requires
            old(self)@.wf(),
            old(self)@.pending is None,
            old(self)@.has_room(),
        ensures
            final(self)@ == old(self)@.timed(min_lsn, flush_min_lsn),
            ops(r@) == old(self)@.timed_ops(min_lsn, flush_min_lsn),
            final(self)@.wf(),
            !final(self)@.overdue(),
    {
        let mut out: Vec<FlushOp> = Vec::new();
        proof {
            assert(ops(out@) =~= Seq::empty());
            lemma_timed(self@, min_lsn, flush_min_lsn);
        }
        if self.data_buf.len() > 0 && self.log_check_cnt >= self.checks_bef_flush_log {
            let bk_len: usize = self.data_buf.len() % self.block_size;
            if bk_len != 0 {
                put_zeros(&mut self.data_buf, self.block_size - bk_len);
            }
            assert(self@ == old(self)@.padded());
            self.fix_block_headers(min_lsn);
            self.flush_data_blocks(true, flush_min_lsn, &mut out);
        }
        assert(ops(out@) =~= old(self)@.timed_ops(min_lsn, flush_min_lsn));
        out
    }

    /// Ends a round: looks at the smallest needed LSN, and says how to pause.
    ///
    /// Parameters:
    /// - `noop`: Whether no entry was written in the round.
    /// - `min_lsn`: The smallest LSN that is needed.
    pub fn end_round(&mut self, noop: bool, min_lsn: u64) -> (r: RoundEnd)
        requires
            old(self)@.wf(),
            old(self)@.pending is None,
            !old(self)@.overdue(),
        ensures
            final(self)@ == old(self)@.round_ended(noop, min_lsn),
            ops(r.ops@) == old(self)@.advance_ops(min_lsn),
            r.pause == final(self)@.pause(),
            final(self)@.wf(),
    {
        let mut out: Vec<FlushOp> = Vec::new();
        assert(ops(out@) =~= Seq::empty());
        let busy = self.advance(min_lsn, &mut out);
        let pause = self.rest(noop && !busy, min_lsn);
        assert(ops(out@) =~= old(self)@.advance_ops(min_lsn));
        RoundEnd { ops: out, pause }
    }

    fn advance(&mut self, min_lsn: u64, out: &mut Vec<FlushOp>) -> (busy: bool)
        requires
            old(self)@.wf(),
        ensures
            final(self)@ == old(self)@.advanced(min_lsn),
            final(self)@.wf(),
            busy == (old(self)@.releases(min_lsn) || old(self)@.persists(min_lsn)),
            ops(final(out)@) == ops(old(out)@) + old(self)@.advance_ops(min_lsn),
    {
        let mut busy = false;
        if min_lsn > self.last_min_lsn {
            if min_lsn >= self.next_no_use_lsn {
                busy = true;
                self.flush_mani_entry(min_lsn, out);
                let ghost before = out@;
                out.push(FlushOp::ReleaseRots(min_lsn));
                assert(ops(out@) =~= ops(before).push(Op::ReleaseRots(min_lsn)));
            }
            if self.adv_lsn_check_cnt >= self.checks_bef_flush_adv_lsn {
                busy = true;
                self.flush_mani_entry(min_lsn, out);
            }
        }
        assert(ops(out@) =~= ops(old(out)@) + old(self)@.advance_ops(min_lsn));
        busy
    }

    fn rest(&mut self, idle: bool, min_lsn: u64) -> (pause: Pause)
        requires
            old(self)@.wf(),
            !old(self)@.overdue(),
            min_lsn > old(self)@.last_min_lsn ==> old(self)@.adv_lsn_check_cnt
                < old(self)@.checks_adv_lsn,
        ensures
            final(self)@ == old(self)@.rested(idle, min_lsn),
            final(self)@.wf(),
            pause == final(self)@.pause(),
    {
        if idle {
            if self.backoff_count <= 200 {
                self.backoff_count = self.backoff_count + 1;
            }
            if self.backoff_count <= 100 {
                Pause::Spin
            } else {
                let pause = if self.backoff_count <= 200 {
                    Pause::Yield
                } else {
                    Pause::Sleep
                };
                if self.data_buf.len() > 0 {
                    self.log_check_cnt = self.log_check_cnt + 1;
                }
                if min_lsn > self.last_min_lsn {
                    self.adv_lsn_check_cnt = self.adv_lsn_check_cnt + 1;
                }
                pause
            }
        } else {
            self.backoff_count = 0;
            Pause::NoPause
        }
    }
}

/// The state after a round in which there was no entry, and the smallest needed LSN did not change.
/// `next_no_use_lsn` is what was last reported of the rotations, up to the end of the round.
pub open spec fn quiet_round(s: FlushState, min_lsn: u64, next_no_use_lsn: u64) -> FlushState {
    (FlushState { next_no_use_lsn, ..s.timed(min_lsn, min_lsn) }).round_ended(true, min_lsn)
}

/// The state after several such rounds.
pub open spec fn quiet_rounds(s: FlushState, min_lsn: u64, reported: Seq<u64>) -> FlushState
    decreases reported.len(),
{
    if reported.len() == 0 {
        s
    } else {
        quiet_rounds(quiet_round(s, min_lsn, reported[0]), min_lsn, reported.skip(1))
    }
}

/// Entries do not wait for ever: when no more of them come, the buffer is flushed after a number of
/// rounds that depends on the configuration alone.
pub proof fn law_waiting_entries_are_flushed(s: FlushState, min_lsn: u64, reported: Seq<u64>)
    requires
        s.wf(),
        s.pending is None,
        min_lsn <= s.last_min_lsn,
        reported.len() > 101 + s.checks_log,
    ensures
        quiet_rounds(s, min_lsn, reported).buf.len() == 0,
{
    lemma_quiet_rounds(s, min_lsn, reported);
}

/// How many rounds the flushing thread only pauses, without counting.
spec fn uncounted(s: FlushState) -> int {
    if s.backoff < 100 {
        100 - s.backoff
    } else {
        0
    }
}

proof fn lemma_quiet_rounds(s: FlushState, min_lsn: u64, reported: Seq<u64>)
    requires
        s.wf(),
        s.pending is None,
        min_lsn <= s.last_min_lsn,
        s.buf.len() > 0 ==> reported.len() > uncounted(s) + s.checks_log - s.log_check_cnt,
    ensures
        quiet_rounds(s, min_lsn, reported).buf.len() == 0,
    decreases reported.len(),
{
    if reported.len() > 0 {
        lemma_timed(s, min_lsn, min_lsn);
        lemma_quiet_rounds(quiet_round(s, min_lsn, reported[0]), min_lsn, reported.skip(1));
    }
}

/// What several rounds take in which there was no entry, and the smallest needed LSN did not change.
pub open spec fn quiet_ops(s: FlushState, min_lsn: u64, reported: Seq<u64>) -> Seq<Op>
    decreases reported.len(),
{
    if reported.len() == 0 {
        Seq::empty()
    } else {
        let t = FlushState { next_no_use_lsn: reported[0], ..s.timed(min_lsn, min_lsn) };
        s.timed_ops(min_lsn, min_lsn) + t.advance_ops(min_lsn) + quiet_ops(
            quiet_round(s, min_lsn, reported[0]),
            min_lsn,
            reported.skip(1),
        )
    }
}

/// Whether operations persist a smallest needed LSN: they write it to the manifest, or they flush the
/// buffer, if there is something in it, with that LSN in the header of the last block.
pub open spec fn persist_lsn(s: FlushState, ops: Seq<Op>, min_lsn: u64) -> bool {
    ||| ops.contains(Op::AppendMani(mani_entry(s.order, min_lsn)))
    ||| s.buf.len() > 0 && ops.contains(Op::AppendData(s.padded().sealed(min_lsn).buf))
}

/// An advanced LSN does not wait for ever to be persisted: when no more entries come, it is written to
/// the manifest after a number of rounds that depends on the configuration alone, unless a flush of
/// what was in the buffer has persisted it before.
pub proof fn law_advanced_lsn_is_persisted(s: FlushState, min_lsn: u64, reported: Seq<u64>)
    requires
        s.wf(),
        s.pending is None,
        min_lsn > s.last_min_lsn,
        reported.len() > 101 + s.checks_adv_lsn,
    ensures
        persist_lsn(s, quiet_ops(s, min_lsn, reported), min_lsn),
{
    lemma_quiet_ops(s, min_lsn, reported);
}

/// Flushing a buffer appends it to the data.
proof fn lemma_flush_appends(s: FlushState, rotatable: bool, min_lsn: u64)
    ensures
        s.flush_ops(rotatable, min_lsn).contains(Op::AppendData(s.buf)),
{
    let ops = s.flush_ops(rotatable, min_lsn);
    let i: int = if s.notes_first(rotatable, min_lsn) {
        1
    } else {
        0
    };
    assert(ops[i] == Op::AppendData(s.buf));
}

proof fn lemma_contained<T>(a: Seq<T>, b: Seq<T>, c: Seq<T>, x: T)
    requires
        a.contains(x) || b.contains(x) || c.contains(x),
    ensures
        (a + b + c).contains(x),
{
    let all = a + b + c;
    if a.contains(x) {
        assert(all[a.index_of(x)] == x);
    } else if b.contains(x) {
        assert(all[a.len() + b.index_of(x)] == x);
    } else {
        assert(all[a.len() + b.len() + c.index_of(x)] == x);
    }
}

proof fn lemma_quiet_ops(s: FlushState, min_lsn: u64, reported: Seq<u64>)
    requires
        s.wf(),
        s.pending is None,
        min_lsn > s.last_min_lsn,
        reported.len() > uncounted(s) + s.checks_adv_lsn - s.adv_lsn_check_cnt,
    ensures
        persist_lsn(s, quiet_ops(s, min_lsn, reported), min_lsn),
    decreases reported.len(),
{
    let t = FlushState { next_no_use_lsn: reported[0], ..s.timed(min_lsn, min_lsn) };
    let next = quiet_round(s, min_lsn, reported[0]);
    let a = s.timed_ops(min_lsn, min_lsn);
    let b = t.advance_ops(min_lsn);
    let c = quiet_ops(next, min_lsn, reported.skip(1));
    let entry = Op::AppendMani(mani_entry(s.order, min_lsn));
    let data = Op::AppendData(s.padded().sealed(min_lsn).buf);
    if s.overdue() {
        lemma_flush_appends(s.padded().sealed(min_lsn), true, min_lsn);
        lemma_contained(a, b, c, data);
    } else if t.releases(min_lsn) || t.persists(min_lsn) {
        assert(b[0] == entry);
        lemma_contained(a, b, c, entry);
    } else {
        lemma_quiet_ops(next, min_lsn, reported.skip(1));
        if c.contains(entry) {
            lemma_contained(a, b, c, entry);
        } else {
            lemma_contained(a, b, c, data);
        }
    }
}

} // verus!
