//! What the writer of a log and its flushing thread share.
use super::config::TunableConfig;
use super::{Entry, LogEntry};
use crate::outside::{bytes_len, contents};
use crate::ringbuffer::{Ring, RingBuffer};
use crate::{Error, ErrorView};
use bytes::Bytes;
use vstd::arithmetic::power2::{lemma_pow2_strictly_increases, pow2};
use vstd::prelude::*;

verus! {

/// What a [`LogRingBuffer`] holds.
#[verifier::ext_equal]
pub struct LogRing {
    pub capacity: int,
    pub items: Seq<Entry>,
    /// The LSN that the next entry gets.
    pub next_lsn: u64,
}

impl LogRing {
    pub open spec fn is_full(self) -> bool {
        self.items.len() == self.capacity
    }

    /// The ring buffer after an entry with that payload was taken.
    pub open spec fn pushed(self, payload: Seq<u8>) -> LogRing {
        LogRing {
            items: self.items.push(Entry { lsn: self.next_lsn, payload }),
            next_lsn: (self.next_lsn + 1) as u64,
            ..self
        }
    }

    pub open spec fn popped(self) -> LogRing {
        if self.items.len() == 0 {
            self
        } else {
            LogRing { items: self.items.skip(1), ..self }
        }
    }

    /// The entries are within the capacity, and their LSNs are consecutive, up to the next one.
    pub open spec fn wf(self) -> bool {
        &&& self.items.len() <= self.capacity
        &&& forall|i: int|
            0 <= i < self.items.len() ==> (#[trigger] self.items[i]).lsn == self.next_lsn
                - self.items.len() + i
    }
}

/// The ring buffer through which entries reach the flushing thread. It gives each entry its LSN.
pub struct LogRingBuffer {
    next_lsn: u64,
    ring: RingBuffer<LogEntry>,
}

spec fn log_ring(next_lsn: u64, ring: Ring<LogEntry>) -> LogRing {
    LogRing {
        capacity: ring.capacity,
        items: ring.items.map_values(|e: LogEntry| e@),
        next_lsn,
    }
}

impl View for LogRingBuffer {
    type V = LogRing;

    closed spec fn view(&self) -> LogRing {
        log_ring(self.next_lsn, self.ring@)
    }
}

impl LogRingBuffer {
    pub closed spec fn wf(&self) -> bool {
        self.ring.wf() && self@.wf()
    }

    /// Creates a ring buffer of 2^`size_order` entries, the first of which gets the LSN `lsn_base`.
    pub fn new(size_order: u8, lsn_base: u64) -> (r: Self)
        requires
            size_order < usize::BITS - 1,
        ensures
            r.wf(),
            r@ == (LogRing {
                capacity: pow2(size_order as nat) as int,
                items: Seq::empty(),
                next_lsn: lsn_base,
            }),
    {
        proof {
            lemma_half_range(size_order as nat);
        }
        let ring = RingBuffer::new(size_order).unwrap();
        let r = LogRingBuffer { next_lsn: lsn_base, ring };
        assert(r@.items =~= Seq::empty());
        r
    }

    /// Takes the payload of a new entry, and returns the entry's LSN.
    pub fn push(&mut self, log: Bytes) -> (r: Result<u64, Error>)
        requires
            old(self).wf(),
            old(self)@.next_lsn < u64::MAX,
        ensures
            final(self).wf(),
            match r {
                Ok(lsn) => {
                    &&& !old(self)@.is_full()
                    &&& lsn == old(self)@.next_lsn
                    &&& final(self)@ == old(self)@.pushed(contents(log))
                },
                Err(e) => {
                    &&& old(self)@.is_full()
                    &&& e@ == ErrorView::RingBufferFull
                    &&& final(self)@ == old(self)@
                },
            },
            r is Ok <==> old(self)@.items.len() < old(self)@.capacity,
    {
        let lsn = self.next_lsn;
        let entry = LogEntry { lsn, payload: log };
        match self.ring.push(entry) {
            Ok(_) => {},
            Err(e) => return Err(e),
        }
        self.next_lsn = lsn + 1;
        proof {
            assert(self@.items =~= old(self)@.items.push(entry@));
        }
        Ok(lsn)
    }

    /// Takes the oldest entry out.
    pub fn pop_for_sc(&mut self) -> (r: Option<LogEntry>)
        requires
            old(self).wf(),
        ensures
            final(self).wf(),
            final(self)@ == old(self)@.popped(),
            match r {
                Some(entry) => old(self)@.items.len() > 0 && entry@ == old(self)@.items[0],
                None => old(self)@.items.len() == 0,
            },
    {
        let r = self.ring.pop_for_sc();
        proof {
            assert(self@.items =~= old(self)@.popped().items);
        }
        r
    }
}

proof fn lemma_half_range(order: nat)
    requires
        order < usize::BITS - 1,
    ensures
        pow2(order) <= isize::MAX,
{
    vstd::arithmetic::power2::lemma2_to64();
    vstd::arithmetic::power2::lemma2_to64_rest();
    lemma_pow2_strictly_increases(order, (usize::BITS - 1) as nat);
}

/// A call on a log ring buffer.
pub enum LogCall {
    Push(Seq<u8>),
    Pop,
}

/// A log ring buffer, with the entries that it took and gave back since some time.
#[verifier::ext_equal]
pub struct LogHistory {
    pub ring: LogRing,
    pub taken: Seq<Entry>,
    pub given: Seq<Entry>,
}

/// The history after one more call.
pub open spec fn called(h: LogHistory, call: LogCall) -> LogHistory {
    match call {
        LogCall::Push(payload) => if h.ring.is_full() {
            h
        } else {
            LogHistory {
                ring: h.ring.pushed(payload),
                taken: h.taken.push(Entry { lsn: h.ring.next_lsn, payload }),
                ..h
            }
        },
        LogCall::Pop => if h.ring.items.len() == 0 {
            h
        } else {
            LogHistory { ring: h.ring.popped(), given: h.given.push(h.ring.items[0]), ..h }
        },
    }
}

/// The history of calls from a given log ring buffer on.
pub open spec fn history(ring: LogRing, calls: Seq<LogCall>) -> LogHistory
    decreases calls.len(),
{
    if calls.len() == 0 {
        LogHistory { ring, taken: Seq::empty(), given: Seq::empty() }
    } else {
        called(history(ring, calls.drop_last()), calls.last())
    }
}

/// The entries reach the flushing thread in the order in which they were taken, and their LSNs are
/// consecutive: those taken since some time start at the LSN that was next then.
pub proof fn law_lsns_are_consecutive(ring: LogRing, calls: Seq<LogCall>)
    requires
        ring.wf(),
        ring.next_lsn + history(ring, calls).taken.len() <= u64::MAX,
    ensures
        ({
            let h = history(ring, calls);
            &&& h.given + h.ring.items == ring.items + h.taken
            &&& forall|i: int|
                0 <= i < h.taken.len() ==> (#[trigger] h.taken[i]).lsn == ring.next_lsn + i
            &&& h.ring.next_lsn == ring.next_lsn + h.taken.len()
            &&& h.taken.len() <= calls.len()
            &&& h.ring.wf()
        }),
    decreases calls.len(),
{
    let h = history(ring, calls);
    if calls.len() == 0 {
        assert(h.given + h.ring.items =~= ring.items + h.taken);
    } else {
        law_lsns_are_consecutive(ring, calls.drop_last());
        let b = history(ring, calls.drop_last());
        match calls.last() {
            LogCall::Push(payload) => {
                if !b.ring.is_full() {
                    let e = Entry { lsn: b.ring.next_lsn, payload };
                    assert(h.given + h.ring.items =~= (b.given + b.ring.items).push(e));
                    assert(ring.items + h.taken =~= (ring.items + b.taken).push(e));
                    assert forall|i: int| 0 <= i < h.ring.items.len() implies (
                    #[trigger] h.ring.items[i]).lsn == h.ring.next_lsn - h.ring.items.len() + i by {
                        if i < b.ring.items.len() {
                            assert(h.ring.items[i] == b.ring.items[i]);
                        }
                    }
                }
            },
            LogCall::Pop => {
                if b.ring.items.len() > 0 {
                    assert(h.given + h.ring.items =~= b.given + b.ring.items);
                    assert forall|i: int| 0 <= i < h.ring.items.len() implies (
                    #[trigger] h.ring.items[i]).lsn == h.ring.next_lsn - h.ring.items.len() + i by {
                        assert(h.ring.items[i] == b.ring.items[i + 1]);
                    }
                }
            },
        }
    }
}

/// The state of a [`ControlBlock`].
#[verifier::ext_equal]
pub struct Control {
    pub running: bool,
    /// The smallest LSN that is needed.
    pub min_lsn: u64,
    /// The largest LSN that has been persisted.
    pub max_lsn: u64,
    pub ring: LogRing,
    pub config: TunableConfig,
}

/// The flushing thread has stopped.
pub open spec fn not_running() -> ErrorView {
    ErrorView::FunctionNotRunning("WAL flushing"@)
}

impl Control {
    /// What appending an entry of that size is answered with, if it is refused.
    pub open spec fn refuses(self, size: nat) -> Option<ErrorView> {
        if !self.running {
            Some(not_running())
        } else if size > self.config.max_log_entry_size {
            Some(ErrorView::LogEntryTooLarge(self.config.max_log_entry_size, size as u32))
        } else if self.ring.is_full() {
            Some(ErrorView::RingBufferFull)
        } else {
            None
        }
    }

    /// The state after the log was told that entries up to `lsn` are no longer needed.
    pub open spec fn advanced(self, lsn: u64) -> Control {
        if self.running && lsn > 0 && self.min_lsn <= lsn <= self.max_lsn {
            Control { min_lsn: (lsn + 1) as u64, ..self }
        } else {
            self
        }
    }
}

/// What the writer of a log and its flushing thread share.
pub struct ControlBlock {
    running: bool,
    min_lsn: u64,
    max_lsn: u64,
    rbuf: LogRingBuffer,
    config: TunableConfig,
}

impl View for ControlBlock {
    type V = Control;

    closed spec fn view(&self) -> Control {
        Control {
            running: self.running,
            min_lsn: self.min_lsn,
            max_lsn: self.max_lsn,
            ring: self.rbuf@,
            config: self.config,
        }
    }
}

impl ControlBlock {
    pub closed spec fn wf(&self) -> bool {
        self.rbuf.wf()
    }

    /// The LSNs of the entries that wait to be flushed are consecutive, up to the next one, and there
    /// are never more entries than the ring buffer holds.
    pub proof fn law_waiting_entries_are_consecutive(&self)
        requires
            self.wf(),
        ensures
            self@.ring.wf(),
    {
    }

    /// A log whose needed entries go from `min_lsn` to `max_lsn`, with nothing waiting to be
    /// flushed. The flushing thread is not running yet.
    pub fn new(min_lsn: u64, max_lsn: u64, config: TunableConfig) -> (r: Self)
        requires
            max_lsn < u64::MAX,
            config.ringbuf_size_order < usize::BITS - 1,
        ensures
            r.wf(),
            r@ == (Control {
                running: false,
                min_lsn,
                max_lsn,
                ring: LogRing {
                    capacity: pow2(config.ringbuf_size_order as nat) as int,
                    items: Seq::empty(),
                    next_lsn: (max_lsn + 1) as u64,
                },
                config,
            }),
    {
        let base_lsn: u64 = max_lsn + 1;
        ControlBlock {
            running: false,
            min_lsn,
            max_lsn,
            rbuf: LogRingBuffer::new(config.ringbuf_size_order, base_lsn),
            config,
        }
    }

    /// Notes whether the flushing thread is running.
    pub fn set_running(&mut self, running: bool)
        requires
            old(self).wf(),
        ensures
            final(self).wf(),
            final(self)@ == (Control { running, ..old(self)@ }),
    {
        self.running = running;
    }

    /// Tells whether the flushing thread is running.
    pub fn is_running(&self) -> (r: bool)
        ensures
            r == self@.running,
    {
        self.running
    }

    /// Notes that all entries up to `max_lsn` have been persisted.
    pub fn set_max_lsn(&mut self, max_lsn: u64)
        requires
            old(self).wf(),
        ensures
            final(self).wf(),
            final(self)@ == (Control { max_lsn, ..old(self)@ }),
    {
        self.max_lsn = max_lsn;
    }

    /// The smallest LSN that is needed.
    pub fn min_lsn(&self) -> (r: u64)
        ensures
            r == self@.min_lsn,
    {
        self.min_lsn
    }

    /// The largest LSN that has been persisted.
    pub fn max_lsn(&self) -> (r: u64)
        ensures
            r == self@.max_lsn,
    {
        self.max_lsn
    }

    /// The LSN that the next entry gets.
    pub fn next_lsn(&self) -> (r: u64)
        ensures
            r == self@.ring.next_lsn,
    {
        self.rbuf.next_lsn
    }

    fn check_running(&self) -> (r: Result<(), Error>)
        ensures
            match r {
                Ok(_) => self@.running,
                Err(e) => !self@.running && e@ == not_running(),
            },
    {
        if !self.running {
            return Err(Error::FunctionNotRunning("WAL flushing".to_string()));
        }
        Ok(())
    }

    /// Takes a new entry, and returns its LSN.
    pub fn append(&mut self, log: Bytes) -> (r: Result<u64, Error>)
        requires
            old(self).wf(),
            old(self)@.ring.next_lsn < u64::MAX,
        ensures
            final(self).wf(),
            match (old(self)@.refuses(contents(log).len()), r) {
                (None, Ok(lsn)) => {
                    &&& lsn == old(self)@.ring.next_lsn
                    &&& final(self)@ == (Control {
                        ring: old(self)@.ring.pushed(contents(log)),
                        ..old(self)@
                    })
                },
                (Some(expected), Err(e)) => e@ == expected && final(self)@ == old(self)@,
                _ => false,
            },
            r is Ok <==> {
                &&& old(self)@.running
                &&& contents(log).len() <= old(self)@.config.max_log_entry_size
                &&& old(self)@.ring.items.len() < old(self)@.ring.capacity
            },
            r is Ok ==> final(self)@.ring.items == old(self)@.ring.items.push(
                Entry { lsn: r->Ok_0, payload: contents(log) },
            ),
    {
        match self.check_running() {
            Ok(_) => {},
            Err(e) => return Err(e),
        }
        let len: usize = bytes_len(&log);
        if len > self.config.max_log_entry_size as usize {
            return Err(
                Error::LogEntryTooLarge(
                    self.config.max_log_entry_size,
                    #[verifier::truncate] (len as u32),
                ),
            );
        }
        self.rbuf.push(log)
    }

    /// Takes the oldest entry that is waiting to be flushed.
    pub fn pop(&mut self) -> (r: Option<LogEntry>)
        requires
            old(self).wf(),
        ensures
            final(self).wf(),
            final(self)@ == (Control { ring: old(self)@.ring.popped(), ..old(self)@ }),
            match r {
                Some(entry) => old(self)@.ring.items.len() > 0 && entry@
                    == old(self)@.ring.items[0],
                None => old(self)@.ring.items.len() == 0,
            },
    {
        self.rbuf.pop_for_sc()
    }

    /// Notes that entries whose LSN is equal to or less than `lsn` are no longer needed.
    pub fn advance_lsn(&mut self, lsn: u64) -> (r: Result<(), Error>)
        requires
            old(self).wf(),
            old(self)@.max_lsn < u64::MAX,
        ensures
            final(self).wf(),
            final(self)@ == old(self)@.advanced(lsn),
            match r {
                Ok(_) => old(self)@.running && lsn <= old(self)@.max_lsn,
                Err(e) => if !old(self)@.running {
                    e@ == not_running()
                } else {
                    lsn > old(self)@.max_lsn && e@ == ErrorView::InvalidArgument(
                        "`lsn` is too large"@,
                    )
                },
            },
    {
        match self.check_running() {
            Ok(_) => {},
            Err(e) => return Err(e),
        }
        if lsn > self.max_lsn {
            return Err(Error::InvalidArgument("`lsn` is too large".to_string()));
        }
        if lsn > 0 && lsn >= self.min_lsn {
            self.min_lsn = lsn + 1;
        }
        Ok(())
    }
}

/// The smallest LSN that is needed never goes down, and once entries up to an LSN were given up, that
/// LSN is below it.
pub proof fn law_smallest_lsn_never_goes_down(c: Control, lsn: u64)
    requires
        c.max_lsn < u64::MAX,
    ensures
        c.advanced(lsn).min_lsn >= c.min_lsn,
        c.running && 0 < lsn <= c.max_lsn ==> c.advanced(lsn).min_lsn > lsn,
        c.advanced(lsn).min_lsn == c.min_lsn || c.advanced(lsn).min_lsn == lsn + 1,
        c.advanced(lsn).advanced(lsn) == c.advanced(lsn),
{
}

/// Appending works whenever it may: an entry is taken exactly if the flushing thread is running, the
/// entry is no larger than the configuration allows, and fewer entries wait than the ring buffer holds.
/// Otherwise the answer says which of these failed, the first one first.
pub proof fn law_append_is_refused_only_for_cause(c: Control, size: nat)
    requires
        c.ring.wf(),
    ensures
        c.refuses(size) is None <==> {
            &&& c.running
            &&& size <= c.config.max_log_entry_size
            &&& c.ring.items.len() < c.ring.capacity
        },
        !c.running ==> c.refuses(size) == Some(ErrorView::FunctionNotRunning("WAL flushing"@)),
        c.running && size > c.config.max_log_entry_size ==> c.refuses(size) == Some(
            ErrorView::LogEntryTooLarge(c.config.max_log_entry_size, size as u32),
        ),
        c.running && size <= c.config.max_log_entry_size && c.ring.items.len() == c.ring.capacity
            ==> c.refuses(size) == Some(ErrorView::RingBufferFull),
{
}

/// A call on the ring buffer does what it says: an entry is taken, and gets the next LSN, exactly if
/// fewer entries wait than the ring buffer holds, and the oldest one is given back, if there is one.
pub proof fn law_log_calls(h: LogHistory, payload: Seq<u8>)
    requires
        h.ring.wf(),
        h.ring.next_lsn < u64::MAX,
    ensures
        ({
            let ring = h.ring;
            let entry = Entry { lsn: ring.next_lsn, payload };
            let h2 = called(h, LogCall::Push(payload));
            let h3 = called(h, LogCall::Pop);
            &&& if ring.items.len() < ring.capacity {
                &&& h2.taken == h.taken.push(entry)
                &&& h2.ring.items == ring.items.push(entry)
                &&& h2.ring.next_lsn == ring.next_lsn + 1
                &&& h2.ring.capacity == ring.capacity
                &&& h2.given == h.given
            } else {
                h2 == h
            }
            &&& if ring.items.len() > 0 {
                &&& h3.given == h.given.push(ring.items[0])
                &&& seq![ring.items[0]] + h3.ring.items == ring.items
                &&& h3.ring.next_lsn == ring.next_lsn
                &&& h3.ring.capacity == ring.capacity
                &&& h3.taken == h.taken
            } else {
                h3 == h
            }
        }),
{
    if h.ring.items.len() > 0 {
        assert(seq![h.ring.items[0]] + h.ring.items.skip(1) =~= h.ring.items);
    }
}

/// Giving up entries up to an LSN raises the smallest LSN that is needed to the one behind it, unless it
/// is above that already. It changes nothing else, and nothing at all when it is refused or the LSN is
/// zero.
pub proof fn law_advancing_raises_smallest_lsn(c: Control, lsn: u64)
    requires
        c.max_lsn < u64::MAX,
    ensures
        ({
            let c2 = c.advanced(lsn);
            &&& c.running && 0 < lsn <= c.max_lsn && c.min_lsn <= lsn ==> c2.min_lsn == lsn + 1
            &&& !c.running || lsn == 0 || lsn > c.max_lsn || lsn < c.min_lsn ==> c2.min_lsn
                == c.min_lsn
            &&& c2.running == c.running
            &&& c2.max_lsn == c.max_lsn
            &&& c2.ring == c.ring
            &&& c2.config == c.config
        }),
{
}

} // verus!
