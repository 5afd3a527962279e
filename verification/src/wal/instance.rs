//! A log as its users see it: [`WalInstance`] opens a [`WalWriter`] or a [`WalReader`].
use super::config::TunableConfig;
use super::control::{Control, ControlBlock, LogRing};
use super::flush::FlushingControlBlock;
use super::names::{data_rot_info, lsn_of, WalDataRotNameProvider};
use super::reader::{IterState, LogSeek, ReadState, SeekState};
use super::restore::{readable, LsnRestore};
use super::{Entry, LogEntry};
use crate::appender::{
    opened, DefaultRotNameProvider, DefaultRotator, RotAppender, RotNameProvider,
};
use crate::byteorder::{native_order, ByteOrder};
use crate::outside::contents;
use crate::text::{sorted, texts};
use crate::{Error, ErrorView};
use bytes::Bytes;
use std::collections::VecDeque;
use vstd::arithmetic::power2::pow2;
use vstd::prelude::*;
use vstd::string::StringExecFns;

verus! {

/// The maximum number of rotations of the manifest.
pub const MAX_MANI_ROT: u32 = 2;

/// The size from which on a rotation of the manifest is followed by a new one.
pub const MAX_MANI_ROT_SIZE: u64 = 65536;

/// The name of the file that keeps the configuration of a log.
pub open spec fn config_name(name: Seq<char>) -> Seq<char> {
    name + ".cfg"@
}

/// What the names of the manifest's rotations start with.
pub open spec fn mani_prefix(name: Seq<char>) -> Seq<char> {
    name + "_walmani."@
}

/// What the names of the data rotations start with.
pub open spec fn data_prefix(name: Seq<char>) -> Seq<char> {
    name + "_waldata_"@
}

/// A log, used to open a [`WalWriter`] or a [`WalReader`].
#[derive(Debug)]
pub struct WalInstance {
    name: String,
    order: ByteOrder,
    config: TunableConfig,
}

impl Clone for WalInstance {
    fn clone(&self) -> (r: Self)
        ensures
            r.name() == self.name(),
            r.order() == self.order(),
            r.config() == self.config(),
    {
        WalInstance { name: self.name.clone(), order: self.order, config: self.config }
    }
}

impl WalInstance {
    pub closed spec fn name(&self) -> Seq<char> {
        self.name@
    }

    pub closed spec fn order(&self) -> ByteOrder {
        self.order
    }

    pub closed spec fn config(&self) -> TunableConfig {
        self.config
    }

    /// The name of the file that keeps the configuration of a log.
    pub fn config_file(name: &str) -> (r: String)
        ensures
            r@ == config_name(name@),
    {
        let mut s = name.to_string();
        s.append(".cfg");
        s
    }

    /// Creates a log in the byte order of the machine, and says whether its configuration has to be
    /// saved.
    ///
    /// Parameters:
    /// - `name`: The name of the log. Data files are prefixed by this name.
    /// - `persisted`: The configuration that was saved, if there is one.
    /// - `config`: Optional configuration.
    pub fn new(
        name: &str,
        persisted: Option<TunableConfig>,
        config: Option<TunableConfig>,
    ) -> (r: (Self, bool))
        ensures
            r.0.name() == name@,
            r.0.order() == native_order(),
            match (persisted, config) {
                (None, None) => r.0.config() == TunableConfig::standard() && r.1,
                (None, Some(c)) => r.0.config() == c.sanitized() && r.1,
                (Some(p), None) => r.0.config() == p && !r.1,
                (Some(p), Some(c)) => {
                    let conf = (TunableConfig { block_size: p.block_size, ..c }).sanitized();
                    r.0.config() == conf && r.1 == (conf != p)
                },
            },
    {
        let (config, save) = TunableConfig::init_config(persisted, config);
        (WalInstance { name: name.to_string(), order: ByteOrder::native(), config }, save)
    }

    /// Gets the configuration.
    pub fn get_config(&self) -> (r: TunableConfig)
        ensures
            r == self.config(),
    {
        self.config
    }

    /// The rotator of the manifest, given the names of all files in the directory.
    pub fn mani_rotator(&self, files: Vec<String>) -> (r: Result<
        DefaultRotator<DefaultRotNameProvider>,
        Error,
    >)
        ensures
            opened(
                MAX_MANI_ROT,
                MAX_MANI_ROT_SIZE,
                |p: DefaultRotNameProvider| p.prefix@ == mani_prefix(self.name()),
                texts(files@),
                r,
            ),
    {
        let mut prefix = self.name.clone();
        prefix.append("_walmani.");
        DefaultRotator::new(prefix.as_str(), MAX_MANI_ROT, MAX_MANI_ROT_SIZE, files)
    }

    /// The provider of the names of the data rotations.
    pub fn data_rot_names(&self) -> (r: WalDataRotNameProvider)
        ensures
            r.prefix@ == data_prefix(self.name()),
            r.next_lsn == 1,
    {
        let mut prefix = self.name.clone();
        prefix.append("_waldata_");
        WalDataRotNameProvider::new(prefix.as_str())
    }

    /// The rotator of the data, given the names of all files in the directory.
    pub fn data_rotator(&self, files: Vec<String>) -> (r: Result<
        DefaultRotator<WalDataRotNameProvider>,
        Error,
    >)
        ensures
            opened(
                0,
                self.config().max_data_rot_size,
                |p: WalDataRotNameProvider|
                    p.prefix@ == data_prefix(self.name()) && p.next_lsn == 1,
                texts(files@),
                r,
            ),
    {
        let rnp = self.data_rot_names();
        DefaultRotator::with_rot_name_resolver(0, self.config.max_data_rot_size, rnp, files)
    }

    /// The search for the range of LSNs.
    pub fn restore(&self) -> (r: LsnRestore)
        ensures
            r@.order == self.order(),
            r@.block_size == self.config().block_size,
            r@.mani_at == 0,
            r@.mani_min == 0,
    {
        LsnRestore::new(self.order, self.config.block_size)
    }

    /// Opens a writer for appending log entries. A writer and a reader of the same log can not be
    /// used at the same time.
    ///
    /// Parameters:
    /// - `min_lsn`: The smallest LSN that is needed.
    /// - `max_lsn`: The largest LSN that has been persisted.
    pub fn open_wal_writer(self, min_lsn: u64, max_lsn: u64) -> (r: WalWriter)
        requires
            max_lsn < u64::MAX,
            self.config().ringbuf_size_order < usize::BITS - 1,
        ensures
            r.wf(),
            r.instance() == self,
            r@ == (Control {
                running: true,
                min_lsn,
                max_lsn,
                ring: LogRing {
                    capacity: pow2(self.config().ringbuf_size_order as nat) as int,
                    items: Seq::empty(),
                    next_lsn: (max_lsn + 1) as u64,
                },
                config: self.config(),
            }),
    {
        WalWriter::new(self, min_lsn, max_lsn)
    }

    /// Opens a reader for reading log entries. A reader and a writer of the same log can not be
    /// used at the same time.
    ///
    /// Parameters:
    /// - `min_lsn`: The smallest LSN that is needed.
    /// - `max_lsn`: The largest LSN that has been persisted.
    pub fn open_wal_reader(self, min_lsn: u64, max_lsn: u64) -> (r: WalReader)
        ensures
            r.instance() == self,
            r.lsns() == (min_lsn, max_lsn),
            r.wf(),
    {
        WalReader::new(self, min_lsn, max_lsn)
    }
}

/// A writer used to append and persist log entries.
pub struct WalWriter {
    inst: WalInstance,
    cb: ControlBlock,
}

impl View for WalWriter {
    type V = Control;

    closed spec fn view(&self) -> Control {
        self.cb@
    }
}

impl WalWriter {
    pub closed spec fn instance(&self) -> WalInstance {
        self.inst
    }

    pub closed spec fn wf(&self) -> bool {
        self.cb.wf()
    }

    /// The LSNs of the entries that wait to be flushed are consecutive, up to the next one, and there
    /// are never more entries than the ring buffer holds.
    pub proof fn law_waiting_entries_are_consecutive(&self)
        requires
            self.wf(),
        ensures
            self@.ring.wf(),
    {
        self.cb.law_waiting_entries_are_consecutive();
    }

    fn new(inst: WalInstance, min_lsn: u64, max_lsn: u64) -> (r: Self)
        requires
            max_lsn < u64::MAX,
            inst.config().ringbuf_size_order < usize::BITS - 1,
        ensures
            r.wf(),
            r.instance() == inst,
            r@ == (Control {
                running: true,
                min_lsn,
                max_lsn,
                ring: LogRing {
                    capacity: pow2(inst.config().ringbuf_size_order as nat) as int,
                    items: Seq::empty(),
                    next_lsn: (max_lsn + 1) as u64,
                },
                config: inst.config(),
            }),
    {
        let mut cb = ControlBlock::new(min_lsn, max_lsn, inst.config);
        cb.set_running(true);
        WalWriter { inst, cb }
    }

    /// The state of the flushing thread.
    ///
    /// Parameters:
    /// - `data_rot`: The rotator of the data.
    /// - `size`: The size of the current data rotation.
    /// - `next_no_use_lsn`: The LSN at which the next rotation falls out of use.
    pub fn flushing(
        &self,
        data_rot: DefaultRotator<WalDataRotNameProvider>,
        size: u64,
        next_no_use_lsn: u64,
    ) -> (r: FlushingControlBlock)
        requires
            self.instance().config().usable(),
            self@.max_lsn < u64::MAX,
        ensures
            r@.wf(),
            r@.order == self.instance().order(),
            r@.block_size == self.instance().config().block_size,
            r@.buf_size == self.instance().config().bulk_flush_size,
            r@.checks_log == self.instance().config().checks_bef_flush_log,
            r@.checks_adv_lsn == self.instance().config().checks_bef_flush_adv_lsn,
            r@.buf == Seq::<u8>::empty(),
            r@.pending is None,
            r@.last_filled_lsn == self@.max_lsn,
            r@.max_flushed_lsn == self@.max_lsn,
            r@.last_min_lsn == self@.min_lsn,
            r@.mani_min_lsn == 0,
            r@.next_no_use_lsn == next_no_use_lsn,
            r@.log_check_cnt == 0,
            r@.adv_lsn_check_cnt == 0,
            r@.backoff == 0,
            r@.rot_size == size,
            r@.rot_size_max == data_rot.rot_size_max,
            r@.rot_no == data_rot.cur_rot_no,
            r@.prefix == data_rot.rnp.prefix@,
            r@.rot_lsn == data_rot.rnp.next_lsn,
    {
        let data_app = RotAppender::new(data_rot, true, size);
        FlushingControlBlock::new(
            self.inst.order,
            &self.inst.config,
            data_app,
            self.cb.min_lsn(),
            self.cb.max_lsn(),
            next_no_use_lsn,
        )
    }

    /// Appends a log entry. If it works OK, an LSN (Log Sequence Number) is returned. When the LSN
    /// returned by [`WalWriter::get_max_lsn`] has reached it, the entry has been persisted.
    pub fn append(&mut self, log: Bytes) -> (r: Result<u64, Error>)
        requires
            old(self).wf(),
            old(self)@.ring.next_lsn < u64::MAX,
        ensures
            final(self).wf(),
            final(self).instance() == old(self).instance(),
            match (old(self)@.refuses(contents(log).len()), r) {
                (None, Ok(lsn)) => {
                    &&& lsn == old(self)@.ring.next_lsn
                    &&& final(self)@ == (Control {
                        ring: old(self)@.ring.pushed(contents(log)),
                        ..old(self)@
                    })
                },
                (Some(expected), Err(e)) => e@ == expected && final(self)@ == old(self)@,
                _ => false,
            },
            r is Ok <==> {
                &&& old(self)@.running
                &&& contents(log).len() <= old(self)@.config.max_log_entry_size
                &&& old(self)@.ring.items.len() < old(self)@.ring.capacity
            },
            r is Ok ==> final(self)@.ring.items == old(self)@.ring.items.push(
                Entry { lsn: r->Ok_0, payload: contents(log) },
            ),
    {
        self.cb.append(log)
    }

    /// The LSN that the next entry gets.
    pub fn next_lsn(&self) -> (r: u64)
        ensures
            r == self@.ring.next_lsn,
    {
        self.cb.next_lsn()
    }

    /// Gets the maximum LSN of the log entries which have been persisted.
    pub fn get_max_lsn(&self) -> (r: u64)
        ensures
            r == self@.max_lsn,
    {
        self.cb.max_lsn()
    }

    /// Gets the smallest LSN that is needed.
    pub fn get_min_lsn(&self) -> (r: u64)
        ensures
            r == self@.min_lsn,
    {
        self.cb.min_lsn()
    }

    /// Notifies the writer that entries whose LSN is equal to or less than `lsn` are no longer
    /// needed and can be dropped from the persistence.
    pub fn advance_lsn(&mut self, lsn: u64) -> (r: Result<(), Error>)
        requires
            old(self).wf(),
            old(self)@.max_lsn < u64::MAX,
        ensures
            final(self).wf(),
            final(self).instance() == old(self).instance(),
            final(self)@ == old(self)@.advanced(lsn),
            match r {
                Ok(_) => old(self)@.running && lsn <= old(self)@.max_lsn,
                Err(e) => if !old(self)@.running {
                    e@ == ErrorView::FunctionNotRunning("WAL flushing"@)
                } else {
                    lsn > old(self)@.max_lsn && e@ == ErrorView::InvalidArgument(
                        "`lsn` is too large"@,
                    )
                },
            },
    {
        self.cb.advance_lsn(lsn)
    }

    /// Takes the oldest entry that is waiting to be flushed.
    pub fn pop(&mut self) -> (r: Option<LogEntry>)
        requires
            old(self).wf(),
        ensures
            final(self).wf(),
            final(self).instance() == old(self).instance(),
            final(self)@ == (Control { ring: old(self)@.ring.popped(), ..old(self)@ }),
            match r {
                Some(entry) => old(self)@.ring.items.len() > 0 && entry@
                    == old(self)@.ring.items[0],
                None => old(self)@.ring.items.len() == 0,
            },
    {
        self.cb.pop()
    }

    /// Notes that all entries up to `max_lsn` have been persisted.
    pub fn persisted(&mut self, max_lsn: u64)
        requires
            old(self).wf(),
        ensures
            final(self).wf(),
            final(self).instance() == old(self).instance(),
            final(self)@ == (Control { max_lsn, ..old(self)@ }),
    {
        self.cb.set_max_lsn(max_lsn)
    }

    /// Tells whether the flushing thread is to go on.
    pub fn is_running(&self) -> (r: bool)
        ensures
            r == self@.running,
    {
        self.cb.is_running()
    }

    /// Ends the work of the flushing thread.
    pub fn halt(&mut self)
        requires
            old(self).wf(),
        ensures
            final(self).wf(),
            final(self).instance() == old(self).instance(),
            final(self)@ == (Control { running: false, ..old(self)@ }),
    {
        self.cb.set_running(false)
    }

    /// Stops using the writer.
    pub fn stop(self) -> (r: WalInstance)
        ensures
            r == self.instance(),
    {
        self.inst
    }
}

/// A reader used to retrieve log entries, for playbacks in recovery case, etc.
pub struct WalReader {
    inst: WalInstance,
    min_lsn: u64,
    max_lsn: u64,
    data_rnp: WalDataRotNameProvider,
}

/// How many of the first rotations start at `start_lsn` or below.
pub open spec fn leading(prefix: Seq<char>, names: Seq<Seq<char>>, start_lsn: u64) -> int
    decreases names.len(),
{
    if names.len() == 0 || lsn_of(prefix, names[0]) > start_lsn {
        0
    } else {
        1 + leading(prefix, names.skip(1), start_lsn)
    }
}

/// Whether a replay can start there.
pub open spec fn in_range(lsns: (u64, u64), start_lsn: u64) -> bool {
    lsns.0 != 0 && lsns.0 <= start_lsn <= lsns.1
}

/// A replay that cannot start there.
pub open spec fn out_of_range() -> ErrorView {
    ErrorView::InvalidArgument("start_lsn is out of range"@)
}

/// The state of a search that has not begun.
pub open spec fn fresh_seek(
    order: ByteOrder,
    block_size: u32,
    start_lsn: u64,
    rot_names: Seq<Seq<char>>,
) -> SeekState {
    SeekState {
        start_lsn,
        size: 0,
        offset: 0,
        iter: IterState {
            order,
            block_size: block_size as int,
            read: ReadState { entries: Seq::empty(), mid: None },
            next_lsn: start_lsn,
            rot_names,
        },
    }
}

impl WalReader {
    pub closed spec fn instance(&self) -> WalInstance {
        self.inst
    }

    /// The smallest LSN that is needed and the largest that has been persisted.
    pub closed spec fn lsns(&self) -> (u64, u64) {
        (self.min_lsn, self.max_lsn)
    }

    pub closed spec fn wf(&self) -> bool {
        self.data_rnp.prefix@ == data_prefix(self.inst.name())
    }

    fn new(inst: WalInstance, min_lsn: u64, max_lsn: u64) -> (r: Self)
        ensures
            r.instance() == inst,
            r.lsns() == (min_lsn, max_lsn),
            r.wf(),
    {
        let data_rnp = inst.data_rot_names();
        WalReader { inst, min_lsn, max_lsn, data_rnp }
    }

    /// Lists the data rotations, given the names of all files in the directory.
    pub fn list_rot_names(&self, files: Vec<String>) -> (r: Vec<String>)
        requires
            self.wf(),
        ensures
            texts(r@).to_multiset() == texts(files@).filter(
                |n: Seq<char>| data_rot_info(data_prefix(self.instance().name()), n) is Some,
            ).to_multiset(),
            sorted(texts(r@)),
            forall|i: int|
                0 <= i < r@.len() ==> data_rot_info(
                    data_prefix(self.instance().name()),
                    #[trigger] texts(r@)[i],
                ) is Some,
    {
        let r = self.data_rnp.list_rot_names(files);
        proof {
            let p = data_prefix(self.instance().name());
            assert(texts(files@).filter(|n: Seq<char>| data_rot_info(p, n) is Some)
                == texts(files@).filter(|n: Seq<char>| self.data_rnp.is_rot(n))) by {
                assert((|n: Seq<char>| data_rot_info(p, n) is Some) =~= (|n: Seq<char>|
                    self.data_rnp.is_rot(n)));
            }
        }
        r
    }

    /// Checks that a replay can start at `start_lsn`.
    pub fn check_range(&self, start_lsn: u64) -> (r: Result<(), Error>)
        ensures
            match r {
                Ok(_) => in_range(self.lsns(), start_lsn),
                Err(e) => !in_range(self.lsns(), start_lsn) && e@ == out_of_range(),
            },
            r is Ok <==> 0 < self.lsns().0 <= start_lsn <= self.lsns().1,
    {
        if start_lsn < self.min_lsn || start_lsn > self.max_lsn || self.min_lsn == 0 {
            return Err(Error::InvalidArgument("start_lsn is out of range".to_string()));
        }
        Ok(())
    }

    /// Gets a search, the outcome of which is an iterator from which log entries can be retrieved.
    ///
    /// Parameters:
    /// - `start_lsn`: The LSN of the first entry to be retrieved.
    /// - `rot_names`: The data rotations, as [`WalReader::list_rot_names`] lists them.
    pub fn get_log_iter(&self, start_lsn: u64, rot_names: Vec<String>) -> (r: Result<
        LogSeek,
        Error,
    >)
        requires
            self.wf(),
            forall|i: int|
                0 <= i < rot_names@.len() ==> data_rot_info(
                    data_prefix(self.instance().name()),
                    #[trigger] texts(rot_names@)[i],
                ) is Some,
        ensures
            ({
                let names = texts(rot_names@);
                let k = leading(data_prefix(self.instance().name()), names, start_lsn);
                match r {
                    Ok(seek) => {
                        &&& in_range(self.lsns(), start_lsn)
                        &&& 0 < k <= names.len()
                        &&& seek.name() == names[k - 1]
                        &&& seek@ == fresh_seek(
                            self.instance().order(),
                            self.instance().config().block_size,
                            start_lsn,
                            names.skip(k),
                        )
                    },
                    Err(e) => if !in_range(self.lsns(), start_lsn) {
                        e@ == out_of_range()
                    } else {
                        k == 0 && e@ == ErrorView::MiscError(
                            "Unable to find data rotation matching `start_lsn`"@,
                        )
                    },
                }
            }),
    {
        match self.check_range(start_lsn) {
            Ok(_) => {},
            Err(e) => return Err(e),
        }
        let ghost names = texts(rot_names@);
        let ghost prefix = self.data_rnp.prefix@;
        let mut rest: VecDeque<String> = VecDeque::new();
        let mut last_name: Option<String> = None;
        let mut i: usize = 0;
        assert(names.skip(0) =~= names);
        while i < rot_names.len()
            invariant
                i <= rot_names@.len(),
                names == texts(rot_names@),
                prefix == self.data_rnp.prefix@,
                forall|j: int|
                    0 <= j < rot_names@.len() ==> data_rot_info(prefix, #[trigger] names[j])
                        is Some,
                i == 0 <==> last_name is None,
                i > 0 ==> last_name->0@ == names[i - 1],
                rest@.len() == 0,
                leading(prefix, names, start_lsn) == i + leading(
                    prefix,
                    names.skip(i as int),
                    start_lsn,
                ),
            ensures
                rest@.len() == 0,
                i <= rot_names@.len(),
                i == leading(prefix, names, start_lsn),
                i == 0 <==> last_name is None,
                i > 0 ==> last_name->0@ == names[i - 1],
            decreases rot_names@.len() - i,
        {
            assert(names.skip(i as int)[0] == rot_names@[i as int]@);
            assert(names[i as int] == rot_names@[i as int]@);
            let (_, lsn) = self.data_rnp.parse_rot_name(rot_names[i].as_str()).unwrap();
            if start_lsn < lsn {
                break;
            }
            assert(names.skip(i as int).skip(1) =~= names.skip(i + 1));
            last_name = Some(rot_names[i].clone());
            i += 1;
        }
        let rot_name = match last_name {
            Some(name) => name,
            None => return Err(
                Error::MiscError("Unable to find data rotation matching `start_lsn`".to_string()),
            ),
        };
        let ghost k = i as int;
        assert(texts(rest@) =~= names.subrange(k, k));
        while i < rot_names.len()
            invariant
                k <= i <= rot_names@.len(),
                names == texts(rot_names@),
                0 <= k,
                texts(rest@) == names.subrange(k, i as int),
            decreases rot_names@.len() - i,
        {
            let ghost before = rest@;
            rest.push_back(rot_names[i].clone());
            assert(names[i as int] == rot_names@[i as int]@);
            assert(texts(rest@) =~= texts(before).push(names[i as int]));
            assert(names.subrange(k, i + 1) =~= names.subrange(k, i as int).push(
                names[i as int],
            ));
            i += 1;
        }
        assert(names.subrange(k, i as int) =~= names.skip(k));
        Ok(LogSeek::new(self.inst.order, self.inst.config.block_size, start_lsn, rot_name, rest))
    }

    /// Gets the maximum LSN.
    pub fn get_max_lsn(&self) -> (r: u64)
        ensures
            r == readable(self.lsns().0, self.lsns().1).1,
            self.lsns().0 <= self.lsns().1 ==> r == self.lsns().1,
            self.lsns().1 < self.lsns().0 ==> r == 0,
    {
        if self.max_lsn < self.min_lsn {
            return 0;
        }
        self.max_lsn
    }

    /// Gets the minimal LSN.
    pub fn get_min_lsn(&self) -> (r: u64)
        ensures
            r == readable(self.lsns().0, self.lsns().1).0,
            self.lsns().0 <= self.lsns().1 ==> r == self.lsns().0,
            self.lsns().1 < self.lsns().0 ==> r == 0,
    {
        if self.max_lsn < self.min_lsn {
            return 0;
        }
        self.min_lsn
    }

    /// Finishes using this reader and gets the [`WalInstance`] which opened it.
    pub fn finish(self) -> (r: WalInstance)
        ensures
            r == self.instance(),
    {
        self.inst
    }
}

/// A reader reports the range of LSNs that was found when the log was opened, unless nothing that is
/// needed has been persisted, and then it reports none. A replay can start at an LSN exactly if it is
/// in the range that is reported.
pub proof fn law_reader_reports_range(min_lsn: u64, max_lsn: u64, start_lsn: u64)
    ensures
        min_lsn <= max_lsn ==> readable(min_lsn, max_lsn) == (min_lsn, max_lsn),
        max_lsn < min_lsn ==> readable(min_lsn, max_lsn) == (0u64, 0u64),
        in_range((min_lsn, max_lsn), start_lsn) <==> 0 < min_lsn <= start_lsn <= max_lsn,
        in_range((min_lsn, max_lsn), start_lsn) <==> {
            let (min, max) = readable(min_lsn, max_lsn);
            0 < min <= start_lsn <= max
        },
        out_of_range() == ErrorView::InvalidArgument("start_lsn is out of range"@),
{
}

/// The manifest has two rotations of 64KB at most.
pub proof fn law_manifest_is_small()
    ensures
        MAX_MANI_ROT == 2,
        MAX_MANI_ROT_SIZE == 64 * 1024,
{
}

/// A replay starts with nothing read, and expects the entry that it was asked to start with.
pub proof fn law_replay_starts_anew(
    order: ByteOrder,
    block_size: u32,
    start_lsn: u64,
    rot_names: Seq<Seq<char>>,
)
    ensures
        ({
            let s = fresh_seek(order, block_size, start_lsn, rot_names);
            &&& s.start_lsn == start_lsn
            &&& s.iter.next_lsn == start_lsn
            &&& s.iter.read.entries.len() == 0
            &&& s.iter.read.mid is None
            &&& s.iter.rot_names == rot_names
            &&& s.iter.order == order
            &&& s.iter.block_size == block_size
        }),
{
}

/// A replay starts in the last rotation whose first LSN is not above the one that is asked for, when
/// the rotations are listed in the order of their first LSNs.
pub proof fn law_replay_starts_in_last_rotation(
    prefix: Seq<char>,
    names: Seq<Seq<char>>,
    start_lsn: u64,
)
    ensures
        ({
            let k = leading(prefix, names, start_lsn);
            &&& 0 <= k <= names.len()
            &&& forall|i: int| 0 <= i < k ==> lsn_of(prefix, #[trigger] names[i]) <= start_lsn
            &&& k < names.len() ==> start_lsn < lsn_of(prefix, names[k])
        }),
    decreases names.len(),
{
    if names.len() > 0 && lsn_of(prefix, names[0]) <= start_lsn {
        let rest = names.skip(1);
        law_replay_starts_in_last_rotation(prefix, rest, start_lsn);
        let k = leading(prefix, names, start_lsn);
        assert forall|i: int| 0 <= i < k implies lsn_of(prefix, #[trigger] names[i])
            <= start_lsn by {
            if i > 0 {
                assert(rest[i - 1] == names[i]);
            }
        }
        if k < names.len() {
            assert(rest[k - 1] == names[k]);
        }
    }
}

/// The names of a log's files start with the name of the log, and what follows says what they keep.
pub proof fn law_file_names(name: Seq<char>)
    ensures
        config_name(name) == name + seq!['.', 'c', 'f', 'g'],
        mani_prefix(name) == name + seq!['_', 'w', 'a', 'l', 'm', 'a', 'n', 'i', '.'],
        data_prefix(name) == name + seq!['_', 'w', 'a', 'l', 'd', 'a', 't', 'a', '_'],
{
    reveal_strlit(".cfg");
    reveal_strlit("_walmani.");
    reveal_strlit("_waldata_");
    assert(".cfg"@ =~= seq!['.', 'c', 'f', 'g']);
    assert("_walmani."@ =~= seq!['_', 'w', 'a', 'l', 'm', 'a', 'n', 'i', '.']);
    assert("_waldata_"@ =~= seq!['_', 'w', 'a', 'l', 'd', 'a', 't', 'a', '_']);
}

} // verus!
