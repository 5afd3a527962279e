use bytes::Bytes;
use dbprimkit::appender::{RotAppender, RotNameProvider};
use dbprimkit::byteorder::ByteOrder;
use dbprimkit::wal::config::TunableConfig;
use dbprimkit::wal::disk::DiskManiEntry;
use dbprimkit::wal::flush::{FlushOp, Pause};
use dbprimkit::wal::instance::{WalInstance, WalReader, WalWriter};
use dbprimkit::wal::names::{no_use_rots, WalDataRotNameProvider};
use dbprimkit::wal::reader::{
    LogIterator, LogSeek, ReadAction, ReadEvent, SeekAction, SeekEvent,
};
use dbprimkit::wal::restore::{RestoreAction, RestoreEvent};
use dbprimkit::wal::task::{FlushingTask, TaskAction, TaskEvent};
use dbprimkit::wal::LogEntry;
use dbprimkit::Error;
use rand::RngExt;
use std::collections::BTreeMap;

/// A directory in memory.
#[derive(Clone)]
struct Dir {
    files: BTreeMap<String, Vec<u8>>,
}

impl Dir {
    fn new() -> Self {
        Dir { files: BTreeMap::new() }
    }

    fn list(&self) -> Vec<String> {
        self.files.keys().rev().cloned().collect()
    }

    fn open(&mut self, name: &str) {
        self.files.entry(name.to_string()).or_default();
    }

    fn read(&self, name: &str, from: u64, len: usize) -> Option<Bytes> {
        let f = &self.files[name];
        let from = from as usize;
        if from + len <= f.len() {
            Some(Bytes::copy_from_slice(&f[from..from + len]))
        } else {
            None
        }
    }

    fn data_rots(&self) -> Vec<String> {
        self.files.keys().filter(|n| n.contains("_waldata_")).cloned().collect()
    }
}

/// The smallest and the largest LSN of a log.
fn restore(dir: &Dir, inst: &WalInstance) -> Result<(u64, u64), Error> {
    let mani_rot = inst.mani_rotator(dir.list())?;
    let mut mani = mani_rot.restore_latest_rot(dir.list())?;
    let mut older = mani_rot.rnp.list_rot_names(dir.list());
    older.pop();
    let data = inst.data_rotator(dir.list())?.restore_latest_rot(dir.list())?;
    let mut r = inst.restore();
    let mut ev = match &mani {
        None => RestoreEvent::ManiMissing,
        Some(name) => RestoreEvent::ManiOpened(dir.files[name].len() as u64),
    };
    loop {
        ev = match r.restore_lsn(ev) {
            RestoreAction::ReadMani(at) => {
                RestoreEvent::ManiEntry(dir.read(mani.as_ref().unwrap(), at, 16).unwrap())
            }
            RestoreAction::OpenOlderMani => {
                mani = older.pop();
                match &mani {
                    None => RestoreEvent::ManiExhausted,
                    Some(name) => RestoreEvent::ManiOpened(dir.files[name].len() as u64),
                }
            }
            RestoreAction::OpenData => match &data {
                None => RestoreEvent::DataMissing,
                Some(name) => {
                    let (_, lsn) = inst.data_rot_names().parse_rot_name(name).unwrap();
                    RestoreEvent::DataOpened(dir.files[name].len() as u64, lsn)
                }
            },
            RestoreAction::ReadData(at) => {
                RestoreEvent::DataHeader(dir.read(data.as_ref().unwrap(), at, 32).unwrap())
            }
            RestoreAction::Done(min, max) => return Ok((min, max)),
            RestoreAction::Fail(e) => return Err(e),
        };
    }
}

/// A writer on a directory in memory, with what the flushing thread would do.
struct Writing {
    dir: Dir,
    writer: WalWriter,
    flushing: FlushingTask,
    rnp: WalDataRotNameProvider,
    data_cur: String,
    mani: RotAppender<dbprimkit::appender::DefaultRotator<dbprimkit::appender::DefaultRotNameProvider>>,
    mani_cur: String,
    published: Vec<u64>,
}

fn release(dir: &mut Dir, rnp: &WalDataRotNameProvider, min_lsn: u64) -> u64 {
    let names = rnp.list_rot_names(dir.list());
    let (unused, next) = no_use_rots(rnp, &names, min_lsn);
    for name in &names[..unused] {
        dir.files.remove(name).unwrap();
    }
    next
}

impl Writing {
    fn open(mut dir: Dir, inst: WalInstance) -> Result<Self, Error> {
        let (min, max) = restore(&dir, &inst)?;
        let mut mani_rot = inst.mani_rotator(dir.list())?;
        let mut data_rot = inst.data_rotator(dir.list())?;
        let rnp = inst.data_rot_names();
        let first = mani_rot.init_appending();
        dir.open(&first.name);
        let mani_size = dir.files[&first.name].len() as u64;
        let mani = RotAppender::new(mani_rot, false, mani_size);
        let mani_cur = first.name;
        let first = data_rot.init_appending();
        dir.open(&first.name);
        let size = dir.files[&first.name].len() as u64;
        let next_no_use = release(&mut dir, &rnp, min);
        let writer = inst.open_wal_writer(min, max);
        let flushing = FlushingTask::new(writer.flushing(data_rot, size, next_no_use));
        let mut w = Writing {
            dir,
            writer,
            flushing,
            rnp,
            data_cur: first.name,
            mani,
            mani_cur,
            published: Vec::new(),
        };
        w.go_on(TaskEvent::Begin);
        Ok(w)
    }

    fn perform(&mut self, ops: Vec<FlushOp>) {
        for op in ops {
            match op {
                FlushOp::AppendMani(bytes) => {
                    self.dir.files.get_mut(&self.mani_cur).unwrap().extend_from_slice(&bytes);
                    if self.mani.append(bytes.len() as u64, true) {
                        let names = self.mani.rot.rnp.list_rot_names(self.dir.list());
                        let n = self.mani.rot.new_rot(&names);
                        for oldest in &names[..n.remove] {
                            self.dir.files.remove(oldest).unwrap();
                        }
                        self.dir.open(&n.name);
                        self.mani.rot.switched(n.rot_no);
                        self.mani.switched();
                        self.mani_cur = n.name;
                    }
                }
                FlushOp::AppendData(bytes) => {
                    self.dir.files.get_mut(&self.data_cur).unwrap().extend_from_slice(&bytes)
                }
                FlushOp::SyncData => {}
                FlushOp::NewDataRot(name) => {
                    self.dir.open(&name);
                    self.data_cur = name;
                }
                FlushOp::ReleaseRots(min) => {
                    let next = release(&mut self.dir, &self.rnp, min);
                    self.flushing.released(next);
                }
                FlushOp::SetMaxLsn(max) => {
                    self.published.push(max);
                    self.writer.persisted(max);
                }
            }
        }
    }

    /// Does what the flushing thread does up to its next pause.
    fn go_on(&mut self, mut ev: TaskEvent) -> Pause {
        loop {
            assert!(self.flushing.has_room());
            let min = self.writer.get_min_lsn();
            ev = match self.flushing.step(ev, min, min) {
                TaskAction::Perform(ops) => {
                    self.perform(ops);
                    TaskEvent::Performed
                }
                TaskAction::Pop => match self.writer.pop() {
                    Some(entry) => TaskEvent::Popped(entry),
                    None => TaskEvent::Empty,
                },
                TaskAction::Rest(pause) => return pause,
            };
        }
    }

    /// One round of the flushing thread.
    fn round(&mut self) -> Pause {
        self.go_on(TaskEvent::Rested)
    }

    fn flush_all(&mut self) {
        let last = self.writer.next_lsn() - 1;
        let mut rounds = 0;
        while self.writer.get_max_lsn() < last {
            self.round();
            rounds += 1;
            assert!(rounds < 1000);
        }
    }

    fn append(&mut self, payload: Bytes) -> u64 {
        loop {
            match self.writer.append(payload.clone()) {
                Ok(lsn) => return lsn,
                Err(Error::RingBufferFull) => {
                    self.round();
                }
                Err(_) => panic!("append failed"),
            }
        }
    }
}

/// Reads on until there is an entry.
fn read_on(
    dir: &Dir,
    name: &mut String,
    pos: &mut u64,
    bs: usize,
    mut step: impl FnMut(ReadEvent) -> ReadAction,
) -> Result<bool, Error> {
    let mut ev = ReadEvent::Begin;
    loop {
        ev = match step(ev) {
            ReadAction::ReadBlock => match dir.read(name, *pos, bs) {
                Some(block) => {
                    *pos += bs as u64;
                    ReadEvent::Block(block)
                }
                None => ReadEvent::Eof,
            },
            ReadAction::OpenRot(next) => {
                *name = next;
                *pos = 0;
                ReadEvent::Opened(dir.files[name].len() as u64)
            }
            ReadAction::Done(any) => return Ok(any),
            ReadAction::Fail(e) => return Err(e),
        };
    }
}

/// Replays a log from `start` on.
fn replay(dir: &Dir, reader: &WalReader, bs: usize, start: u64) -> Result<Vec<LogEntry>, Error> {
    let mut out = Vec::new();
    replay_to(&mut out, dir, reader, bs, start)?;
    Ok(out)
}

/// Replays a log, and keeps what was read before something failed.
fn replay_to(
    out: &mut Vec<LogEntry>,
    dir: &Dir,
    reader: &WalReader,
    bs: usize,
    start: u64,
) -> Result<(), Error> {
    reader.check_range(start)?;
    let names = reader.list_rot_names(dir.list());
    let mut seek: LogSeek = reader.get_log_iter(start, names)?;
    let mut name = seek.rot_name().to_string();
    let mut pos: u64 = 0;
    let mut ev = SeekEvent::Opened(dir.files[&name].len() as u64);
    loop {
        ev = match seek.step(ev) {
            SeekAction::ReadHeader(at) => SeekEvent::Header(dir.read(&name, at, 32).unwrap()),
            SeekAction::ReadBlock(at) => match dir.read(&name, at, bs) {
                Some(block) => {
                    pos = at + bs as u64;
                    SeekEvent::Block(block)
                }
                None => SeekEvent::BlockEof,
            },
            SeekAction::ReadOn => {
                match read_on(dir, &mut name, &mut pos, bs, |e| seek.read_on(e)) {
                    Ok(any) => SeekEvent::ReadOn(any),
                    Err(e) => SeekEvent::Failed(e),
                }
            }
            SeekAction::Found => break,
            SeekAction::Fail(e) => return Err(e),
        };
    }
    let mut iter: LogIterator = seek.finish();
    loop {
        match iter.next() {
            Some(Ok(entry)) => out.push(entry),
            Some(Err(e)) => return Err(e),
            None => {
                if !read_on(dir, &mut name, &mut pos, bs, |e| iter.read_next(e))? {
                    return Ok(());
                }
            }
        }
    }
}

fn reader(dir: &Dir, inst: WalInstance) -> WalReader {
    let (min, max) = restore(dir, &inst).unwrap();
    inst.open_wal_reader(min, max)
}

fn small_config() -> TunableConfig {
    TunableConfig {
        ringbuf_size_order: 4,
        max_data_rot_size: 64 * 1024,
        block_size: 4096,
        bulk_flush_size: 16 * 1024,
        ..TunableConfig::default()
    }
}

fn instance(config: TunableConfig) -> WalInstance {
    WalInstance::new("log", Some(config), None).0
}

fn random_payload(limit: usize) -> Bytes {
    let mut rng = rand::rng();
    let len = match rng.random_range(0..10) {
        0 => 0,
        1 => rng.random_range(0..limit),
        _ => rng.random_range(0..300),
    };
    Bytes::from(vec![rng.random::<u8>(); len])
}

fn write_and_read(config: TunableConfig, count: u64, limit: usize, adv: bool, sessions: u32) {
    let bs = config.block_size as usize;
    let mut dir = Dir::new();
    let mut logs: BTreeMap<u64, Bytes> = BTreeMap::new();
    let mut max_adv_lsn: u64 = 0;
    let mut inst = instance(config);
    for _ in 0..sessions {
        let mut w = Writing::open(dir, inst).unwrap();
        let opened = w.writer.get_max_lsn();
        for _ in 0..count {
            let payload = random_payload(limit);
            let lsn = w.append(payload.clone());
            assert!(logs.insert(lsn, payload).is_none());
            if adv && lsn % 100 == 0 {
                let max_lsn = w.writer.get_max_lsn();
                if max_lsn > 100 {
                    max_adv_lsn = max_lsn - 100;
                    w.writer.advance_lsn(max_adv_lsn).unwrap();
                }
            }
        }
        w.flush_all();
        assert!(w.published.windows(2).all(|p| p[0] <= p[1]));
        assert!(w.published.iter().all(|lsn| opened <= *lsn && *lsn < w.writer.next_lsn()));
        w.writer.halt();
        assert!(!w.writer.is_running());
        dir = w.dir;
        inst = w.writer.stop();
    }
    let max_wlsn = *logs.keys().next_back().unwrap();
    assert_eq!(logs.len() as u64, max_wlsn);
    let r = reader(&dir, inst);
    let min_rlsn = r.get_min_lsn();
    assert!(min_rlsn <= max_adv_lsn + 1);
    assert_eq!(r.get_max_lsn(), max_wlsn);
    if adv && config.max_data_rot_size <= 64 * 1024 {
        let rots = dir.data_rots();
        assert!(!rots[0].contains(".00000000000000000001"));
    }
    let step = ((max_wlsn - min_rlsn) / 20).max(1);
    let mut start = min_rlsn;
    while start <= max_wlsn {
        let entries = replay(&dir, &r, bs, start).unwrap();
        assert_eq!(entries.len() as u64, max_wlsn - start + 1);
        for (i, e) in entries.iter().enumerate() {
            assert_eq!(e.lsn, start + i as u64);
            assert_eq!(e.payload, logs[&e.lsn]);
        }
        start += step;
    }
    assert_eq!(r.finish().get_config(), config);
}

#[test]
fn log_in_small_blocks_is_read_back() {
    write_and_read(small_config(), 2000, 20000, false, 1);
}

#[test]
fn log_with_released_rotations_is_read_back() {
    write_and_read(small_config(), 3000, 9000, true, 1);
}

#[test]
fn log_of_several_sessions_is_read_back() {
    write_and_read(small_config(), 700, 9000, true, 4);
}

#[test]
fn log_with_default_configuration_is_read_back() {
    write_and_read(TunableConfig::default(), 3000, 300000, false, 2);
}

#[test]
fn log_with_large_entries_is_read_back() {
    let config = TunableConfig {
        block_size: 128 * 1024,
        bulk_flush_size: 512 * 1024,
        max_data_rot_size: 4 * 1024 * 1024,
        ..TunableConfig::default()
    };
    write_and_read(config, 500, 1024 * 1024, true, 1);
}

#[test]
fn published_entries_are_there() {
    let config = small_config();
    let bs = config.block_size as usize;
    let mut w = Writing::open(Dir::new(), instance(config)).unwrap();
    let mut payloads: Vec<Bytes> = Vec::new();
    let mut looked: usize = 0;
    for i in 0..400 {
        let payload = random_payload(9000);
        w.append(payload.clone());
        payloads.push(payload);
        w.round();
        if i % 20 == 0 {
            w.flush_all();
        }
        if w.published.len() > looked {
            looked = w.published.len();
            let max = *w.published.last().unwrap();
            let r = instance(config).open_wal_reader(1, max);
            let entries = replay(&w.dir, &r, bs, 1).unwrap();
            assert_eq!(entries.len() as u64, max);
            for (e, p) in entries.iter().zip(&payloads) {
                assert_eq!(e.payload, p);
            }
        }
    }
    assert!(looked > 5);
}

#[test]
fn entry_sizes_around_a_block() {
    let config = small_config();
    let bs = config.block_size as usize;
    let mut w = Writing::open(Dir::new(), instance(config)).unwrap();
    let mut sizes: Vec<usize> = Vec::new();
    for d in 0..60 {
        sizes.push(bs - 30 - d);
        sizes.push(2 * bs - 30 - d);
        sizes.push(d);
    }
    for len in &sizes {
        w.append(Bytes::from(vec![7u8; *len]));
    }
    w.flush_all();
    let dir = w.dir;
    let inst = w.writer.stop();
    let r = reader(&dir, inst);
    let entries = replay(&dir, &r, bs, 1).unwrap();
    let read: Vec<usize> = entries.iter().map(|e| e.payload.len()).collect();
    assert_eq!(read, sizes);
}

#[test]
fn appending_is_refused() {
    let config = TunableConfig { ringbuf_size_order: 1, max_log_entry_size: 3, ..small_config() };
    let mut w = instance(config).open_wal_writer(0, 6);
    assert!(matches!(
        w.append(Bytes::from_static(b"abcd")),
        Err(Error::LogEntryTooLarge(3, 4))
    ));
    assert_eq!(w.append(Bytes::from_static(b"abc")).unwrap(), 7);
    assert_eq!(w.append(Bytes::new()).unwrap(), 8);
    assert!(matches!(w.append(Bytes::new()), Err(Error::RingBufferFull)));
    let e = w.pop().unwrap();
    assert_eq!((e.lsn, &e.payload[..]), (7, &b"abc"[..]));
    assert_eq!(w.append(Bytes::new()).unwrap(), 9);
    assert_eq!(w.pop().unwrap().lsn, 8);
    assert_eq!(w.pop().unwrap().lsn, 9);
    assert!(w.pop().is_none());
    w.halt();
    match w.append(Bytes::new()) {
        Err(Error::FunctionNotRunning(f)) => assert_eq!(f, "WAL flushing"),
        _ => panic!("appended to a log that is not flushed"),
    }
    assert!(matches!(w.advance_lsn(1), Err(Error::FunctionNotRunning(_))));
}

#[test]
fn smallest_lsn_advances() {
    let mut w = instance(small_config()).open_wal_writer(3, 10);
    assert_eq!((w.get_min_lsn(), w.get_max_lsn()), (3, 10));
    w.advance_lsn(2).unwrap();
    assert_eq!(w.get_min_lsn(), 3);
    w.advance_lsn(3).unwrap();
    assert_eq!(w.get_min_lsn(), 4);
    w.advance_lsn(7).unwrap();
    assert_eq!(w.get_min_lsn(), 8);
    w.advance_lsn(5).unwrap();
    assert_eq!(w.get_min_lsn(), 8);
    w.advance_lsn(8).unwrap();
    assert_eq!(w.get_min_lsn(), 9);
    match w.advance_lsn(11) {
        Err(Error::InvalidArgument(d)) => assert_eq!(d, "`lsn` is too large"),
        _ => panic!("advanced too far"),
    }
    w.advance_lsn(10).unwrap();
    assert_eq!(w.get_min_lsn(), 11);
    w.persisted(12);
    assert_eq!(w.get_max_lsn(), 12);

    // nothing is given up below the first LSN
    let mut w = instance(small_config()).open_wal_writer(0, 5);
    w.advance_lsn(0).unwrap();
    assert_eq!(w.get_min_lsn(), 0);
}

/// A log with three entries, the middle one in two blocks.
fn three_entries() -> (Dir, WalInstance) {
    let mut w = Writing::open(Dir::new(), instance(small_config())).unwrap();
    w.append(Bytes::from(vec![1u8; 100]));
    w.append(Bytes::from(vec![2u8; 5000]));
    w.append(Bytes::from(vec![3u8; 100]));
    w.flush_all();
    (w.dir, w.writer.stop())
}

fn corrupt(r: Result<Vec<LogEntry>, Error>) -> String {
    match r {
        Err(Error::CorruptFile(s)) => s,
        Err(e) => panic!("another error: {:?}", e),
        Ok(_) => panic!("no error"),
    }
}

fn misc<T>(r: Result<T, Error>) -> String {
    match r {
        Err(Error::MiscError(s)) => s,
        _ => panic!("another outcome"),
    }
}

#[test]
fn bytes_on_disk() {
    let (dir, inst) = three_entries();
    let names = dir.data_rots();
    assert_eq!(names, vec!["log_waldata_0000000000.00000000000000000001".to_string()]);
    let f = &dir.files[&names[0]];
    assert_eq!(f.len(), 2 * 4096);
    // the header of the first block: LSNs 1 to 2, and nothing needed yet
    assert_eq!(f[8..16], 1u64.to_ne_bytes());
    assert_eq!(f[16..24], 2u64.to_ne_bytes());
    assert_eq!(f[24..32], 0u64.to_ne_bytes());
    assert_eq!(f[..4], crc32c::crc32c(&f[4..32]).to_ne_bytes());
    // its records: a whole entry, and the first part of the next one, up to the end
    assert_eq!(f[36..40], 100u32.to_ne_bytes());
    assert_eq!(f[49], 0);
    assert_eq!(f[32 + 120 + 17], 1);
    let first_part: usize = 4096 - 32 - 120 - 20;
    assert_eq!(f[32 + 120 + 4..32 + 120 + 8], (first_part as u32).to_ne_bytes());
    // the second block: the last part, and a whole entry
    assert_eq!(f[4096 + 8..4096 + 16], 2u64.to_ne_bytes());
    assert_eq!(f[4096 + 16..4096 + 24], 3u64.to_ne_bytes());
    assert_eq!(f[4096 + 32 + 17], 3);
    let mani = &dir.files["log_walmani.0000000000"];
    assert_eq!(mani.len(), 16);
    assert_eq!(mani[8..16], 0u64.to_ne_bytes());
    assert_eq!(restore(&dir, &inst).unwrap(), (1, 3));
}

#[test]
fn replay_out_of_range() {
    let (dir, inst) = three_entries();
    let r = reader(&dir, inst);
    for start in [0, 4, u64::MAX] {
        match replay(&dir, &r, 4096, start) {
            Err(Error::InvalidArgument(d)) => assert_eq!(d, "start_lsn is out of range"),
            _ => panic!("replayed out of range"),
        }
    }
    assert_eq!(replay(&dir, &r, 4096, 2).unwrap().len(), 2);
    let inst = r.finish();
    let none = inst.open_wal_reader(0, 3);
    assert!(none.check_range(1).is_err());
    let past = none.finish().open_wal_reader(5, 4);
    assert_eq!((past.get_min_lsn(), past.get_max_lsn()), (0, 0));
}

#[test]
fn replay_without_matching_rotation() {
    let (dir, inst) = three_entries();
    let r = inst.open_wal_reader(1, 9);
    assert_eq!(
        misc(r.get_log_iter(1, Vec::new())),
        "Unable to find data rotation matching `start_lsn`"
    );
    let later = vec!["log_waldata_0000000001.00000000000000000002".to_string()];
    assert_eq!(
        misc(r.get_log_iter(1, later)),
        "Unable to find data rotation matching `start_lsn`"
    );
    assert_eq!(
        misc(replay(&dir, &r, 4096, 5)),
        "Unable to find log entry matching `start_lsn`"
    );
    let names = vec![
        "log_waldata_0000000000.00000000000000000001".to_string(),
        "log_waldata_0000000001.00000000000000000004".to_string(),
        "log_waldata_0000000002.00000000000000000009".to_string(),
    ];
    for (start, rot) in [(1, 0), (3, 0), (4, 1), (8, 1), (9, 2)] {
        let seek = r.get_log_iter(start, names.clone()).unwrap();
        assert_eq!(seek.rot_name(), names[rot]);
    }
}

#[test]
fn replay_of_corrupt_files() {
    let (dir, inst) = three_entries();
    let r = reader(&dir, inst);
    let name = dir.data_rots()[0].clone();

    let mut odd = dir.clone();
    odd.files.get_mut(&name).unwrap().push(0);
    assert_eq!(
        corrupt(replay(&odd, &r, 4096, 1)),
        "File size is not multiple of block size"
    );

    let mut cut = dir.clone();
    cut.files.get_mut(&name).unwrap().truncate(4096);
    assert_eq!(corrupt(replay(&cut, &r, 4096, 1)), "Unended paritial log");
    assert_eq!(corrupt(replay(&cut, &r, 4096, 2)), "Unended paritial log");

    let mut twice = dir.clone();
    let first = dir.files[&name][..4096].to_vec();
    let f = twice.files.get_mut(&name).unwrap();
    f.truncate(4096);
    f.extend_from_slice(&first);
    assert_eq!(corrupt(replay(&twice, &r, 4096, 1)), "Partial log entry not finished");

    let mut later = dir.clone();
    later.files.get_mut(&name).unwrap().drain(..4096);
    assert_eq!(corrupt(replay(&later, &r, 4096, 2)), "Unexpected paritial log entry");
    assert_eq!(replay(&later, &r, 4096, 3).unwrap().len(), 1);

    let mut header = dir.clone();
    header.files.get_mut(&name).unwrap()[10] ^= 1;
    assert!(matches!(replay(&header, &r, 4096, 1), Err(Error::CrcCheckFailed)));

    let mut record = dir.clone();
    record.files.get_mut(&name).unwrap()[60] ^= 1;
    assert!(matches!(replay(&record, &r, 4096, 1), Err(Error::DecodingFailed(_, _))));
}

#[test]
fn replay_of_mixed_up_blocks() {
    // two logs whose blocks do not belong together
    let (dir, inst) = three_entries();
    let name = dir.data_rots()[0].clone();
    let r = reader(&dir, inst);
    let mut w = Writing::open(Dir::new(), instance(small_config())).unwrap();
    w.append(Bytes::from(vec![9u8; 10]));
    w.append(Bytes::from(vec![9u8; 10]));
    w.append(Bytes::from(vec![9u8; 5000]));
    w.flush_all();
    let other = &w.dir.files[&name];
    let mut mixed = dir.clone();
    mixed.files.get_mut(&name).unwrap()[4096..].copy_from_slice(&other[4096..]);
    assert_eq!(corrupt(replay(&mixed, &r, 4096, 1)), "Unexpected paritial log lsn");

    let mut w = Writing::open(Dir::new(), instance(small_config())).unwrap();
    for _ in 0..3 {
        w.append(Bytes::from(vec![9u8; 10]));
        w.flush_all();
    }
    let name = w.dir.data_rots()[0].clone();
    let mut dir = w.dir.clone();
    dir.files.get_mut(&name).unwrap().drain(4096..2 * 4096);
    let r = reader(&dir, w.writer.stop());
    assert_eq!(misc(replay(&dir, &r, 4096, 1)), "Unexpected LSN in log entry");
}

#[test]
fn failures_of_the_storage_are_passed_on() {
    let (_, inst) = three_entries();
    let err = || Error::IoError(std::io::Error::other("gone"));
    let mut restore = inst.restore();
    assert!(matches!(
        restore.restore_lsn(RestoreEvent::Failed(err())),
        RestoreAction::Fail(Error::IoError(_))
    ));
    let r = inst.open_wal_reader(1, 3);
    let names = vec!["log_waldata_0000000000.00000000000000000001".to_string()];
    let mut seek = r.get_log_iter(1, names).unwrap();
    assert!(matches!(
        seek.step(SeekEvent::Failed(err())),
        SeekAction::Fail(Error::IoError(_))
    ));
    assert_eq!(
        misc(match seek.step(SeekEvent::BlockEof) {
            SeekAction::Fail(e) => Err::<(), Error>(e),
            _ => Ok(()),
        }),
        "Unable to find log entry matching `start_lsn`"
    );
    let mut iter = seek.finish();
    assert!(matches!(
        iter.read_next(ReadEvent::Failed(err())),
        ReadAction::Fail(Error::IoError(_))
    ));
    assert!(matches!(iter.read_next(ReadEvent::Opened(4097)), ReadAction::Fail(_)));
    assert!(matches!(iter.read_next(ReadEvent::Opened(8192)), ReadAction::ReadBlock));
    assert!(matches!(iter.read_next(ReadEvent::Eof), ReadAction::Done(false)));
    assert!(iter.next().is_none());
}

fn opening_fails(dir: &Dir) -> Error {
    match restore(dir, &instance(small_config())) {
        Err(e) => e,
        Ok(_) => panic!("opened"),
    }
}

#[test]
fn opening_a_log() {
    let inst = instance(small_config());
    assert_eq!(restore(&Dir::new(), &inst).unwrap(), (0, 0));
    let (dir, _) = three_entries();
    let data = dir.data_rots()[0].clone();
    let mani = "log_walmani.0000000000";

    let mut d = dir.clone();
    d.files.remove(&data);
    assert!(matches!(opening_fails(&d), Error::MiscError(s) if s == "Missing data rotations"));

    let mut d = dir.clone();
    d.files.get_mut(&data).unwrap().truncate(4095);
    assert!(matches!(opening_fails(&d), Error::CorruptFile(s) if s == "The data file is too small"));

    // a rotation that was just begun: its name tells the last LSN
    let mut d = dir.clone();
    d.files.get_mut(&data).unwrap().clear();
    assert_eq!(restore(&d, &inst).unwrap(), (0, 0));
    d.files.insert("log_waldata_0000000001.00000000000000000009".to_string(), Vec::new());
    assert_eq!(restore(&d, &inst).unwrap(), (1, 8));

    let mut d = dir.clone();
    d.files.get_mut(&data).unwrap().push(1);
    assert!(matches!(
        opening_fails(&d),
        Error::CorruptFile(s) if s == "File size is not multiple of block size"
    ));

    let mut d = dir.clone();
    d.files.get_mut(mani).unwrap().truncate(15);
    assert!(matches!(
        opening_fails(&d),
        Error::CorruptFile(s) if s == "The manifest file is too small"
    ));

    let mut d = dir.clone();
    d.files.get_mut(mani).unwrap()[12] ^= 1;
    assert!(matches!(opening_fails(&d), Error::DecodingFailed(_, _)));

    // the last sound entry of the manifest counts
    let mut d = dir.clone();
    let file = d.files.get_mut(mani).unwrap();
    file.clear();
    for min_lsn in [2, 3, 9] {
        let mut entry = Vec::new();
        DiskManiEntry::encode(&mut entry, min_lsn);
        file.extend_from_slice(&entry);
    }
    file[32] ^= 1;
    assert_eq!(restore(&d, &inst).unwrap(), (3, 3));
    d.files.get_mut(mani).unwrap()[28] ^= 1;
    assert_eq!(restore(&d, &inst).unwrap(), (2, 3));
    d.files.get_mut(mani).unwrap()[0] ^= 1;
    assert!(matches!(opening_fails(&d), Error::DecodingFailed(_, _)));

    let mut d = dir.clone();
    let last = d.files[&data].len() - 4096;
    d.files.get_mut(&data).unwrap()[last + 20] ^= 1;
    assert!(matches!(opening_fails(&d), Error::CrcCheckFailed));

    // an empty manifest: the data tell
    let mut d = dir.clone();
    d.files.get_mut(mani).unwrap().clear();
    assert_eq!(restore(&d, &inst).unwrap(), (1, 3));

    // a rotation of the manifest that was just begun: the one before it tells
    let mut d = dir.clone();
    let mut entry = Vec::new();
    DiskManiEntry::encode(&mut entry, 2);
    d.files.get_mut(mani).unwrap().extend_from_slice(&entry);
    d.files.insert("log_walmani.0000000001".to_string(), Vec::new());
    assert_eq!(restore(&d, &inst).unwrap(), (2, 3));

    // a part of an entry at the end of the manifest is not looked at
    let mut d = dir.clone();
    d.files.get_mut(mani).unwrap().extend_from_slice(&[1, 2, 3]);
    assert_eq!(restore(&d, &inst).unwrap(), (1, 3));
}

#[test]
fn advanced_lsn_is_kept() {
    let (dir, inst) = three_entries();
    let mut w = Writing::open(dir, inst).unwrap();
    assert_eq!((w.writer.get_min_lsn(), w.writer.get_max_lsn()), (1, 3));
    w.writer.advance_lsn(2).unwrap();
    w.round();
    let mani = &w.dir.files["log_walmani.0000000000"];
    assert_eq!(mani.len(), 32);
    assert_eq!(mani[24..], 3u64.to_ne_bytes());
    let dir = w.dir;
    let inst = w.writer.stop();
    assert_eq!(restore(&dir, &inst).unwrap(), (3, 3));
    let r = reader(&dir, inst);
    assert_eq!(replay(&dir, &r, 4096, 3).unwrap()[0].payload, vec![3u8; 100]);
    assert!(replay(&dir, &r, 4096, 2).is_err());
}

#[test]
fn rounds_without_work() {
    let config = TunableConfig { checks_bef_flush_log: 3, ..small_config() };
    let mut w = Writing::open(Dir::new(), instance(config)).unwrap();
    w.append(Bytes::from_static(b"waiting"));
    assert_eq!(w.round(), Pause::NoPause);
    for _ in 0..100 {
        assert_eq!(w.round(), Pause::Spin);
    }
    // three rounds are counted before the buffer is flushed
    for _ in 0..3 {
        assert_eq!(w.round(), Pause::Yield);
        assert_eq!(w.writer.get_max_lsn(), 0);
    }
    w.round();
    assert_eq!(w.writer.get_max_lsn(), 1);
    for _ in 0..96 {
        assert_eq!(w.round(), Pause::Yield);
    }
    assert_eq!(w.round(), Pause::Sleep);
    assert_eq!(w.round(), Pause::Sleep);
}

#[test]
fn names_of_data_rotations() {
    let mut rnp = instance(small_config()).data_rot_names();
    assert_eq!(rnp.gen_rot_name(7), "log_waldata_0000000007.00000000000000000001");
    rnp.set_flush_lsn(41);
    let name = rnp.gen_rot_name(u32::MAX);
    assert_eq!(name, "log_waldata_4294967295.00000000000000000042");
    assert_eq!(rnp.parse_rot_name(&name), Some((u32::MAX, 42)));
    for bad in [
        "log_waldata_",
        "log_waldata_0000000007",
        "log_waldata_0000000007-00000000000000000001",
        "log_waldata_000000000a.00000000000000000001",
        "log_waldata_4294967296.00000000000000000001",
        "log_waldata_0000000007.99999999999999999999",
        "log_waldata_0000000007.000000000000000000010",
        "lok_waldata_0000000007.00000000000000000001",
    ] {
        assert_eq!(rnp.parse_rot_name(bad), None);
        assert!(!rnp.accepts(bad));
    }
    assert_eq!(
        rnp.parse_rot_name("log_waldata_+000000007.+0000000000000000001"),
        Some((7, 1))
    );
}

#[test]
fn rotations_that_are_not_needed() {
    let rnp = instance(small_config()).data_rot_names();
    let names: Vec<String> = [(0, 1), (1, 10), (2, 20)]
        .iter()
        .map(|(no, lsn)| format!("log_waldata_{:010}.{:020}", no, lsn))
        .collect();
    assert_eq!(no_use_rots(&rnp, &names, 0), (0, 10));
    assert_eq!(no_use_rots(&rnp, &names, 9), (0, 10));
    assert_eq!(no_use_rots(&rnp, &names, 10), (1, 20));
    assert_eq!(no_use_rots(&rnp, &names, 25), (2, u64::MAX));
    assert_eq!(no_use_rots(&rnp, &names[..1].to_vec(), 25), (0, u64::MAX));
    assert_eq!(no_use_rots(&rnp, &Vec::new(), 25), (0, u64::MAX));
}

fn ops_of(action: TaskAction) -> Vec<FlushOp> {
    match action {
        TaskAction::Perform(ops) => ops,
        _ => panic!("nothing is performed"),
    }
}

/// A task in its first round, just before the ring buffer is found empty, with one entry buffered
/// that is overdue.
fn overdue_task() -> FlushingTask {
    let config = TunableConfig {
        max_data_rot_size: 1,
        checks_bef_flush_log: 0,
        checks_bef_flush_adv_lsn: 100,
        ..small_config()
    };
    let inst = instance(config);
    let mut rot = inst.data_rotator(Vec::new()).unwrap();
    rot.init_appending();
    let writer = inst.open_wal_writer(1, 6);
    let mut task = FlushingTask::new(writer.flushing(rot, 0, u64::MAX));
    assert!(ops_of(task.step(TaskEvent::Begin, 1, 1)).is_empty());
    assert!(matches!(
        task.step(TaskEvent::Performed, 1, 1),
        TaskAction::Rest(Pause::NoPause)
    ));
    assert!(matches!(task.step(TaskEvent::Rested, 1, 1), TaskAction::Pop));
    let entry = LogEntry { lsn: 7, payload: Bytes::from_static(b"seven") };
    assert!(ops_of(task.step(TaskEvent::Popped(entry), 1, 1)).is_empty());
    assert!(matches!(task.step(TaskEvent::Performed, 1, 1), TaskAction::Pop));
    let ops = ops_of(task.step(TaskEvent::Empty, 1, 1));
    assert_eq!(ops.len(), 6);
    assert!(matches!(&ops[0], FlushOp::AppendMani(b) if b[8..] == 1u64.to_ne_bytes()));
    assert!(matches!(&ops[1], FlushOp::AppendData(b) if b.len() as u32 == config.block_size));
    assert!(matches!(ops[2], FlushOp::SyncData));
    assert!(matches!(&ops[3], FlushOp::NewDataRot(n) if n.ends_with(".00000000000000000008")));
    assert!(matches!(ops[4], FlushOp::ReleaseRots(1)));
    assert!(matches!(ops[5], FlushOp::SetMaxLsn(7)));
    task
}

#[test]
fn what_a_flush_reports_counts_in_the_same_round() {
    let mut task = overdue_task();
    task.released(5);
    let ops = ops_of(task.step(TaskEvent::Performed, 7, 7));
    assert_eq!(ops.len(), 2);
    assert!(matches!(ops[0], FlushOp::AppendMani(_)));
    assert!(matches!(ops[1], FlushOp::ReleaseRots(7)));
    assert!(matches!(
        task.step(TaskEvent::Performed, 7, 7),
        TaskAction::Rest(Pause::NoPause)
    ));

    let mut task = overdue_task();
    task.released(8);
    assert!(ops_of(task.step(TaskEvent::Performed, 7, 7)).is_empty());
}

#[test]
fn rounds_without_entries_pause() {
    let mut task = overdue_task();
    assert!(ops_of(task.step(TaskEvent::Performed, 1, 1)).is_empty());
    assert!(matches!(
        task.step(TaskEvent::Performed, 1, 1),
        TaskAction::Rest(Pause::NoPause)
    ));
    assert!(matches!(task.step(TaskEvent::Rested, 1, 1), TaskAction::Pop));
    assert!(ops_of(task.step(TaskEvent::Empty, 1, 1)).is_empty());
    assert!(ops_of(task.step(TaskEvent::Performed, 1, 1)).is_empty());
    assert!(matches!(
        task.step(TaskEvent::Performed, 1, 1),
        TaskAction::Rest(Pause::Spin)
    ));
}

#[test]
fn log_that_was_just_begun_is_opened() {
    let w = Writing::open(Dir::new(), instance(small_config())).unwrap();
    let dir = w.dir;
    let inst = w.writer.stop();
    assert_eq!(restore(&dir, &inst).unwrap(), (0, 0));
    let r = reader(&dir, inst);
    assert_eq!((r.get_min_lsn(), r.get_max_lsn()), (0, 0));
    let mut w = Writing::open(dir, r.finish()).unwrap();
    assert_eq!(w.append(Bytes::from_static(b"first")), 1);
}

#[test]
fn log_that_was_just_rotated_is_opened() {
    let config = small_config();
    let mut w = Writing::open(Dir::new(), instance(config)).unwrap();
    for i in 0..64u8 {
        w.append(Bytes::from(vec![i; 4096 - 52]));
        w.flush_all();
        if i % 16 == 15 {
            // the rotation is complete, and those before it go
            assert!(w.dir.files[&w.data_cur].is_empty());
        } else if i % 16 == 8 {
            w.writer.advance_lsn(i as u64).unwrap();
        }
    }
    let dir = w.dir;
    let inst = w.writer.stop();
    let (min, max) = restore(&dir, &inst).unwrap();
    assert_eq!((min, max), (57, 64));
    let r = reader(&dir, inst);
    assert_eq!((r.get_min_lsn(), r.get_max_lsn()), (57, 64));
    let entries = replay(&dir, &r, 4096, min).unwrap();
    assert_eq!(entries.len(), 8);
    assert_eq!((entries[0].lsn, entries[0].payload[0]), (57, 56));
    let mut w = Writing::open(dir, r.finish()).unwrap();
    assert_eq!(w.append(Bytes::from_static(b"next")), 65);
}

#[test]
fn log_whose_entries_were_all_given_up_is_opened() {
    let (dir, inst) = three_entries();
    let mut w = Writing::open(dir, inst).unwrap();
    w.writer.advance_lsn(3).unwrap();
    w.round();
    let dir = w.dir;
    let inst = w.writer.stop();
    assert_eq!(restore(&dir, &inst).unwrap(), (4, 3));
    let r = reader(&dir, inst);
    assert_eq!((r.get_min_lsn(), r.get_max_lsn()), (0, 0));
}

#[test]
fn log_with_a_lower_limit_is_written_on() {
    let config = small_config();
    let mut w = Writing::open(Dir::new(), instance(config)).unwrap();
    for i in 1..=40u8 {
        w.append(Bytes::from(vec![i; 3000]));
    }
    w.flush_all();
    w.writer.advance_lsn(5).unwrap();
    let dir = w.dir;
    let lower = TunableConfig { max_data_rot_size: 8192, ..config };
    let mut w = Writing::open(dir, instance(lower)).unwrap();
    w.append(Bytes::from(vec![41u8; 20000]));
    w.append(Bytes::from(vec![42u8; 10]));
    w.flush_all();
    let dir = w.dir;
    let r = reader(&dir, w.writer.stop());
    let min = r.get_min_lsn();
    assert!(min <= 6);
    let entries = replay(&dir, &r, 4096, 6).unwrap();
    let read: Vec<(u64, u8, usize)> =
        entries.iter().map(|e| (e.lsn, e.payload[0], e.payload.len())).collect();
    assert_eq!(read.len(), 37);
    assert_eq!(read[0], (6, 6, 3000));
    assert_eq!(read[35], (41, 41, 20000));
    assert_eq!(read[36], (42, 42, 10));
}

#[test]
fn log_without_room_in_rotations_is_read_back() {
    let config = TunableConfig { max_data_rot_size: 0, ..small_config() };
    let mut w = Writing::open(Dir::new(), instance(config)).unwrap();
    let sizes = [10usize, 9000, 0, 4044, 4045, 20000, 1, 1];
    for (i, len) in sizes.iter().enumerate() {
        w.append(Bytes::from(vec![i as u8; *len]));
    }
    w.flush_all();
    let dir = w.dir;
    let r = reader(&dir, w.writer.stop());
    let entries = replay(&dir, &r, 4096, 1).unwrap();
    let read: Vec<usize> = entries.iter().map(|e| e.payload.len()).collect();
    assert_eq!(read, sizes);
}

#[test]
fn empty_entry_with_a_zero_checksum_is_read_back() {
    if ByteOrder::native() != ByteOrder::Little {
        return;
    }
    // the checksum of an empty entry with that LSN
    let lsn: u64 = 560150695;
    let mut body = vec![0u8; 4];
    body.extend_from_slice(&lsn.to_le_bytes());
    body.extend_from_slice(&[0; 4]);
    assert_eq!(crc32c::crc32c(&body), 0);
    let mut dir = Dir::new();
    dir.open("log_walmani.0000000000");
    dir.open(&format!("log_waldata_0000000000.{:020}", lsn - 1));
    let mut w = Writing::open(dir, instance(small_config())).unwrap();
    for i in 0..3 {
        assert_eq!(w.append(Bytes::new()), lsn - 1 + i);
    }
    w.flush_all();
    let dir = w.dir;
    let r = reader(&dir, w.writer.stop());
    let entries = replay(&dir, &r, 4096, lsn - 1).unwrap();
    let read: Vec<u64> = entries.iter().map(|e| e.lsn).collect();
    assert_eq!(read, [lsn - 1, lsn, lsn + 1]);
}

#[test]
fn what_follows_zeros_is_not_looked_at() {
    let (mut dir, inst) = three_entries();
    let name = dir.data_rots()[0].clone();
    let r = reader(&dir, inst);
    // behind the last record of the second block
    let end = 4096 + 32 + (20 + 1076) + (20 + 100);
    let f = dir.files.get_mut(&name).unwrap();
    assert!(f[end..].iter().all(|b| *b == 0));
    f[end + 8..].fill(7);
    assert_eq!(replay(&dir, &r, 4096, 1).unwrap().len(), 3);
    dir.files.get_mut(&name).unwrap()[end] = 7;
    assert!(matches!(replay(&dir, &r, 4096, 1), Err(Error::DecodingFailed(_, _))));
}

#[test]
fn full_rotation_that_goes_on_notes_the_smallest_lsn() {
    let inst = instance(small_config());
    let mut rot = inst.data_rotator(Vec::new()).unwrap();
    rot.init_appending();
    let writer = inst.open_wal_writer(1, 6);
    let mut task = FlushingTask::new(writer.flushing(rot, 64 * 1024, u64::MAX));
    task.step(TaskEvent::Begin, 1, 1);
    task.step(TaskEvent::Performed, 1, 1);
    task.step(TaskEvent::Rested, 1, 1);
    // the entry is cut, so the rotation cannot be left yet
    let entry = LogEntry { lsn: 7, payload: Bytes::from(vec![7u8; 9000]) };
    let ops = ops_of(task.step(TaskEvent::Popped(entry), 3, 5));
    assert_eq!(ops.len(), 3);
    assert!(matches!(&ops[0], FlushOp::AppendMani(b) if b[8..] == 5u64.to_ne_bytes()));
    assert!(matches!(ops[1], FlushOp::AppendData(_)));
    assert!(matches!(ops[2], FlushOp::SyncData));
    let ops = ops_of(task.step(TaskEvent::Performed, 5, 5));
    assert_eq!(ops.len(), 2);
    assert!(matches!(ops[0], FlushOp::AppendData(_)));
}

#[test]
fn log_stopped_within_an_entry_keeps_what_was_published() {
    let mut w = Writing::open(Dir::new(), instance(small_config())).unwrap();
    for i in 1..=3u8 {
        w.append(Bytes::from(vec![i; 1000]));
    }
    w.flush_all();
    assert_eq!(w.writer.get_max_lsn(), 3);
    w.append(Bytes::from(vec![4u8; 40000]));
    w.round();
    // a part of the entry is on disk, the rest is lost
    assert_eq!(w.writer.get_max_lsn(), 3);
    let dir = w.dir;
    let inst = w.writer.stop();
    assert_eq!(restore(&dir, &inst).unwrap(), (1, 4));
    let r = reader(&dir, inst);
    for start in 1..=3u64 {
        let mut out = Vec::new();
        match replay_to(&mut out, &dir, &r, 4096, start) {
            Err(Error::CorruptFile(d)) => assert_eq!(d, "Unended paritial log"),
            _ => panic!("replayed to the end"),
        }
        let read: Vec<(u64, u8, usize)> =
            out.iter().map(|e| (e.lsn, e.payload[0], e.payload.len())).collect();
        let written: Vec<(u64, u8, usize)> = (start..=3).map(|n| (n, n as u8, 1000)).collect();
        assert_eq!(read, written);
    }
}

#[test]
fn opening_a_writer_releases_rotations() {
    let mut w = Writing::open(Dir::new(), instance(small_config())).unwrap();
    for i in 0..40u8 {
        w.append(Bytes::from(vec![i; 4096 - 52]));
        w.flush_all();
    }
    let mut dir = w.dir;
    assert_eq!(dir.data_rots().len(), 3);
    // the smallest needed LSN was noted, but nothing was removed yet
    let mut entry = Vec::new();
    DiskManiEntry::encode(&mut entry, 20);
    dir.files.get_mut("log_walmani.0000000000").unwrap().extend_from_slice(&entry);
    let mut w = Writing::open(dir, w.writer.stop()).unwrap();
    assert_eq!(w.dir.data_rots().len(), 2);
    assert_eq!(w.append(Bytes::from_static(b"next")), 41);
    w.flush_all();
    let dir = w.dir;
    let r = reader(&dir, w.writer.stop());
    assert_eq!((r.get_min_lsn(), r.get_max_lsn()), (20, 41));
    let lsns: Vec<u64> =
        replay(&dir, &r, 4096, 20).unwrap().iter().map(|e| e.lsn).collect();
    assert_eq!(lsns, (20..=41).collect::<Vec<u64>>());
}

/// What there is of a replay, and what it fails with in the end, if it does.
fn replay_what_there_is(dir: &Dir, start: u64) -> (Vec<(u64, u8, usize)>, String) {
    let r = reader(dir, instance(small_config()));
    let mut out = Vec::new();
    let end = match replay_to(&mut out, dir, &r, 4096, start) {
        Ok(()) => String::new(),
        Err(Error::CorruptFile(d)) => d,
        Err(Error::MiscError(d)) => d,
        Err(_) => panic!("replay failed"),
    };
    (out.iter().map(|e| (e.lsn, e.payload[0], e.payload.len())).collect(), end)
}

#[test]
fn log_stopped_within_an_entry_is_written_on() {
    let mut dir = Dir::new();
    let mut inst = instance(small_config());
    let mut next = 1u64;
    for session in 1..=4u8 {
        let mut w = Writing::open(dir, inst).unwrap();
        for i in 0..3u64 {
            assert_eq!(w.append(Bytes::from(vec![session; 1000])), next + i);
        }
        w.flush_all();
        assert_eq!(w.writer.get_max_lsn(), next + 2);
        if session < 4 {
            // a part of the entry is on disk, the rest is lost
            w.append(Bytes::from(vec![9u8; 40000]));
            w.round();
            assert_eq!(w.writer.get_max_lsn(), next + 2);
        }
        dir = w.dir;
        inst = w.writer.stop();
        // the entry that was only begun counts
        let max = if session < 4 { next + 3 } else { next + 2 };
        assert_eq!(restore(&dir, &inst).unwrap(), (1, max));
        // what was published in each of the sessions is there, and a replay ends at a break
        for earlier in 1..=session {
            let first = (earlier as u64 - 1) * 4 + 1;
            for start in first..first + 3 {
                let published: Vec<(u64, u8, usize)> =
                    (start..first + 3).map(|n| (n, earlier, 1000)).collect();
                let end = if earlier < session {
                    "Unexpected LSN in log entry"
                } else if session < 4 {
                    "Unended paritial log"
                } else {
                    ""
                };
                assert_eq!(replay_what_there_is(&dir, start), (published, end.to_string()));
            }
        }
        next = max + 1;
    }
}

#[test]
fn log_stopped_within_an_entry_is_released_and_written_on() {
    let mut w = Writing::open(Dir::new(), instance(small_config())).unwrap();
    for i in 0..40u8 {
        w.append(Bytes::from(vec![i; 4096 - 52]));
        w.flush_all();
    }
    w.append(Bytes::from(vec![9u8; 40000]));
    w.round();
    let mut dir = w.dir;
    let inst = w.writer.stop();
    assert_eq!(restore(&dir, &inst).unwrap(), (1, 41));
    let before = dir.data_rots().len();
    let mut entry = Vec::new();
    DiskManiEntry::encode(&mut entry, 20);
    dir.files.get_mut("log_walmani.0000000000").unwrap().extend_from_slice(&entry);
    let mut w = Writing::open(dir, inst).unwrap();
    assert_eq!(w.dir.data_rots().len(), before - 1);
    assert_eq!(w.append(Bytes::from(vec![7u8; 10])), 42);
    w.flush_all();
    let dir = w.dir;
    assert_eq!(restore(&dir, &w.writer.stop()).unwrap(), (20, 42));
    assert_eq!(replay_what_there_is(&dir, 42), (vec![(42, 7, 10)], String::new()));
    let kept: Vec<(u64, u8, usize)> =
        (20..=40u64).map(|n| (n, n as u8 - 1, 4096 - 52)).collect();
    let end = "Unexpected LSN in log entry".to_string();
    assert_eq!(replay_what_there_is(&dir, 20), (kept, end));
}

#[test]
fn advanced_lsn_is_persisted_after_rounds_without_work() {
    let config = TunableConfig { checks_bef_flush_adv_lsn: 7, ..small_config() };
    let mut w = Writing::open(Dir::new(), instance(config)).unwrap();
    for i in 0..3u8 {
        w.append(Bytes::from(vec![i; 10]));
    }
    w.flush_all();
    let inst = instance(small_config());
    assert_eq!(restore(&w.dir, &inst).unwrap(), (1, 3));
    w.writer.advance_lsn(1).unwrap();
    let mut rounds = 0;
    while restore(&w.dir, &inst).unwrap() != (2, 3) {
        w.round();
        rounds += 1;
        assert!(rounds <= 101 + 7 + 1);
    }
    assert!(rounds > 7);
}
