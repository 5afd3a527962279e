//! What the flushing thread does to the files of a log, step by step.
use super::disk::{decode_header, decode_mani, mani_entry, BLOCK_HEAD_SIZE, MANI_ENTRY_SIZE};
use super::flush::{FlushState, Op, Pending};
use super::layout::flat;
use super::names::{data_rot_info, is_generated, lsn_of, unused_rots};
use super::reader::corrupt;
use super::replay::{consecutive, log_holds, replay, rot_names, Rot};
use super::restore::{RestoreSeen, RestoreState, RestoreWants};
use super::Entry;
use crate::byteorder::ByteOrder;
use crate::ErrorView;
use vstd::prelude::*;

verus! {

/// The data rotations after an operation of the flushing thread.
pub open spec fn perform(prefix: Seq<char>, rots: Seq<Rot>, op: Op) -> Seq<Rot> {
    match op {
        Op::AppendData(data) => rots.drop_last().push(
            Rot { name: rots.last().name, bytes: rots.last().bytes + data },
        ),
        Op::NewDataRot(name) => rots.push(Rot { name, bytes: Seq::empty() }),
        Op::ReleaseRots(min_lsn) => rots.skip(unused_rots(prefix, rot_names(rots), min_lsn)),
        _ => rots,
    }
}

/// The data rotations after several operations.
pub open spec fn performed(prefix: Seq<char>, rots: Seq<Rot>, ops: Seq<Op>) -> Seq<Rot>
    decreases ops.len(),
{
    if ops.len() == 0 {
        rots
    } else {
        performed(prefix, perform(prefix, rots, ops[0]), ops.skip(1))
    }
}

/// The latest entry of the manifest after several operations, given the one before.
pub open spec fn noted_by(mani: Seq<u8>, ops: Seq<Op>) -> Seq<u8>
    decreases ops.len(),
{
    if ops.len() == 0 {
        mani
    } else {
        match ops.last() {
            Op::AppendMani(entry) => entry,
            _ => noted_by(mani, ops.drop_last()),
        }
    }
}

/// The LSN up to which entries were published as persisted after several operations, given the one
/// before.
pub open spec fn published_by(max_lsn: u64, ops: Seq<Op>) -> u64
    decreases ops.len(),
{
    if ops.len() == 0 {
        max_lsn
    } else {
        match ops.last() {
            Op::SetMaxLsn(lsn) => lsn,
            _ => published_by(max_lsn, ops.drop_last()),
        }
    }
}

/// The flushing thread, and the files it writes to.
#[verifier::ext_equal]
pub struct Writing {
    pub s: FlushState,
    /// The data rotations.
    pub rots: Seq<Rot>,
    /// The latest entry of the manifest, empty if there is none.
    pub mani: Seq<u8>,
    /// The smallest LSN that was needed when the thread last looked.
    pub now: u64,
}

/// Something that the flushing thread does.
pub enum Step {
    /// Starts.
    Start,
    /// Takes an entry.
    Accept(Entry),
    /// Writes as much as possible of the entry into one block.
    Fill { min_lsn: u64, flush_min_lsn: u64 },
    /// Notes at which LSN the next rotation falls out of use.
    Released(u64),
    /// Flushes what has waited long enough.
    FlushOverdue { min_lsn: u64, flush_min_lsn: u64 },
    /// Ends a round.
    EndRound { noop: bool, min_lsn: u64 },
}

/// The operations that a step takes.
pub open spec fn ops_of(s: FlushState, step: Step) -> Seq<Op> {
    match step {
        Step::Start => if s.last_min_lsn == 0 {
            seq![Op::AppendMani(mani_entry(s.order, 0))]
        } else {
            Seq::empty()
        },
        Step::Fill { min_lsn, flush_min_lsn } => s.fill_ops(min_lsn, flush_min_lsn),
        Step::FlushOverdue { min_lsn, flush_min_lsn } => s.timed_ops(min_lsn, flush_min_lsn),
        Step::EndRound { noop, min_lsn } => s.advance_ops(min_lsn),
        _ => Seq::empty(),
    }
}

/// The state of the flushing thread after a step.
pub open spec fn state_after(s: FlushState, step: Step) -> FlushState {
    match step {
        Step::Start => if s.last_min_lsn == 0 {
            s.noted(0)
        } else {
            s
        },
        Step::Accept(entry) => FlushState {
            pending: Some(Pending { lsn: entry.lsn, left: entry.payload, split: false }),
            ..s
        },
        Step::Fill { min_lsn, flush_min_lsn } => s.filled(min_lsn, flush_min_lsn),
        Step::Released(next_no_use_lsn) => FlushState { next_no_use_lsn, ..s },
        Step::FlushOverdue { min_lsn, flush_min_lsn } => s.timed(min_lsn, flush_min_lsn),
        Step::EndRound { noop, min_lsn } => s.round_ended(noop, min_lsn),
    }
}

impl Writing {
    /// Whether a step can be taken. The smallest LSN that is needed never goes down.
    pub open spec fn can(self, step: Step) -> bool {
        match step {
            Step::Start => self.s.last_min_lsn == self.now,
            Step::Accept(entry) => self.s.pending is None && entry.lsn < u64::MAX,
            Step::Fill { min_lsn, flush_min_lsn } => {
                &&& self.s.pending is Some
                &&& self.s.has_room()
                &&& self.now <= min_lsn <= flush_min_lsn
            },
            Step::Released(_) => true,
            Step::FlushOverdue { min_lsn, flush_min_lsn } => {
                &&& self.s.pending is None
                &&& self.s.has_room()
                &&& self.now <= min_lsn <= flush_min_lsn
            },
            Step::EndRound { noop, min_lsn } => {
                &&& self.s.pending is None
                &&& !self.s.overdue()
                &&& self.now <= min_lsn
            },
        }
    }

    /// What a step leads to, when its operations are performed.
    #[verifier::opaque]
    pub open spec fn after(self, step: Step) -> Writing {
        let ops = ops_of(self.s, step);
        Writing {
            s: state_after(self.s, step),
            rots: performed(self.s.prefix, self.rots, ops),
            mani: noted_by(self.mani, ops),
            now: match step {
                Step::Fill { min_lsn, flush_min_lsn } => flush_min_lsn,
                Step::FlushOverdue { min_lsn, flush_min_lsn } => flush_min_lsn,
                Step::EndRound { noop, min_lsn } => min_lsn,
                _ => self.now,
            },
        }
    }
}

/// Whether steps can be taken one after the other.
pub open spec fn can_run(w: Writing, steps: Seq<Step>) -> bool
    decreases steps.len(),
{
    steps.len() > 0 ==> w.can(steps[0]) && can_run(w.after(steps[0]), steps.skip(1))
}

/// What steps lead to.
pub open spec fn run(w: Writing, steps: Seq<Step>) -> Writing
    decreases steps.len(),
{
    if steps.len() == 0 {
        w
    } else {
        run(w.after(steps[0]), steps.skip(1))
    }
}

/// The LSN up to which entries were published as persisted after steps, given the one before.
#[verifier::opaque]
pub open spec fn published(w: Writing, steps: Seq<Step>, max_lsn: u64) -> u64
    decreases steps.len(),
{
    if steps.len() == 0 {
        max_lsn
    } else {
        published(
            w.after(steps[0]),
            steps.skip(1),
            published_by(max_lsn, ops_of(w.s, steps[0])),
        )
    }
}

/// The entries that were taken.
pub open spec fn accepted(steps: Seq<Step>) -> Seq<Entry>
    decreases steps.len(),
{
    if steps.len() == 0 {
        Seq::empty()
    } else {
        match steps[0] {
            Step::Accept(entry) => seq![entry] + accepted(steps.skip(1)),
            _ => accepted(steps.skip(1)),
        }
    }
}

/// The smallest needed LSN of the whole log in the header of a block.
pub open spec fn header_min(o: ByteOrder, block: Seq<u8>) -> Option<u64> {
    match decode_header(o, block) {
        Ok(h) => Some(h.whole_min_lsn),
        Err(_) => None,
    }
}

/// The last block of whole blocks.
pub open spec fn last_block(bytes: Seq<u8>, bs: int) -> Seq<u8> {
    bytes.skip(bytes.len() - bs)
}

/// Whether all that was taken has been flushed.
pub open spec fn at_rest(w: Writing) -> bool {
    w.s.buf.len() == 0 && w.s.pending is None
}

/// The LSN that the first entry of a log has or will have.
pub open spec fn first_lsn(w: Writing) -> int {
    lsn_of(w.s.prefix, w.rots[0].name) as int
}

/// Whether the flushing thread goes on from a log that holds these entries, in these parts: it is at
/// rest, knows the size and the number of the last rotation and the LSN of the last entry, and the
/// smallest needed LSN is not below what the files keep of it.
pub open spec fn goes_on(w: Writing, parts: Seq<Seq<Entry>>) -> bool {
    let s = w.s;
    let bytes = w.rots.last().bytes;
    &&& s.wf()
    &&& at_rest(w)
    &&& w.rots.len() > 0
    &&& log_holds(s.order, s.block_size, s.prefix, w.rots, parts)
    &&& s.rot_size == bytes.len()
    &&& s.rot_no == data_rot_info(s.prefix, w.rots.last().name).unwrap().0
    &&& s.max_flushed_lsn + 1 == first_lsn(w) + flat(parts).len()
    &&& w.mani.len() > 0 ==> (decode_mani(s.order, w.mani) matches Ok(m) && s.mani_min_lsn <= m
        <= w.now)
    &&& w.mani.len() == 0 ==> s.mani_min_lsn == 0
    &&& bytes.len() > 0 ==> (header_min(s.order, last_block(bytes, s.block_size)) matches Some(m)
        && m <= w.now)
}

/// Whether `bytes` are whole blocks, and no header among them speaks of an LSN above `max_lsn`.
pub open spec fn headers_up_to(o: ByteOrder, bs: int, bytes: Seq<u8>, max_lsn: u64) -> bool
    decreases bytes.len(),
{
    if bytes.len() == 0 || bs <= 0 {
        bytes.len() == 0
    } else {
        &&& bs <= bytes.len()
        &&& decode_header(o, bytes.take(bs)) matches Ok(h) && h.max_lsn <= max_lsn
        &&& headers_up_to(o, bs, bytes.skip(bs), max_lsn)
    }
}

/// Whether the names of rotations are in order, by their numbers and by their LSNs, and the last LSN
/// is at most `next_lsn`.
#[verifier::opaque]
pub open spec fn in_order(prefix: Seq<char>, rots: Seq<Rot>, next_lsn: int) -> bool {
    &&& forall|i: int|
        0 <= i < rots.len() ==> {
            &&& is_generated(prefix, (#[trigger] rots[i]).name)
            &&& lsn_of(prefix, rots[i].name) <= next_lsn
        }
    &&& forall|i: int, j: int|
        #![trigger rots[i], rots[j]]
        0 <= i < j < rots.len() ==> {
            &&& data_rot_info(prefix, rots[i].name).unwrap().0 < data_rot_info(
                prefix,
                rots[j].name,
            ).unwrap().0
            &&& lsn_of(prefix, rots[i].name) <= lsn_of(prefix, rots[j].name)
        }
}

/// Whether the flushing thread can take up a log, whatever entries it holds, and also if some of them
/// are not complete: it is at rest, knows the number of the last rotation and the largest LSN that
/// was used, which is the one in the last header, or the one before the LSN in the last name, and the
/// smallest needed LSN is not below what the files keep of it.
pub open spec fn takes_up(w: Writing) -> bool {
    let s = w.s;
    let max_lsn = s.max_flushed_lsn;
    let bytes = w.rots.last().bytes;
    &&& s.wf()
    &&& at_rest(w)
    &&& w.rots.len() > 0
    &&& in_order(s.prefix, w.rots, max_lsn + 1)
    &&& s.rot_no == data_rot_info(s.prefix, w.rots.last().name).unwrap().0
    &&& headers_up_to(s.order, s.block_size, bytes, max_lsn)
    &&& w.mani.len() > 0 ==> (decode_mani(s.order, w.mani) matches Ok(m) && s.mani_min_lsn <= m
        <= w.now)
    &&& w.mani.len() == 0 ==> s.mani_min_lsn == 0
    &&& bytes.len() == 0 ==> lsn_of(s.prefix, w.rots.last().name) == max_lsn + 1
    &&& bytes.len() > 0 ==> (decode_header(s.order, last_block(bytes, s.block_size)) matches Ok(h)
        && h.max_lsn == max_lsn && h.whole_min_lsn <= w.now)
}

/// Whether the flushing thread starts with what was found when the log was opened.
pub open spec fn opens(w: Writing, begun: bool, mani_size: u64, s: FlushState) -> bool {
    &&& s.wf()
    &&& s.buf.len() == 0
    &&& s.pending is None
    &&& s.mani_min_lsn == 0
    &&& s.order == w.s.order
    &&& s.block_size == w.s.block_size
    &&& s.prefix == w.s.prefix
    &&& s.rot_no == data_rot_info(s.prefix, w.rots.last().name).unwrap().0
    &&& found(w, begun, mani_size) matches RestoreWants::Done(_, max) && s.max_flushed_lsn == max
}

/// A log that was opened again, before the flushing thread has done anything.
pub open spec fn opened(w: Writing, begun: bool, mani_size: u64, s: FlushState) -> Writing {
    Writing { s, rots: w.rots, mani: w.mani, now: found(w, begun, mani_size)->Done_0 }
}

/// A log after the rotations were released that hold only entries below the smallest needed LSN.
pub open spec fn released(w: Writing) -> Writing {
    Writing { rots: perform(w.s.prefix, w.rots, Op::ReleaseRots(w.now)), ..w }
}

/// What happens to a log from one opening to the next: the steps that the flushing thread takes, and
/// what is found then, with which the next session starts.
pub struct Session {
    pub steps: Seq<Step>,
    pub begun: bool,
    pub mani_size: u64,
    pub s: FlushState,
    /// Whether rotations that are not needed are released when the log is opened.
    pub releases: bool,
}

/// Whether that can happen: the entries that are taken have the LSNs that follow, and sizes and LSNs
/// stay in the range of their types.
pub open spec fn can_hold(w: Writing, session: Session) -> bool {
    let w2 = run(w, session.steps);
    &&& can_run(w, session.steps)
    &&& consecutive(accepted(session.steps), w.s.max_flushed_lsn + 1)
    &&& w.s.max_flushed_lsn + 1 + accepted(session.steps).len() <= u64::MAX
    &&& forall|i: int| 0 <= i < w2.rots.len() ==> (#[trigger] w2.rots[i]).bytes.len() <= u64::MAX
    &&& session.mani_size >= MANI_ENTRY_SIZE
    &&& opens(w2, session.begun, session.mani_size, session.s)
}

/// The log at the start of the next session.
pub open spec fn after_session(w: Writing, session: Session) -> Writing {
    let w2 = opened(run(w, session.steps), session.begun, session.mani_size, session.s);
    if session.releases {
        released(w2)
    } else {
        w2
    }
}

/// Whether sessions can follow each other.
pub open spec fn can_hold_all(w: Writing, sessions: Seq<Session>) -> bool
    decreases sessions.len(),
{
    sessions.len() > 0 ==> can_hold(w, sessions[0]) && can_hold_all(
        after_session(w, sessions[0]),
        sessions.skip(1),
    )
}

/// The log after several sessions.
pub open spec fn after_sessions(w: Writing, sessions: Seq<Session>) -> Writing
    decreases sessions.len(),
{
    if sessions.len() == 0 {
        w
    } else {
        after_sessions(after_session(w, sessions[0]), sessions.skip(1))
    }
}

/// Whether a log holds `entries` but for the first `gone` of them, none of which is needed.
pub open spec fn log_keeps(
    w: Writing,
    parts: Seq<Seq<Entry>>,
    entries: Seq<Entry>,
    gone: int,
) -> bool {
    &&& log_holds(w.s.order, w.s.block_size, w.s.prefix, w.rots, parts)
    &&& 0 <= gone <= entries.len()
    &&& flat(parts) == entries.skip(gone)
    &&& forall|i: int| 0 <= i < gone ==> (#[trigger] entries[i]).lsn < w.now
}

/// What is found out when the files of a log are opened.
pub open spec fn found(w: Writing, begun: bool, mani_size: u64) -> RestoreWants {
    reopened(
        w.s.order,
        w.s.block_size,
        w.s.prefix,
        begun,
        mani_size,
        w.mani,
        w.rots.last(),
    )
}

/// What a replay of a log from `start_lsn` on gives.
pub open spec fn replay_of(w: Writing, start_lsn: u64) -> (Seq<Entry>, Option<ErrorView>) {
    replay(w.s.order, w.s.block_size as u32, w.s.prefix, w.rots, start_lsn)
}

/// Whether the smallest LSN that was found does not run ahead of what is needed.
pub open spec fn not_ahead(min: u64, now: u64) -> bool {
    min <= now || (now == 0 && min == 1)
}

/// Whether a replay from the entry with the index `n` on starts with the entries up to the index `k`.
/// It may go on with the entries that follow them, and fails only at the end, if the last one is not
/// complete.
pub open spec fn starts_with(w: Writing, all: Seq<Entry>, n: int, k: int) -> bool {
    let (entries, e) = replay_of(w, all[n].lsn);
    &&& k - n <= entries.len() <= all.len() - n
    &&& entries == all.subrange(n, n + entries.len())
    &&& e is None || e == Some(corrupt("Unended paritial log"@))
}

/// Whether opening a log finds the last of `all` as the largest LSN, the first of which is `first`, and
/// each replay between the two LSNs that are found gives exactly the entries from there on.
pub open spec fn gives_back(
    w: Writing,
    first: int,
    all: Seq<Entry>,
    begun: bool,
    mani_size: u64,
) -> bool {
    &&& found(w, begun, mani_size) matches RestoreWants::Done(min, max) && {
        &&& max + 1 == first + all.len()
        &&& not_ahead(min, w.now)
        &&& forall|n: int|
            0 <= n < all.len() && (#[trigger] all[n]).lsn >= min ==> replay_of(w, all[n].lsn) == (
                all.skip(n),
                None::<ErrorView>,
            )
    }
}

/// Whether opening a log finds a largest LSN that is not below `lsn`, and each replay between the
/// smallest one that is found and `lsn` starts with the entries up to `lsn`. The LSN of the first of
/// `all` is `first`.
pub open spec fn gives_back_up_to(
    w: Writing,
    first: int,
    all: Seq<Entry>,
    lsn: u64,
    begun: bool,
    mani_size: u64,
) -> bool {
    let k = lsn + 1 - first;
    &&& 0 <= k <= all.len()
    &&& found(w, begun, mani_size) matches RestoreWants::Done(min, max) && {
        &&& lsn <= max < first + all.len()
        &&& not_ahead(min, w.now)
        &&& forall|n: int|
            0 <= n < k && (#[trigger] all[n]).lsn >= min ==> starts_with(w, all, n, k)
    }
}

/// What is found out when a log is opened. Its manifest ends in `mani`, which is empty if it has no
/// entry, at the end of a rotation of `mani_size` bytes; `begun` tells whether a rotation follows that
/// has no entry yet. The last data rotation is `rot`.
#[verifier::opaque]
pub open spec fn reopened(
    o: ByteOrder,
    bs: int,
    prefix: Seq<char>,
    begun: bool,
    mani_size: u64,
    mani: Seq<u8>,
    rot: Rot,
) -> RestoreWants {
    let s0 = RestoreState { order: o, block_size: bs, mani_at: 0, mani_min: 0 };
    let s1 = s0.after(RestoreSeen::ManiOpened(0));
    if mani.len() > 0 && !begun {
        mani_reopened(s0, prefix, mani_size, mani, rot)
    } else {
        match s0.asks(RestoreSeen::ManiOpened(0)) {
            RestoreWants::OpenOlderMani => if mani.len() > 0 {
                mani_reopened(s1, prefix, mani_size, mani, rot)
            } else {
                match s1.asks(RestoreSeen::ManiExhausted) {
                    RestoreWants::OpenData => data_reopened(
                        s1.after(RestoreSeen::ManiExhausted),
                        prefix,
                        rot,
                    ),
                    other => other,
                }
            },
            other => other,
        }
    }
}

/// What is found out when the rotation of the manifest that holds its last entry is opened.
pub open spec fn mani_reopened(
    s: RestoreState,
    prefix: Seq<char>,
    mani_size: u64,
    mani: Seq<u8>,
    rot: Rot,
) -> RestoreWants {
    let s1 = s.after(RestoreSeen::ManiOpened(mani_size));
    match s.asks(RestoreSeen::ManiOpened(mani_size)) {
        RestoreWants::ReadMani(_) => match s1.asks(RestoreSeen::ManiEntry(mani)) {
            RestoreWants::OpenData => data_reopened(
                s1.after(RestoreSeen::ManiEntry(mani)),
                prefix,
                rot,
            ),
            other => other,
        },
        other => other,
    }
}

/// What is found out when the last data rotation of a log is opened.
pub open spec fn data_reopened(s: RestoreState, prefix: Seq<char>, rot: Rot) -> RestoreWants {
    let data = rot.bytes;
    match s.asks(RestoreSeen::DataOpened(data.len() as u64, lsn_of(prefix, rot.name))) {
        RestoreWants::ReadData(at) => s.asks(
            RestoreSeen::DataHeader(data.subrange(at as int, at + BLOCK_HEAD_SIZE)),
        ),
        other => other,
    }
}

} // verus!
