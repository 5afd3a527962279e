//! What each step of the flushing thread is for: when it flushes, in which order its operations come,
//! when a new rotation follows, and that whatever has been flushed is published.
use super::super::disk::{mani_entry, BLOCK_HEAD_SIZE};
use super::super::flush::{
    lemma_begun, lemma_filled, lemma_last_block, lemma_placed, lemma_sealed, lemma_timed, lemma_within_block,
    quiet_ops, quiet_round, quiet_rounds, FlushState, Op, Pause, Pending,
};
use super::super::names::{data_rot_info, data_rot_name, law_data_rot_name_reads_back};
use super::super::replay::consecutive;
use super::super::writing::{
    accepted, at_rest, can_run, ops_of, published, published_by, run, state_after, Step, Writing,
};
use super::super::Entry;
use super::{lemma_published_first, lemma_rested};
use crate::byteorder::{
    law_u32_reads_back, law_u64_reads_back, overwritten, u32_at, u32_bytes, u64_at, u64_bytes,
};
use crate::outside::crc32c_of;
use vstd::prelude::*;

verus! {

/// Whether one of the operations appends to the data.
pub open spec fn appends_data(ops: Seq<Op>) -> bool {
    exists|i: int| 0 <= i < ops.len() && (#[trigger] ops[i]) is AppendData
}

/// Whether one of the operations starts a new data rotation.
pub open spec fn starts_rotation(ops: Seq<Op>) -> bool {
    exists|i: int| 0 <= i < ops.len() && (#[trigger] ops[i]) is NewDataRot
}

/// Whether one of the operations writes to the manifest.
pub open spec fn notes_lsn(ops: Seq<Op>) -> bool {
    exists|i: int| 0 <= i < ops.len() && (#[trigger] ops[i]) is AppendMani
}

/// The operations of a flush, one by one.
proof fn lemma_flush_parts(s: FlushState, rotatable: bool, min_lsn: u64) -> (n: int)
    ensures
        ({
            let ops = s.flush_ops(rotatable, min_lsn);
            let rotates = rotatable && s.rot_size + s.buf.len() >= s.rot_size_max;
            let name = data_rot_name(
                s.prefix,
                (s.rot_no + 1) as u32,
                (s.last_filled_lsn + 1) as u64,
            );
            &&& n == 0 || (n == 1 && ops[0] == Op::AppendMani(mani_entry(s.order, min_lsn)))
            &&& n == 0 && rotates ==> min_lsn <= s.mani_min_lsn
            &&& ops[n] == Op::AppendData(s.buf)
            &&& ops[n + 1] == Op::SyncData
            &&& rotates ==> {
                &&& ops.len() == n + 5
                &&& ops[n + 2] == Op::NewDataRot(name)
                &&& ops[n + 3] == Op::ReleaseRots(min_lsn)
                &&& ops[n + 4] == Op::SetMaxLsn(s.max_flushed_lsn)
            }
            &&& rotatable && !rotates ==> {
                &&& ops.len() == n + 3
                &&& ops[n + 2] == Op::SetMaxLsn(s.max_flushed_lsn)
            }
            &&& !rotatable ==> ops.len() == n + 2
        }),
{
    if s.notes_first(rotatable, min_lsn) {
        1
    } else {
        0
    }
}

/// What a step flushes, if it flushes: the state before the flush, and whether a rotation may end then.
spec fn flush_of(s: FlushState, step: Step) -> Option<(FlushState, bool, u64)> {
    match step {
        Step::Fill { min_lsn, flush_min_lsn } => {
            let u = s.begun(min_lsn).placed();
            if u.flushes() {
                Some((u.sealed(min_lsn), u.whole(), flush_min_lsn))
            } else {
                None
            }
        },
        Step::FlushOverdue { min_lsn, flush_min_lsn } => if s.overdue() {
            Some((s.padded().sealed(min_lsn), true, flush_min_lsn))
        } else {
            None
        },
        _ => None,
    }
}

/// The operations of a step are those of a flush, or there are none that touch the data.
#[verifier::spinoff_prover]
proof fn lemma_step_flush(s: FlushState, step: Step)
    requires
        s.wf(),
        step is Fill ==> s.pending is Some,
        step is FlushOverdue ==> s.pending is None,
    ensures
        match flush_of(s, step) {
            Some((t, rotatable, min_lsn)) => {
                let next = state_after(s, step);
                &&& ops_of(s, step) == t.flush_ops(rotatable, min_lsn)
                &&& next == t.flushed(rotatable, min_lsn)
                &&& t.rot_size == s.rot_size
                &&& t.rot_size_max == s.rot_size_max
                &&& t.rot_no == s.rot_no
                &&& t.prefix == s.prefix
                &&& t.order == s.order
                &&& t.mani_min_lsn == s.mani_min_lsn
                &&& t.buf.len() > 0
                &&& t.buf.len() <= s.buf_size
                &&& next.buf.len() == 0
                &&& next.last_filled_lsn == t.last_filled_lsn
                &&& next.max_flushed_lsn == t.max_flushed_lsn
                &&& next.pending == t.pending
                &&& rotatable == next.whole()
                &&& t.last_filled_lsn < u64::MAX
            },
            None => {
                &&& forall|i: int|
                    0 <= i < ops_of(s, step).len() ==> {
                        let op = #[trigger] ops_of(s, step)[i];
                        op is AppendMani || op is ReleaseRots
                    }
                &&& step is Fill ==> ops_of(s, step).len() == 0
                &&& step is FlushOverdue ==> ops_of(s, step).len() == 0 && state_after(s, step) == s
                &&& state_after(s, step).rot_size == s.rot_size
                &&& state_after(s, step).rot_no == s.rot_no
            },
        },
{
    match step {
        Step::Fill { min_lsn, flush_min_lsn } => {
            let b = s.begun(min_lsn);
            let u = b.placed();
            lemma_begun(s, min_lsn);
            lemma_placed(b);
            lemma_sealed(u, min_lsn);
        },
        Step::FlushOverdue { min_lsn, flush_min_lsn } => {
            lemma_timed(s, min_lsn, flush_min_lsn);
        },
        _ => {},
    }
}

/// What is appended to the data is synchronized at once, before a new rotation is started, rotations are
/// released or anything is published. What is published comes last, and is published only after something
/// was appended.
pub proof fn law_data_is_synchronized_first(s: FlushState, step: Step, i: int, j: int)
    requires
        s.wf(),
        step is Fill ==> s.pending is Some,
        step is FlushOverdue ==> s.pending is None,
        0 <= i < ops_of(s, step).len(),
        0 <= j < ops_of(s, step).len(),
    ensures
        ({
            let ops = ops_of(s, step);
            &&& ops[i] is AppendData ==> i + 1 < ops.len() && ops[i + 1] is SyncData
            &&& ops[i] is AppendData && (ops[j] is NewDataRot || ops[j] is ReleaseRots || ops[j]
                is SetMaxLsn) ==> i + 1 < j
            &&& ops[i] is AppendData && ops[j] is AppendData ==> i == j
            &&& ops[j] is SetMaxLsn ==> j == ops.len() - 1 && appends_data(ops)
            &&& ops[j] is NewDataRot ==> appends_data(ops) && j + 1 < ops.len() && ops[j + 1]
                is ReleaseRots
        }),
{
    lemma_step_flush(s, step);
    if let Some((t, rotatable, min_lsn)) = flush_of(s, step) {
        let n = lemma_flush_parts(t, rotatable, min_lsn);
        assert(ops_of(s, step)[n] is AppendData);
    }
}

/// Before rotations are released, the LSN for which they are not needed is in the manifest.
pub proof fn law_release_comes_after_note(s: FlushState, step: Step, j: int, min_lsn: u64)
    requires
        s.wf(),
        step is Fill ==> s.pending is Some,
        step is FlushOverdue ==> s.pending is None,
        0 <= j < ops_of(s, step).len(),
        ops_of(s, step)[j] == Op::ReleaseRots(min_lsn),
    ensures
        min_lsn <= s.mani_min_lsn || exists|i: int|
            0 <= i < j && (#[trigger] ops_of(s, step)[i]) == Op::AppendMani(
                mani_entry(s.order, min_lsn),
            ),
{
    lemma_step_flush(s, step);
    let ops = ops_of(s, step);
    if let Some((t, rotatable, m)) = flush_of(s, step) {
        let n = lemma_flush_parts(t, rotatable, m);
        assert(j == n + 3 && m == min_lsn);
        if n == 1 {
            assert(ops[0] == Op::AppendMani(mani_entry(s.order, min_lsn)));
        }
    } else {
        assert(ops[0] == Op::AppendMani(mani_entry(s.order, min_lsn)));
        assert(j > 0);
    }
}

/// A data rotation is followed by a new one as soon as its size has reached the limit and no entry is
/// partly written, and not before. The new one has the next number, and its name keeps the LSN behind
/// the last one that was written. Without something to append, the rotation stays as it is.
pub proof fn law_rotation_follows_at_limit(s: FlushState, step: Step, i: int)
    requires
        s.wf(),
        s.has_room(),
        step is Fill ==> s.pending is Some,
        step is FlushOverdue ==> s.pending is None,
        0 <= i < ops_of(s, step).len(),
    ensures
        ({
            let ops = ops_of(s, step);
            let next = state_after(s, step);
            &&& ops[i] matches Op::AppendData(data) ==> {
                let size = s.rot_size + data.len();
                &&& starts_rotation(ops) <==> {
                    &&& next.pending is None || !next.pending->0.split
                    &&& size >= s.rot_size_max
                }
                &&& next.rot_size == (if starts_rotation(ops) {
                    0
                } else {
                    size
                })
                &&& next.rot_no == s.rot_no + (if starts_rotation(ops) {
                    1int
                } else {
                    0
                })
            }
            &&& ops[i] matches Op::NewDataRot(name) ==> data_rot_info(s.prefix, name) == Some(
                ((s.rot_no + 1) as u32, (next.last_filled_lsn + 1) as u64),
            )
            &&& !appends_data(ops) ==> next.rot_size == s.rot_size && next.rot_no == s.rot_no
        }),
{
    let ops = ops_of(s, step);
    lemma_step_flush(s, step);
    if let Some((t, rotatable, min_lsn)) = flush_of(s, step) {
        let n = lemma_flush_parts(t, rotatable, min_lsn);
        assert(ops[n] == Op::AppendData(t.buf));
        law_data_rot_name_reads_back(
            s.prefix,
            (s.rot_no + 1) as u32,
            (t.last_filled_lsn + 1) as u64,
        );
        if rotatable && t.rot_size + t.buf.len() >= t.rot_size_max {
            assert(ops[n + 2] is NewDataRot);
        }
    }
}

/// Data is flushed in bulk: when an entry is written, the buffer is flushed exactly if it is full, or if
/// it ends at the end of a block and the rotation has reached its limit. So there is always room in it.
pub proof fn law_buffer_is_flushed_when_full(
    s: FlushState,
    min_lsn: u64,
    flush_min_lsn: u64,
)
    requires
        s.wf(),
        s.pending is Some,
    ensures
        ({
            let step = Step::Fill { min_lsn, flush_min_lsn };
            let ops = ops_of(s, step);
            let next = state_after(s, step);
            &&& forall|i: int|
                0 <= i < ops.len() ==> ((#[trigger] ops[i]) matches Op::AppendData(data) ==> {
                    ||| data.len() == s.buf_size
                    ||| s.rot_size >= s.rot_size_max && data.len() as int % s.block_size == 0
                })
            &&& appends_data(ops) <==> next.buf.len() == 0
            &&& next.buf.len() < s.buf_size
            &&& s.rot_size >= s.rot_size_max ==> next.buf.len() == 0 || next.buf.len() as int
                % s.block_size != 0
        }),
{
    let step = Step::Fill { min_lsn, flush_min_lsn };
    let ops = ops_of(s, step);
    let b = s.begun(min_lsn);
    let u = b.placed();
    lemma_step_flush(s, step);
    lemma_begun(s, min_lsn);
    lemma_placed(b);
    lemma_sealed(u, min_lsn);
    lemma_filled(s, min_lsn, flush_min_lsn);
    if u.flushes() {
        let n = lemma_flush_parts(u.sealed(min_lsn), u.whole(), flush_min_lsn);
        assert(ops[n] is AppendData);
    }
}

/// What waits is flushed, in whole blocks, exactly if it has waited for as many checks as are configured.
pub proof fn law_waiting_data_is_flushed_in_time(s: FlushState, min_lsn: u64, flush_min_lsn: u64)
    requires
        s.wf(),
        s.pending is None,
    ensures
        ({
            let step = Step::FlushOverdue { min_lsn, flush_min_lsn };
            let ops = ops_of(s, step);
            let next = state_after(s, step);
            &&& appends_data(ops) <==> s.buf.len() > 0 && s.log_check_cnt >= s.checks_log
            &&& appends_data(ops) ==> next.buf.len() == 0 && next.log_check_cnt == 0
            &&& !appends_data(ops) ==> next == s && ops.len() == 0
            &&& forall|i: int|
                0 <= i < ops.len() ==> ((#[trigger] ops[i]) matches Op::AppendData(data) ==> {
                    &&& data.len() as int % s.block_size == 0
                    &&& s.buf.len() <= data.len() < s.buf.len() + s.block_size
                })
        }),
{
    let step = Step::FlushOverdue { min_lsn, flush_min_lsn };
    let ops = ops_of(s, step);
    lemma_step_flush(s, step);
    lemma_timed(s, min_lsn, flush_min_lsn);
    if s.overdue() {
        let n = lemma_flush_parts(s.padded().sealed(min_lsn), true, flush_min_lsn);
        assert(ops[n] is AppendData);
    }
}

/// As much of an entry is written as fits: all of it, if it fits into what is left of the block, and
/// otherwise the part that fills the block. Only where the rotation has reached its limit and the block
/// already holds a record, an entry that is not begun is left for the next block.
pub proof fn law_entry_is_written_as_far_as_it_fits(
    s: FlushState,
    min_lsn: u64,
    flush_min_lsn: u64,
)
    requires
        s.wf(),
        s.pending is Some,
    ensures
        ({
            let p = s.pending->0;
            let used = s.buf.len() as int % s.block_size;
            // behind the header of the block and that of the record
            let room = s.block_size - 20 - (if used == 0 {
                32
            } else {
                used
            });
            let next = state_after(s, Step::Fill { min_lsn, flush_min_lsn });
            if p.left.len() <= room {
                &&& next.pending is None
                &&& next.max_flushed_lsn == p.lsn
                &&& next.last_filled_lsn == p.lsn
            } else {
                &&& next.max_flushed_lsn == s.max_flushed_lsn
                &&& next.pending matches Some(q) && {
                    &&& q.lsn == p.lsn
                    &&& if room > 0 && (p.split || s.rot_size < s.rot_size_max || used == 0 || used
                        == 32) {
                        q.split && q.left == p.left.skip(room) && next.last_filled_lsn == p.lsn
                    } else {
                        q == p && next.last_filled_lsn == s.last_filled_lsn
                    }
                }
            }
        }),
{
    let b = s.begun(min_lsn);
    lemma_begun(s, min_lsn);
    lemma_placed(b);
    if s.aligned() {
        lemma_sealed(s, min_lsn);
        lemma_within_block(s.buf.len() as int, BLOCK_HEAD_SIZE as int, s.block_size);
    }
    assert(b.room() == s.block_size - (if s.aligned() {
        32
    } else {
        s.buf.len() as int % s.block_size
    }));
}

/// At the end of a round an advanced LSN goes to the manifest if it has been seen for as many checks as
/// are configured, or if rotations are not needed any more because of it, and then these are released.
/// It goes there once more after that if it need not be seen at all. Nothing is done otherwise.
pub proof fn law_end_of_round(s: FlushState, noop: bool, min_lsn: u64)
    ensures
        ({
            let ops = ops_of(s, Step::EndRound { noop, min_lsn });
            let releases = min_lsn > s.last_min_lsn && min_lsn >= s.next_no_use_lsn;
            let persists = min_lsn > s.last_min_lsn && s.adv_lsn_check_cnt >= s.checks_adv_lsn;
            let next = state_after(s, Step::EndRound { noop, min_lsn });
            &&& releases ==> ops.len() >= 2 && ops[0] == Op::AppendMani(mani_entry(s.order, min_lsn))
                && ops[1] == Op::ReleaseRots(min_lsn)
            &&& persists ==> ops.len() >= 1 && ops[0] == Op::AppendMani(
                mani_entry(s.order, min_lsn),
            )
            &&& ops.len() == (if releases && s.checks_adv_lsn == 0 {
                3int
            } else if releases {
                2
            } else if persists {
                1
            } else {
                0
            })
            &&& !releases ==> forall|i: int|
                0 <= i < ops.len() ==> !((#[trigger] ops[i]) is ReleaseRots)
            &&& forall|i: int|
                0 <= i < ops.len() ==> {
                    ||| (#[trigger] ops[i]) == Op::AppendMani(mani_entry(s.order, min_lsn))
                    ||| ops[i] == Op::ReleaseRots(min_lsn)
                }
            &&& releases || persists ==> next.last_min_lsn == min_lsn && next.mani_min_lsn
                == min_lsn
            &&& !releases && !persists ==> next.last_min_lsn == s.last_min_lsn && next.mani_min_lsn
                == s.mani_min_lsn
            &&& next.buf == s.buf
            &&& next.pending == s.pending
            &&& next.max_flushed_lsn == s.max_flushed_lsn
        }),
{
}

/// The thread pauses longer the more rounds in a row there was nothing to do: it spins in the first
/// hundred of them, gives way in the next hundred, and sleeps after that. When there was something to do
/// it does not pause. Checks are counted from the first round on in which it does not spin.
pub proof fn law_pauses_grow(s: FlushState, noop: bool, min_lsn: u64)
    requires
        s.wf(),
        s.buf.len() == 0 || s.log_check_cnt < s.checks_log,
    ensures
        ({
            let idle = noop && ops_of(s, Step::EndRound { noop, min_lsn }).len() == 0;
            let next = state_after(s, Step::EndRound { noop, min_lsn });
            let rounds = s.backoff + 1;
            let counts = idle && rounds > 100;
            &&& !idle ==> next.backoff == 0 && next.pause() == Pause::NoPause
            &&& idle ==> next.backoff == (if rounds > 201 {
                201
            } else {
                rounds
            })
            &&& idle && rounds <= 100 ==> next.pause() == Pause::Spin
            &&& idle && 100 < rounds <= 200 ==> next.pause() == Pause::Yield
            &&& idle && rounds > 200 ==> next.pause() == Pause::Sleep
            &&& next.log_check_cnt == s.log_check_cnt + (if counts && s.buf.len() > 0 {
                1int
            } else {
                0
            })
            &&& idle ==> next.adv_lsn_check_cnt == s.adv_lsn_check_cnt + (if counts && min_lsn
                > s.last_min_lsn {
                1int
            } else {
                0
            })
            &&& !idle ==> next.adv_lsn_check_cnt == (if ops_of(
                s,
                Step::EndRound { noop, min_lsn },
            ).len() > 0 {
                0
            } else {
                s.adv_lsn_check_cnt
            })
        }),
{
}

/// A log that needs no entry yet gets an entry of the manifest when the thread starts, and any other one
/// does not.
pub proof fn law_new_log_gets_manifest_entry(s: FlushState)
    ensures
        s.last_min_lsn == 0 ==> ops_of(s, Step::Start) == seq![
            Op::AppendMani(mani_entry(s.order, 0)),
        ],
        s.last_min_lsn != 0 ==> ops_of(s, Step::Start).len() == 0 && state_after(s, Step::Start)
            == s,
        state_after(s, Step::Start).buf == s.buf,
        state_after(s, Step::Start).pending == s.pending,
        state_after(s, Step::Start).max_flushed_lsn == s.max_flushed_lsn,
{
}

/// Each step that can be taken keeps the invariant of the flushing thread.
#[verifier::spinoff_prover]
proof fn lemma_wf_step(w: Writing, step: Step)
    requires
        w.s.wf(),
        w.can(step),
    ensures
        w.after(step).s.wf(),
{
    reveal(Writing::after);
    let s = w.s;
    match step {
        Step::Fill { min_lsn, flush_min_lsn } => {
            lemma_filled(s, min_lsn, flush_min_lsn);
        },
        Step::FlushOverdue { min_lsn, flush_min_lsn } => {
            lemma_timed(s, min_lsn, flush_min_lsn);
        },
        Step::EndRound { noop, min_lsn } => {
            lemma_rested(s.advanced(min_lsn), s.idles(noop, min_lsn), min_lsn);
        },
        _ => {},
    }
}

/// What is published after operations that end with a publication, or hold none.
proof fn lemma_published_last(lsn: u64, ops: Seq<Op>)
    ensures
        ops.len() > 0 ==> (ops.last() matches Op::SetMaxLsn(max) ==> published_by(lsn, ops) == max),
        (forall|i: int| 0 <= i < ops.len() ==> !((#[trigger] ops[i]) is SetMaxLsn))
            ==> published_by(lsn, ops) == lsn,
    decreases ops.len(),
{
    if ops.len() > 0 {
        lemma_published_last(lsn, ops.drop_last());
        if forall|i: int| 0 <= i < ops.len() ==> !((#[trigger] ops[i]) is SetMaxLsn) {
            assert(ops.last() == ops[ops.len() - 1]);
            assert forall|i: int| 0 <= i < ops.drop_last().len() implies !((
            #[trigger] ops.drop_last()[i]) is SetMaxLsn) by {
                assert(ops.drop_last()[i] == ops[i]);
            }
        }
    }
}

/// Whether everything that is completely written has been published, unless something is left in the
/// buffer or an entry is partly written.
pub open spec fn caught_up(s: FlushState, lsn: u64) -> bool {
    s.buf.len() == 0 && (s.pending is Some ==> !s.pending->0.split) ==> lsn == s.max_flushed_lsn
}

#[verifier::spinoff_prover]
proof fn lemma_caught_up(w: Writing, step: Step, lsn: u64)
    requires
        w.s.wf(),
        w.can(step),
        caught_up(w.s, lsn),
    ensures
        caught_up(w.after(step).s, published_by(lsn, ops_of(w.s, step))),
{
    reveal(Writing::after);
    let s = w.s;
    let ops = ops_of(s, step);
    lemma_step_flush(s, step);
    lemma_published_last(lsn, ops);
    match flush_of(s, step) {
        Some((t, rotatable, min_lsn)) => {
            let n = lemma_flush_parts(t, rotatable, min_lsn);
            if rotatable {
                assert(ops.last() == Op::SetMaxLsn(t.max_flushed_lsn));
            }
        },
        None => {
            if let Step::Fill { min_lsn, flush_min_lsn } = step {
                lemma_begun(s, min_lsn);
                lemma_placed(s.begun(min_lsn));
            }
        },
    }
}

/// What is published catches up with what is flushed: whenever nothing is left in the buffer and no entry
/// is partly written, the LSN that was published last is that of the last entry that was written,
/// whatever made the thread flush.
pub proof fn law_published_catches_up(w: Writing, steps: Seq<Step>, lsn: u64)
    requires
        w.s.wf(),
        can_run(w, steps),
        w.s.buf.len() == 0 && (w.s.pending is Some ==> !w.s.pending->0.split) ==> lsn
            == w.s.max_flushed_lsn,
    ensures
        ({
            let s = run(w, steps).s;
            s.buf.len() == 0 && (s.pending is Some ==> !s.pending->0.split) ==> published(
                w,
                steps,
                lsn,
            ) == s.max_flushed_lsn
        }),
    decreases steps.len(),
{
    if steps.len() == 0 {
        reveal(published);
    } else {
        let step = steps[0];
        lemma_published_first(w, steps, lsn);
        lemma_caught_up(w, step, lsn);
        lemma_wf_step(w, step);
        law_published_catches_up(
            w.after(step),
            steps.skip(1),
            published_by(lsn, ops_of(w.s, step)),
        );
    }
}

/// Whenever a step appends to the data and leaves no entry partly written, it publishes the LSN of the
/// last entry that was written.
pub proof fn law_flushed_entries_are_published(s: FlushState, step: Step, lsn: u64)
    requires
        s.wf(),
        step is Fill ==> s.pending is Some,
        step is FlushOverdue ==> s.pending is None,
        appends_data(ops_of(s, step)),
    ensures
        ({
            let next = state_after(s, step);
            next.pending is None || !next.pending->0.split ==> published_by(
                lsn,
                ops_of(s, step),
            ) == next.max_flushed_lsn
        }),
        state_after(s, step).buf.len() == 0,
{
    let ops = ops_of(s, step);
    lemma_step_flush(s, step);
    lemma_published_last(lsn, ops);
    if let Some((t, rotatable, min_lsn)) = flush_of(s, step) {
        let n = lemma_flush_parts(t, rotatable, min_lsn);
        if rotatable {
            assert(ops.last() == Op::SetMaxLsn(t.max_flushed_lsn));
        }
    }
}

/// The LSN of the last entry that was taken, or of the last one before.
spec fn last_taken(s: FlushState) -> int {
    match s.pending {
        Some(p) => p.lsn as int,
        None => s.max_flushed_lsn as int,
    }
}

proof fn lemma_last_taken(w: Writing, steps: Seq<Step>)
    requires
        w.s.wf(),
        can_run(w, steps),
        consecutive(accepted(steps), last_taken(w.s) + 1),
    ensures
        last_taken(run(w, steps).s) == last_taken(w.s) + accepted(steps).len(),
    decreases steps.len(),
{
    if steps.len() > 0 {
        let step = steps[0];
        let rest = steps.skip(1);
        lemma_wf_step(w, step);
        lemma_taken(w, step);
        if let Step::Accept(entry) = step {
            assert(accepted(steps) == seq![entry] + accepted(rest));
            assert(accepted(steps)[0] == entry);
            assert forall|i: int| 0 <= i < accepted(rest).len() implies (#[trigger] accepted(
                rest,
            )[i]).lsn == last_taken(w.s) + 2 + i by {
                assert(accepted(steps)[i + 1] == accepted(rest)[i]);
            }
        }
        lemma_last_taken(w.after(step), rest);
    }
}

#[verifier::spinoff_prover]
proof fn lemma_taken(w: Writing, step: Step)
    requires
        w.s.wf(),
        w.can(step),
    ensures
        last_taken(w.after(step).s) == (match step {
            Step::Accept(entry) => entry.lsn as int,
            _ => last_taken(w.s),
        }),
{
    reveal(Writing::after);
    lemma_step_flush(w.s, step);
}

/// When all that was taken has been flushed, the LSN of the last entry is published: as many LSNs
/// behind the one before as there were entries.
pub proof fn law_all_taken_entries_are_published(w: Writing, steps: Seq<Step>)
    requires
        w.s.wf(),
        at_rest(w),
        can_run(w, steps),
        consecutive(accepted(steps), w.s.max_flushed_lsn + 1),
        at_rest(run(w, steps)),
    ensures
        published(w, steps, w.s.max_flushed_lsn) == w.s.max_flushed_lsn + accepted(steps).len(),
{
    lemma_last_taken(w, steps);
    law_published_catches_up(w, steps, w.s.max_flushed_lsn);
}

proof fn lemma_published_concat(lsn: u64, a: Seq<Op>, b: Seq<Op>)
    ensures
        published_by(lsn, a + b) == published_by(published_by(lsn, a), b),
    decreases b.len(),
{
    if b.len() == 0 {
        assert(a + b =~= a);
    } else {
        assert((a + b).drop_last() =~= a + b.drop_last());
        lemma_published_concat(lsn, a, b.drop_last());
    }
}

/// How many rounds without entries it takes at most until the buffer is flushed.
spec fn rounds_left(s: FlushState, min_lsn: u64) -> int {
    let counted = s.checks_log - s.log_check_cnt + (if s.backoff < 100 {
        100 - s.backoff
    } else {
        0
    });
    if min_lsn > s.last_min_lsn {
        counted + 101 + s.checks_log
    } else {
        counted
    }
}

#[verifier::spinoff_prover]
proof fn lemma_quiet_round(s: FlushState, min_lsn: u64, next_no_use_lsn: u64)
    requires
        s.wf(),
        s.pending is None,
    ensures
        ({
            let next = quiet_round(s, min_lsn, next_no_use_lsn);
            &&& next.wf()
            &&& next.pending is None
            &&& next.max_flushed_lsn == s.max_flushed_lsn
            &&& next.checks_log == s.checks_log
            &&& next.buf.len() == 0 || (next.buf == s.buf && rounds_left(next, min_lsn)
                < rounds_left(s, min_lsn))
            &&& s.buf.len() == 0 ==> next.buf.len() == 0
            &&& s.buf.len() > 0 && s.log_check_cnt >= s.checks_log ==> next.buf.len() == 0
        }),
{
    lemma_timed(s, min_lsn, min_lsn);
    let t = FlushState { next_no_use_lsn, ..s.timed(min_lsn, min_lsn) };
    lemma_rested(t.advanced(min_lsn), t.idles(true, min_lsn), min_lsn);
}

#[verifier::spinoff_prover]
proof fn lemma_quiet_publishes(s: FlushState, min_lsn: u64, next_no_use_lsn: u64, lsn: u64)
    requires
        s.wf(),
        s.pending is None,
        caught_up(s, lsn),
    ensures
        ({
            let t = FlushState { next_no_use_lsn, ..s.timed(min_lsn, min_lsn) };
            let ops = s.timed_ops(min_lsn, min_lsn) + t.advance_ops(min_lsn);
            caught_up(quiet_round(s, min_lsn, next_no_use_lsn), published_by(lsn, ops))
        }),
{
    let step = Step::FlushOverdue { min_lsn, flush_min_lsn: min_lsn };
    let t = FlushState { next_no_use_lsn, ..s.timed(min_lsn, min_lsn) };
    let a = s.timed_ops(min_lsn, min_lsn);
    let b = t.advance_ops(min_lsn);
    lemma_step_flush(s, step);
    lemma_published_last(lsn, a);
    lemma_published_concat(lsn, a, b);
    lemma_published_last(published_by(lsn, a), b);
    if let Some((u, rotatable, m)) = flush_of(s, step) {
        let n = lemma_flush_parts(u, rotatable, m);
        assert(a.last() == Op::SetMaxLsn(s.max_flushed_lsn));
    }
}

proof fn lemma_waiting(s: FlushState, min_lsn: u64, reported: Seq<u64>, lsn: u64)
    requires
        s.wf(),
        s.pending is None,
        caught_up(s, lsn),
        s.buf.len() > 0 ==> reported.len() > rounds_left(s, min_lsn),
    ensures
        quiet_rounds(s, min_lsn, reported).buf.len() == 0,
        published_by(lsn, quiet_ops(s, min_lsn, reported)) == s.max_flushed_lsn,
    decreases reported.len(),
{
    if reported.len() > 0 {
        let next = quiet_round(s, min_lsn, reported[0]);
        let t = FlushState { next_no_use_lsn: reported[0], ..s.timed(min_lsn, min_lsn) };
        let ops = s.timed_ops(min_lsn, min_lsn) + t.advance_ops(min_lsn);
        lemma_quiet_round(s, min_lsn, reported[0]);
        lemma_quiet_publishes(s, min_lsn, reported[0], lsn);
        lemma_waiting(next, min_lsn, reported.skip(1), published_by(lsn, ops));
        lemma_published_concat(lsn, ops, quiet_ops(next, min_lsn, reported.skip(1)));
    }
}

/// Entries do not wait for ever to be flushed and published: when no more of them come, the buffer is
/// empty after a number of rounds that depends on the configuration alone, whatever the smallest needed
/// LSN is, and the LSN that is published then is that of the last entry that was written.
pub proof fn law_waiting_entries_are_published(
    s: FlushState,
    min_lsn: u64,
    reported: Seq<u64>,
    lsn: u64,
)
    requires
        s.wf(),
        s.pending is None,
        s.buf.len() == 0 ==> lsn == s.max_flushed_lsn,
        reported.len() > 201 + 2 * s.checks_log,
    ensures
        quiet_rounds(s, min_lsn, reported).buf.len() == 0,
        published_by(lsn, quiet_ops(s, min_lsn, reported)) == s.max_flushed_lsn,
{
    lemma_waiting(s, min_lsn, reported, lsn);
}

/// Taking an entry and being told of released rotations changes nothing else.
pub proof fn law_taking_keeps_the_rest(s: FlushState, entry: Entry, lsn: u64)
    ensures
        ({
            let t = state_after(s, Step::Accept(entry));
            &&& t.pending == Some(Pending { lsn: entry.lsn, left: entry.payload, split: false })
            &&& (FlushState { pending: s.pending, ..t }) == s
            &&& ops_of(s, Step::Accept(entry)).len() == 0
        }),
        ({
            let t = state_after(s, Step::Released(lsn));
            &&& t.next_no_use_lsn == lsn
            &&& (FlushState { next_no_use_lsn: s.next_no_use_lsn, ..t }) == s
            &&& ops_of(s, Step::Released(lsn)).len() == 0
        }),
{
}

/// When data is appended, the header of its last block says which LSN was written last and which one is
/// the smallest that is needed, and its checksum is that of what follows the checksum.
#[verifier::spinoff_prover]
pub proof fn law_last_header_is_completed(s: FlushState, step: Step, i: int)
    requires
        s.wf(),
        step is Fill ==> s.pending is Some,
        step is FlushOverdue ==> s.pending is None,
        0 <= i < ops_of(s, step).len(),
        ops_of(s, step)[i] is AppendData,
    ensures
        ({
            let data = ops_of(s, step)[i]->AppendData_0;
            let at = data.len() - s.block_size;
            let min = match step {
                Step::Fill { min_lsn, .. } => min_lsn,
                Step::FlushOverdue { min_lsn, .. } => min_lsn,
                _ => 0,
            };
            &&& at >= 0
            &&& data.len() as int % s.block_size == 0
            &&& u64_at(s.order, data, at + 16) == state_after(s, step).last_filled_lsn
            &&& u64_at(s.order, data, at + 24) == min
            &&& u32_at(s.order, data, at) == crc32c_of(data.subrange(at + 4, at + 32))
        }),
{
    lemma_step_flush(s, step);
    let (t, rotatable, flush_min_lsn) = flush_of(s, step)->0;
    let n = lemma_flush_parts(t, rotatable, flush_min_lsn);
    match step {
        Step::Fill { min_lsn, .. } => {
            let b = s.begun(min_lsn);
            let u = b.placed();
            lemma_begun(s, min_lsn);
            lemma_placed(b);
            lemma_seal_fields(u, min_lsn);
        },
        Step::FlushOverdue { min_lsn, .. } => {
            lemma_timed(s, min_lsn, flush_min_lsn);
            lemma_seal_fields(s.padded(), min_lsn);
        },
        _ => {},
    }
}

/// What completing the header of the last block writes.
#[verifier::spinoff_prover]
proof fn lemma_seal_fields(u: FlushState, min_lsn: u64)
    requires
        u.buf.len() > 0,
        BLOCK_HEAD_SIZE <= u.block_size,
        u.aligned(),
    ensures
        ({
            let data = u.sealed(min_lsn).buf;
            let at = data.len() - u.block_size;
            &&& data.len() == u.buf.len()
            &&& at >= 0
            &&& u64_at(u.order, data, at + 16) == u.last_filled_lsn
            &&& u64_at(u.order, data, at + 24) == min_lsn
            &&& u32_at(u.order, data, at) == crc32c_of(data.subrange(at + 4, at + 32))
        }),
{
    let o = u.order;
    let at = u.buf.len() - u.block_size;
    lemma_last_block(u.buf.len() as int, u.block_size);
    let b1 = overwritten(u.buf, at + 16, u64_bytes(o, u.last_filled_lsn));
    let b2 = overwritten(b1, at + 24, u64_bytes(o, min_lsn));
    let crc = crc32c_of(b2.subrange(at + 4, at + BLOCK_HEAD_SIZE));
    let data = u.sealed(min_lsn).buf;
    assert(data == overwritten(b2, at, u32_bytes(o, crc)));
    assert(data.subrange(at + 16, at + 24) =~= u64_bytes(o, u.last_filled_lsn));
    assert(data.subrange(at + 24, at + 32) =~= u64_bytes(o, min_lsn));
    assert(data.subrange(at, at + 4) =~= u32_bytes(o, crc));
    assert(data.subrange(at + 4, at + 32) =~= b2.subrange(at + 4, at + 32));
    law_u64_reads_back(o, data, at + 16, u.last_filled_lsn);
    law_u64_reads_back(o, data, at + 24, min_lsn);
    law_u32_reads_back(o, data, at, crc);
}

/// When data is appended, the smallest needed LSN goes to the manifest before it exactly if a new
/// rotation follows and the manifest does not keep one as large yet, or if the rotation was full and the
/// LSN is above the one in the last header. It is written once, and it is the one for which rotations are
/// released. Nothing is done but what the data, the manifest, a new rotation and the publication take.
#[verifier::spinoff_prover]
pub proof fn law_flush_notes_lsn(s: FlushState, min_lsn: u64, flush_min_lsn: u64, fills: bool)
    requires
        s.wf(),
        fills ==> s.pending is Some,
        !fills ==> s.pending is None,
        ({
            let step = if fills {
                Step::Fill { min_lsn, flush_min_lsn }
            } else {
                Step::FlushOverdue { min_lsn, flush_min_lsn }
            };
            appends_data(ops_of(s, step))
        }),
    ensures
        ({
            let step = if fills {
                Step::Fill { min_lsn, flush_min_lsn }
            } else {
                Step::FlushOverdue { min_lsn, flush_min_lsn }
            };
            let ops = ops_of(s, step);
            let next = state_after(s, step);
            let notes = {
                ||| starts_rotation(ops) && flush_min_lsn > s.mani_min_lsn
                ||| s.rot_size >= s.rot_size_max && flush_min_lsn > min_lsn
            };
            &&& notes ==> {
                &&& ops[0] == Op::AppendMani(mani_entry(s.order, flush_min_lsn))
                &&& ops[1] is AppendData
                &&& next.mani_min_lsn == flush_min_lsn
                &&& next.last_min_lsn == flush_min_lsn
            }
            &&& !notes ==> {
                &&& ops[0] is AppendData
                &&& next.mani_min_lsn == s.mani_min_lsn
                &&& next.last_min_lsn == min_lsn
            }
            &&& forall|i: int|
                0 < i < ops.len() ==> !((#[trigger] ops[i]) is AppendMani)
            &&& forall|i: int|
                0 <= i < ops.len() ==> ((#[trigger] ops[i]) matches Op::ReleaseRots(lsn) ==> lsn
                    == flush_min_lsn)
            &&& ops.len() == 2 + (if notes {
                1int
            } else {
                0
            }) + (if starts_rotation(ops) {
                2int
            } else {
                0
            }) + (if next.pending is None || !next.pending->0.split {
                1int
            } else {
                0
            })
        }),
{
    let step = if fills {
        Step::Fill { min_lsn, flush_min_lsn }
    } else {
        Step::FlushOverdue { min_lsn, flush_min_lsn }
    };
    let ops = ops_of(s, step);
    lemma_step_flush(s, step);
    let (t, rotatable, m) = flush_of(s, step)->0;
    let n = lemma_flush_parts(t, rotatable, m);
    assert(t.last_min_lsn == min_lsn);
    if rotatable && t.rot_size + t.buf.len() >= t.rot_size_max {
        assert(ops[n + 2] is NewDataRot);
    }
}

/// The settings of the flushing thread never change, and neither does what it knows of the rotations that
/// are not needed, unless it is told. It forgets how long something has waited exactly when it flushes,
/// and how often it has paused only at the end of a round. What it knows of the smallest needed LSN is
/// what the last header or the last entry of the manifest says of it.
#[verifier::spinoff_prover]
pub proof fn law_settings_stay(s: FlushState, step: Step)
    requires
        s.wf(),
        step is Fill ==> s.pending is Some,
        step is FlushOverdue ==> s.pending is None,
    ensures
        ({
            let ops = ops_of(s, step);
            let next = state_after(s, step);
            &&& next.order == s.order
            &&& next.block_size == s.block_size
            &&& next.buf_size == s.buf_size
            &&& next.checks_log == s.checks_log
            &&& next.checks_adv_lsn == s.checks_adv_lsn
            &&& next.rot_size_max == s.rot_size_max
            &&& next.prefix == s.prefix
            &&& !(step is Released) ==> next.next_no_use_lsn == s.next_no_use_lsn
            &&& !(step is EndRound) ==> next.backoff == s.backoff
            &&& appends_data(ops) ==> next.log_check_cnt == 0 && next.adv_lsn_check_cnt == 0
            &&& !appends_data(ops) && !(step is EndRound) ==> next.log_check_cnt
                == s.log_check_cnt
            &&& step is Fill && !appends_data(ops) ==> {
                &&& next.adv_lsn_check_cnt == s.adv_lsn_check_cnt
                &&& next.mani_min_lsn == s.mani_min_lsn
                &&& next.last_min_lsn == (if s.buf.len() > 0 && s.buf.len() as int % s.block_size
                    == 0 {
                    step->Fill_min_lsn
                } else {
                    s.last_min_lsn
                })
            }
        }),
{
    let ops = ops_of(s, step);
    lemma_step_flush(s, step);
    if let Some((t, rotatable, min_lsn)) = flush_of(s, step) {
        let n = lemma_flush_parts(t, rotatable, min_lsn);
        assert(ops[n] is AppendData);
    }
}

/// Sizes and rotation numbers stay in the range of their types exactly if there is one more rotation
/// number, and the current rotation can take a full buffer.
pub proof fn law_room(s: FlushState)
    ensures
        s.has_room() <==> s.rot_no < u32::MAX && s.rot_size + s.buf_size <= u64::MAX,
{
}

} // verus!
