//! That the entries that were handed to the flushing thread are what the log's data rotations hold
//! afterwards, and what is read back from them.
use super::disk::{
    decode_mani, mani_entry, open_header, Fullness, Record, BLOCK_HEAD_SIZE, LOG_HEAD_SIZE,
    MANI_ENTRY_SIZE,
};
use super::flush::{
    lemma_begun, lemma_filled, lemma_last_block, lemma_placed, lemma_sealed, lemma_timed,
    sealed_block, zeros, FlushState, Op, Pending,
};
use super::layout::{
    absorb_all, begun_entries, behind, block_holds, block_records, blocks_hold, encoded, flat,
    law_header_reads_back, law_mani_entry_reads_back, lemma_absorb_behind, lemma_absorb_concat,
    lemma_blocks_aligned, lemma_blocks_concat, lemma_encoded_push, lemma_flat_concat,
    lemma_lines_up_concat, lemma_lines_up_ok, lemma_one_block, lemma_record_parts, lines_up,
    nothing_read,
};
use super::names::{
    data_rot_info, data_rot_name, is_generated, law_data_rot_name_reads_back, lsn_of, unused_rots,
};
use super::reader::{absorb, ReadState};
use super::replay::{
    blocks_end, blocks_say, consecutive, end_of, law_replay_gives_entries,
    law_replay_of_broken_off_log, lemma_header_of_block, lemma_log_skips, log_ends, log_holds,
    replay, rot_ends, rot_holds, rot_names, tail_of, Broken, Rot,
};
use super::restore::{before, lsn_range, RestoreWants};
use super::writing::{
    accepted, at_rest, can_run, first_lsn, found, gives_back, gives_back_up_to, goes_on, header_min,
    last_block, log_keeps, noted_by, opened, opens, ops_of, perform, performed, published,
    published_by, released, reopened, replay_of, run, starts_with, Step, Writing,
};
use super::Entry;
use crate::byteorder::ByteOrder;
use crate::ErrorView;
use vstd::prelude::*;

pub mod sessions;
pub mod steps;

verus! {

pub proof fn lemma_performed_concat(prefix: Seq<char>, rots: Seq<Rot>, a: Seq<Op>, b: Seq<Op>)
    ensures
        performed(prefix, rots, a + b) == performed(prefix, performed(prefix, rots, a), b),
    decreases a.len(),
{
    if a.len() == 0 {
        assert(a + b =~= b);
    } else {
        assert((a + b).skip(1) =~= a.skip(1) + b);
        lemma_performed_concat(prefix, perform(prefix, rots, a[0]), a.skip(1), b);
    }
}

proof fn lemma_performed_one(prefix: Seq<char>, rots: Seq<Rot>, op: Op)
    ensures
        performed(prefix, rots, seq![op]) == perform(prefix, rots, op),
        performed(prefix, rots, Seq::empty()) == rots,
{
    let one = seq![op];
    assert(one.skip(1) =~= Seq::empty());
    assert(performed(prefix, perform(prefix, rots, op), Seq::empty()) == perform(
        prefix,
        rots,
        op,
    ));
}

pub proof fn lemma_noted_concat(mani: Seq<u8>, a: Seq<Op>, b: Seq<Op>)
    ensures
        noted_by(mani, a + b) == noted_by(noted_by(mani, a), b),
    decreases b.len(),
{
    if b.len() == 0 {
        assert(a + b =~= a);
    } else {
        assert((a + b).last() == b.last());
        assert((a + b).drop_last() =~= a + b.drop_last());
        lemma_noted_concat(mani, a, b.drop_last());
    }
}

proof fn lemma_noted_one(mani: Seq<u8>, op: Op)
    ensures
        noted_by(mani, Seq::empty()) == mani,
        noted_by(mani, seq![op]) == (match op {
            Op::AppendMani(entry) => entry,
            _ => mani,
        }),
{
    let one = seq![op];
    assert(one.drop_last() =~= Seq::empty());
    assert(noted_by(mani, Seq::empty()) == mani);
}

// ---------------------------------------------------------------------------------------------
// Rotations
// ---------------------------------------------------------------------------------------------

/// Whether all rotations of a log but the last hold these entries, in these parts.
#[verifier::opaque]
spec fn log_but_last(
    o: ByteOrder,
    bs: int,
    prefix: Seq<char>,
    rots: Seq<Rot>,
    parts: Seq<Seq<Entry>>,
) -> bool {
    &&& rots.len() == parts.len() + 1
    &&& is_generated(prefix, rots.last().name)
    &&& forall|i: int|
        0 <= i < parts.len() ==> {
            let rot = #[trigger] rots[i];
            &&& is_generated(prefix, rot.name)
            &&& rot_holds(o, bs, lsn_of(prefix, rot.name) as int, rot.bytes, parts[i])
            &&& consecutive(parts[i], lsn_of(prefix, rot.name) as int)
        }
    &&& forall|i: int, j: int|
        #![trigger rots[i], rots[j]]
        0 <= i < j < rots.len() ==> {
            &&& data_rot_info(prefix, rots[i].name).unwrap().0 < data_rot_info(
                prefix,
                rots[j].name,
            ).unwrap().0
            &&& parts[i].len() > 0
            &&& j == i + 1 ==> lsn_of(prefix, rots[j].name) == lsn_of(prefix, rots[i].name)
                + parts[i].len()
        }
}

/// The last rotation completes a log.
proof fn lemma_log_completed(
    o: ByteOrder,
    bs: int,
    prefix: Seq<char>,
    rots: Seq<Rot>,
    parts: Seq<Seq<Entry>>,
    last: Seq<Entry>,
    tail: Broken,
)
    requires
        log_but_last(o, bs, prefix, rots, parts),
        rot_ends(o, bs, lsn_of(prefix, rots.last().name) as int, rots.last().bytes, last, tail),
        consecutive(last, lsn_of(prefix, rots.last().name) as int),
    ensures
        log_ends(o, bs, prefix, rots, parts.push(last), tail),
{
    reveal(log_but_last);
    let all = parts.push(last);
    assert forall|i: int| 0 <= i < rots.len() implies {
        let rot = #[trigger] rots[i];
        let lsn = lsn_of(prefix, rot.name) as int;
        &&& is_generated(prefix, rot.name)
        &&& rot_ends(o, bs, lsn, rot.bytes, all[i], tail_of(rots.len() - i, tail))
        &&& consecutive(all[i], lsn)
    } by {
        if i < parts.len() {
            assert(all[i] == parts[i]);
        }
    }
}

/// What lies in the last rotation does not matter for the others.
proof fn lemma_last_appended(
    o: ByteOrder,
    bs: int,
    prefix: Seq<char>,
    rots: Seq<Rot>,
    parts: Seq<Seq<Entry>>,
    data: Seq<u8>,
)
    requires
        log_but_last(o, bs, prefix, rots, parts),
    ensures
        log_but_last(o, bs, prefix, perform(prefix, rots, Op::AppendData(data)), parts),
{
    reveal(log_but_last);
    let new = perform(prefix, rots, Op::AppendData(data));
    assert forall|i: int| 0 <= i < rots.len() implies (#[trigger] new[i]).name == rots[i].name by {}
    assert forall|i: int| 0 <= i < parts.len() implies {
        let rot = #[trigger] new[i];
        &&& is_generated(prefix, rot.name)
        &&& rot_holds(o, bs, lsn_of(prefix, rot.name) as int, rot.bytes, parts[i])
        &&& consecutive(parts[i], lsn_of(prefix, rot.name) as int)
    } by {
        assert(new[i] == rots[i]);
    }
    assert forall|i: int, j: int|
        #![trigger new[i], new[j]]
        0 <= i < j < new.len() implies {
        &&& data_rot_info(prefix, new[i].name).unwrap().0 < data_rot_info(
            prefix,
            new[j].name,
        ).unwrap().0
        &&& parts[i].len() > 0
        &&& j == i + 1 ==> lsn_of(prefix, new[j].name) == lsn_of(prefix, new[i].name)
            + parts[i].len()
    } by {
        assert(rots[i].name == new[i].name && rots[j].name == new[j].name);
    }
}

/// A new rotation is behind those of a complete log.
#[verifier::spinoff_prover]
proof fn lemma_rot_behind(
    o: ByteOrder,
    bs: int,
    prefix: Seq<char>,
    rots: Seq<Rot>,
    parts: Seq<Seq<Entry>>,
    rot_no: u32,
    lsn: u64,
    i: int,
)
    requires
        log_holds(o, bs, prefix, rots, parts),
        0 <= i < rots.len(),
        parts.last().len() > 0,
        data_rot_info(prefix, rots.last().name).unwrap().0 < rot_no,
        lsn == lsn_of(prefix, rots.last().name) + parts.last().len(),
    ensures
        data_rot_info(prefix, rots[i].name).unwrap().0 < rot_no,
        parts[i].len() > 0,
        i == rots.len() - 1 ==> lsn == lsn_of(prefix, rots[i].name) + parts[i].len(),
{
    let n = rots.len() as int;
    if i < n - 1 {
        assert(rots[i].name == rots[i].name && rots[n - 1].name == rots[n - 1].name);
    }
}

/// A new rotation follows a complete log.
#[verifier::spinoff_prover]
proof fn lemma_rot_added(
    o: ByteOrder,
    bs: int,
    prefix: Seq<char>,
    rots: Seq<Rot>,
    parts: Seq<Seq<Entry>>,
    rot_no: u32,
    lsn: u64,
)
    requires
        log_holds(o, bs, prefix, rots, parts),
        rots.len() > 0,
        parts.last().len() > 0,
        data_rot_info(prefix, rots.last().name).unwrap().0 < rot_no,
        lsn == lsn_of(prefix, rots.last().name) + parts.last().len(),
    ensures
        log_but_last(
            o,
            bs,
            prefix,
            perform(prefix, rots, Op::NewDataRot(data_rot_name(prefix, rot_no, lsn))),
            parts,
        ),
        data_rot_info(prefix, data_rot_name(prefix, rot_no, lsn)) == Some((rot_no, lsn)),
{
    reveal(log_but_last);
    let name = data_rot_name(prefix, rot_no, lsn);
    let new = perform(prefix, rots, Op::NewDataRot(name));
    law_data_rot_name_reads_back(prefix, rot_no, lsn);
    let n = rots.len() as int;
    assert forall|i: int| 0 <= i < parts.len() implies {
        let rot = #[trigger] new[i];
        &&& is_generated(prefix, rot.name)
        &&& rot_holds(o, bs, lsn_of(prefix, rot.name) as int, rot.bytes, parts[i])
        &&& consecutive(parts[i], lsn_of(prefix, rot.name) as int)
    } by {
        assert(new[i] == rots[i]);
    }
    assert forall|i: int, j: int|
        #![trigger new[i], new[j]]
        0 <= i < j < new.len() implies {
        &&& data_rot_info(prefix, new[i].name).unwrap().0 < data_rot_info(
            prefix,
            new[j].name,
        ).unwrap().0
        &&& parts[i].len() > 0
        &&& j == i + 1 ==> lsn_of(prefix, new[j].name) == lsn_of(prefix, new[i].name)
            + parts[i].len()
    } by {
        assert(new[i] == rots[i]);
        if j < n {
            assert(new[j] == rots[j]);
        } else {
            assert(new[j].name == name);
            lemma_rot_behind(o, bs, prefix, rots, parts, rot_no, lsn, i);
        }
    }
}

/// Releasing never touches the last rotation, and what it removes lies below the smallest LSN that
/// is needed.
proof fn lemma_unused(
    o: ByteOrder,
    bs: int,
    prefix: Seq<char>,
    rots: Seq<Rot>,
    parts: Seq<Seq<Entry>>,
    min_lsn: u64,
)
    requires
        log_but_last(o, bs, prefix, rots, parts),
    ensures
        ({
            let k = unused_rots(prefix, rot_names(rots), min_lsn);
            &&& 0 <= k <= parts.len()
            &&& log_but_last(o, bs, prefix, rots.skip(k), parts.skip(k))
            &&& rots.skip(k).last() == rots.last()
            &&& forall|i: int|
                0 <= i < flat(parts.take(k)).len() ==> (#[trigger] flat(parts.take(k))[i]).lsn
                    < min_lsn
        }),
    decreases rots.len(),
{
    reveal(log_but_last);
    let names = rot_names(rots);
    let k = unused_rots(prefix, names, min_lsn);
    if k == 0 || rots.len() < 2 {
        assert(rots.skip(0) =~= rots);
        assert(parts.skip(0) =~= parts);
        assert(parts.take(0) =~= Seq::empty());
        assert(flat(parts.take(0)) =~= Seq::empty());
    } else {
        let r = rots.skip(1);
        let p = parts.skip(1);
        assert forall|i: int| 0 <= i < p.len() implies {
            let rot = #[trigger] r[i];
            &&& is_generated(prefix, rot.name)
            &&& rot_holds(o, bs, lsn_of(prefix, rot.name) as int, rot.bytes, p[i])
            &&& consecutive(p[i], lsn_of(prefix, rot.name) as int)
        } by {
            assert(r[i] == rots[i + 1]);
            assert(p[i] == parts[i + 1]);
        }
        assert forall|i: int, j: int|
            #![trigger r[i], r[j]]
            0 <= i < j < r.len() implies {
            &&& data_rot_info(prefix, r[i].name).unwrap().0 < data_rot_info(
                prefix,
                r[j].name,
            ).unwrap().0
            &&& p[i].len() > 0
            &&& j == i + 1 ==> lsn_of(prefix, r[j].name) == lsn_of(prefix, r[i].name) + p[i].len()
        } by {
            assert(r[i] == rots[i + 1] && r[j] == rots[j + 1]);
            assert(p[i] == parts[i + 1]);
        }
        assert(r.last() == rots.last());
        lemma_unused(o, bs, prefix, r, p, min_lsn);
        assert(names.skip(1) =~= rot_names(r));
        assert(r.skip(k - 1) =~= rots.skip(k));
        assert(p.skip(k - 1) =~= parts.skip(k));
        assert(parts.take(k).skip(1) =~= p.take(k - 1));
        assert(parts.take(k)[0] == parts[0]);
        let dropped = flat(parts.take(k));
        assert(names[1] == rots[1].name);
        assert(lsn_of(prefix, rots[1].name) <= min_lsn);
        assert(rots[0].name == rots[0].name);
        assert forall|i: int| 0 <= i < dropped.len() implies (#[trigger] dropped[i]).lsn
            < min_lsn by {
            if i < parts[0].len() {
                assert(dropped[i] == parts[0][i]);
            } else {
                assert(dropped[i] == flat(p.take(k - 1))[i - parts[0].len()]);
            }
        }
    }
}

// ---------------------------------------------------------------------------------------------
// The buffer
// ---------------------------------------------------------------------------------------------

/// How a buffer of the flushing thread is laid out: complete blocks, and behind them the one that
/// was filled last.
struct Buffered {
    front: Seq<u8>,
    /// The records in the complete blocks.
    done: Seq<Seq<Record>>,
    /// The records in the last block.
    open: Seq<Record>,
}

/// The bytes that fill up the last block.
spec fn padding(o: ByteOrder, buf: Seq<u8>, b: Buffered) -> int {
    buf.len() - b.front.len() - BLOCK_HEAD_SIZE - encoded(o, b.open).len()
}

/// Whether a buffer is laid out like that.
spec fn laid_out(s: FlushState, b: Buffered) -> bool {
    let o = s.order;
    let bs = s.block_size;
    let pad = padding(o, s.buf, b);
    &&& blocks_hold(o, bs, b.front, b.done)
    &&& if b.open.len() == 0 {
        b.done.len() == 0 && s.buf.len() == 0
    } else {
        &&& pad >= 0
        &&& s.buf == b.front + open_header(o, b.open[0].lsn) + (encoded(o, b.open) + zeros(pad))
        &&& s.buf.len() - b.front.len() <= bs
        &&& pad > 0 ==> s.buf.len() - b.front.len() == bs
        &&& block_records(b.open)
        &&& b.open.last().lsn == s.last_filled_lsn
    }
}

/// What is added to whole blocks and ends at the end of a block, within one block, is one block.
proof fn lemma_one_more_block(len: int, n: int, bs: int)
    requires
        0 <= len,
        0 < n <= bs,
        len % bs == 0,
    ensures
        (len + n) % bs == 0 <==> n == bs,
        n < bs ==> (len + n) % bs == n,
        (len + n - 1) / bs * bs == len,
{
    lemma_last_block(len + n, bs);
    let start = (len + n - 1) / bs * bs;
    vstd::arithmetic::div_mod::lemma_fundamental_div_mod(len, bs);
    let q = len / bs;
    let p = (len + n - 1) / bs;
    assert(len == q * bs) by (nonlinear_arith)
        requires
            len == bs * q + len % bs,
            len % bs == 0,
    ;
    assert(p == q) by (nonlinear_arith)
        requires
            p * bs < q * bs + n,
            q * bs + n <= p * bs + bs,
            0 < n <= bs,
    ;
}

/// A full block whose header is completed is complete.
proof fn lemma_block_sealed(
    o: ByteOrder,
    bs: int,
    front: Seq<u8>,
    recs: Seq<Record>,
    pad: int,
    min_lsn: u64,
)
    requires
        0 <= pad,
        recs.len() > 0,
        block_records(recs),
        BLOCK_HEAD_SIZE + encoded(o, recs).len() + pad == bs,
    ensures
        ({
            let buf = front + open_header(o, recs[0].lsn) + (encoded(o, recs) + zeros(pad));
            let sealed = sealed_block(o, buf, front.len() as int, recs.last().lsn, min_lsn);
            &&& sealed == front + sealed.skip(front.len() as int)
            &&& block_holds(o, bs, sealed.skip(front.len() as int), recs)
            &&& header_min(o, sealed.skip(front.len() as int)) == Some(min_lsn)
        }),
{
    let body = encoded(o, recs) + zeros(pad);
    let n = front.len() as int;
    law_header_reads_back(o, front, recs[0].lsn, recs.last().lsn, min_lsn, body);
    let buf = front + open_header(o, recs[0].lsn) + body;
    let sealed = sealed_block(o, buf, n, recs.last().lsn, min_lsn);
    assert(sealed =~= sealed.take(n) + sealed.skip(n));
    lemma_header_len(o, recs[0].lsn);
}

/// When the last block of a buffer is full and its header is completed, all blocks are complete.
proof fn lemma_sealed_layout(s: FlushState, b: Buffered, min_lsn: u64)
    requires
        BLOCK_HEAD_SIZE < s.block_size,
        laid_out(s, b),
        b.open.len() > 0,
        s.aligned(),
    ensures
        blocks_hold(s.order, s.block_size, s.sealed(min_lsn).buf, b.done.push(b.open)),
        flat(b.done.push(b.open)) == flat(b.done) + b.open,
        s.sealed(min_lsn).buf.len() >= s.block_size,
        header_min(s.order, last_block(s.sealed(min_lsn).buf, s.block_size)) == Some(min_lsn),
{
    let o = s.order;
    let bs = s.block_size;
    let n = b.front.len() as int;
    let pad = padding(o, s.buf, b);
    lemma_blocks_aligned(o, bs, b.front, b.done);
    lemma_header_len(o, b.open[0].lsn);
    lemma_one_more_block(n, s.buf.len() - n, bs);
    lemma_block_sealed(o, bs, b.front, b.open, pad, min_lsn);
    let sealed = s.sealed(min_lsn).buf;
    assert(sealed == sealed_block(o, s.buf, n, s.last_filled_lsn, min_lsn));
    let block = sealed.skip(n);
    lemma_one_block(o, bs, block, b.open);
    lemma_blocks_concat(o, bs, b.front, b.done, block, seq![b.open]);
    assert(b.done + seq![b.open] =~= b.done.push(b.open));
    lemma_flat_concat(b.done, seq![b.open]);
}

/// How the buffer is laid out when there is a block with room for records: `min_lsn` stands in the
/// header of that block.
spec fn has_block(
    o: ByteOrder,
    bs: int,
    buf: Seq<u8>,
    b: Buffered,
    min_lsn: u64,
) -> bool {
    &&& blocks_hold(o, bs, b.front, b.done)
    &&& buf == b.front + open_header(o, min_lsn) + encoded(o, b.open)
    &&& buf.len() - b.front.len() < bs
    &&& block_records(b.open)
    &&& b.open.len() > 0 ==> min_lsn == b.open[0].lsn
}

proof fn lemma_header_len(o: ByteOrder, min_lsn: u64)
    ensures
        open_header(o, min_lsn).len() == BLOCK_HEAD_SIZE,
{
}

/// The layout when a block is begun.
proof fn lemma_begun_layout(s: FlushState, b: Buffered, min_lsn: u64) -> (r: (Buffered, u64))
    requires
        s.wf(),
        s.pending is Some,
        laid_out(s, b),
    ensures
        ({
            let (b1, m) = r;
            let t = s.begun(min_lsn);
            &&& has_block(s.order, s.block_size, t.buf, b1, m)
            &&& flat(b1.done) + b1.open == flat(b.done) + b.open
            &&& b1.open.len() == 0 <==> s.aligned()
            &&& b1.open.len() == 0 ==> m == s.pending->0.lsn && t.unfilled()
            &&& b1.open.len() > 0 ==> b1 == b && t == s
            &&& t.room() == s.block_size - BLOCK_HEAD_SIZE - encoded(s.order, b1.open).len()
        }),
{
    let o = s.order;
    let bs = s.block_size;
    let n = b.front.len() as int;
    let t = s.begun(min_lsn);
    lemma_blocks_aligned(o, bs, b.front, b.done);
    if s.aligned() {
        let m = s.pending->0.lsn;
        let x = s.sealed(min_lsn).buf;
        lemma_header_len(o, m);
        assert(encoded(o, Seq::empty()) =~= Seq::empty());
        let none = Seq::<Record>::empty();
        if b.open.len() == 0 {
            let b1 = Buffered { front: s.buf, done: b.done, open: none };
            assert(x =~= s.buf);
            assert(t.buf =~= b1.front + open_header(o, m) + encoded(o, none));
            assert(flat(b1.done) + b1.open =~= flat(b.done) + b.open);
            vstd::arithmetic::div_mod::lemma_small_mod(BLOCK_HEAD_SIZE as nat, bs as nat);
            (b1, m)
        } else {
            lemma_sealed_layout(s, b, min_lsn);
            let b1 = Buffered { front: x, done: b.done.push(b.open), open: none };
            assert(t.buf =~= b1.front + open_header(o, m) + encoded(o, none));
            assert(flat(b1.done) + b1.open =~= flat(b.done) + b.open);
            lemma_blocks_aligned(o, bs, x, b1.done);
            lemma_one_more_block(x.len() as int, BLOCK_HEAD_SIZE as int, bs);
            (b1, m)
        }
    } else {
        if b.open.len() == 0 {
            vstd::arithmetic::div_mod::lemma_small_mod(0, bs as nat);
        }
        let pad = padding(o, s.buf, b);
        let used = s.buf.len() - n;
        lemma_one_more_block(n, used, bs);
        assert(pad == 0);
        assert(encoded(o, b.open) + zeros(0) =~= encoded(o, b.open));
        lemma_header_len(o, b.open[0].lsn);
        (b, b.open[0].lsn)
    }
}

/// Whether what is left of an entry, together with what a reader would have read of it, is the whole
/// payload.
spec fn in_progress(p: Pending, st: ReadState, payload: Seq<u8>) -> bool {
    if p.split {
        &&& st.mid matches Some((lsn, part)) && lsn == p.lsn && part + p.left == payload
        &&& p.left.len() > 0
    } else {
        st.mid is None && p.left == payload
    }
}

/// The record that a step of writing adds to the block, if it adds one.
spec fn added(t: FlushState) -> Seq<Record> {
    let p = t.pending->0;
    let n = t.room() - LOG_HEAD_SIZE;
    if p.left.len() <= n {
        seq![
            Record {
                lsn: p.lsn,
                fullness: if p.split {
                    Fullness::Last
                } else {
                    Fullness::Full
                },
                payload: p.left,
            },
        ]
    } else if 0 < n && (p.split || !t.rot_full() || t.unfilled()) {
        seq![
            Record {
                lsn: p.lsn,
                fullness: if p.split {
                    Fullness::Middle
                } else {
                    Fullness::First
                },
                payload: p.left.take(n),
            },
        ]
    } else {
        Seq::empty()
    }
}

/// What a reader makes of the record that a step of writing adds.
proof fn lemma_added(t: FlushState, base: int, st: ReadState, payload: Seq<u8>) -> (st2: ReadState)
    requires
        t.pending is Some,
        t.pending->0.lsn == base + st.entries.len(),
        in_progress(t.pending->0, st, payload),
    ensures
        lines_up(st, base, added(t)),
        absorb_all(st, added(t)) == Ok::<ReadState, ErrorView>(st2),
        match t.placed().pending {
            None => {
                &&& st2.mid is None
                &&& st2.entries == st.entries.push(Entry { lsn: t.pending->0.lsn, payload })
            },
            Some(p) => {
                &&& st2.entries == st.entries
                &&& p.lsn == t.pending->0.lsn
                &&& in_progress(p, st2, payload)
            },
        },
{
    let p = t.pending->0;
    let recs = added(t);
    if recs.len() == 0 {
        st
    } else {
        let rec = recs[0];
        let st2 = absorb(st, rec)->Ok_0;
        assert(recs.skip(1) =~= Seq::empty());
        assert(absorb_all(st2, recs.skip(1)) == Ok::<ReadState, ErrorView>(st2));
        assert(lines_up(st2, base, recs.skip(1)));
        if t.placed().pending is Some {
            let n = t.room() - LOG_HEAD_SIZE;
            assert(p.left.take(n) + p.left.skip(n) =~= p.left);
            if p.split {
                let part = (st.mid->0).1;
                assert(part + p.left.take(n) + p.left.skip(n) =~= part + p.left);
            }
        }
        st2
    }
}

/// The layout when something is placed.
proof fn lemma_placed_layout(t: FlushState, b: Buffered, min_lsn: u64) -> (b2: Buffered)
    requires
        BLOCK_HEAD_SIZE + LOG_HEAD_SIZE < t.block_size <= u32::MAX,
        t.pending is Some,
        has_block(t.order, t.block_size, t.buf, b, min_lsn),
        b.open.len() == 0 ==> min_lsn == t.pending->0.lsn,
        t.room() == t.block_size - BLOCK_HEAD_SIZE - encoded(t.order, b.open).len(),
        b.open.len() > 0 ==> b.open.last().lsn == t.last_filled_lsn,
        b.open.len() > 0 ==> !t.pending->0.split,
        b.open.len() > 0 ==> t.pending->0.lsn > 0,
        b.open.len() == 0 ==> t.unfilled(),
    ensures
        laid_out(t.placed(), b2),
        b2.open.len() > 0,
        flat(b2.done) + b2.open == flat(b.done) + b.open + added(t),
{
    let o = t.order;
    let bs = t.block_size;
    let u = t.placed();
    let recs = added(t);
    lemma_header_len(o, min_lsn);
    if recs.len() == 0 {
        let b2 = b;
        assert(b.open.len() > 0) by {
            if b.open.len() == 0 {
                assert(encoded(o, b.open) =~= Seq::empty());
            }
        }
        assert(u.buf =~= b.front + open_header(o, b.open[0].lsn) + (encoded(o, b.open) + zeros(
            t.room(),
        )));
        assert(padding(o, u.buf, b2) == t.room());
        assert(flat(b2.done) + b2.open =~= flat(b.done) + b.open + recs);
        b2
    } else {
        let rec = recs[0];
        let open = b.open.push(rec);
        let b2 = Buffered { open, ..b };
        lemma_encoded_push(o, b.open, rec);
        lemma_record_parts(o, rec);
        assert(u.buf =~= b.front + open_header(o, min_lsn) + encoded(o, open));
        assert(encoded(o, open) + zeros(0) =~= encoded(o, open));
        assert(padding(o, u.buf, b2) == 0);
        assert(open[0].lsn == min_lsn);
        assert(block_records(open)) by {
            assert forall|i: int| 0 <= i < open.len() implies (#[trigger] open[i]).payload.len()
                <= u32::MAX by {
                if i < b.open.len() {
                    assert(open[i] == b.open[i]);
                }
            }
            assert forall|i: int| 0 < i < open.len() implies ((#[trigger] open[i]).fullness is Full
                || open[i].fullness is First) && open[i].lsn > 0 by {
                if i < b.open.len() {
                    assert(open[i] == b.open[i]);
                }
            }
        }
        assert(flat(b2.done) + b2.open =~= flat(b.done) + b.open + recs);
        b2
    }
}

// ---------------------------------------------------------------------------------------------
// Flushing
// ---------------------------------------------------------------------------------------------

/// How a log that is being written is laid out.
struct Layout {
    /// The entries in all rotations but the last.
    parts: Seq<Seq<Entry>>,
    /// The records in the last rotation.
    disk: Seq<Seq<Record>>,
    buf: Buffered,
    /// What a reader of the last rotation and the buffer would have read.
    st: ReadState,
    /// The payload of the entry that is being written.
    payload: Seq<u8>,
    /// The entries that were released.
    dropped: Seq<Entry>,
}

spec fn empty_buffer() -> Buffered {
    Buffered { front: Seq::empty(), done: Seq::empty(), open: Seq::empty() }
}

/// The records in the last rotation and the buffer.
spec fn records(g: Layout) -> Seq<Record> {
    flat(g.disk) + (flat(g.buf.done) + g.buf.open)
}

/// The LSN of the first entry in the last rotation.
spec fn base_lsn(w: Writing) -> int {
    lsn_of(w.s.prefix, w.rots.last().name) as int
}

/// Whether the rotations and the buffer are laid out like that.
spec fn fits(w: Writing, g: Layout) -> bool {
    let s = w.s;
    let base = base_lsn(w);
    &&& log_but_last(s.order, s.block_size, s.prefix, w.rots, g.parts)
    &&& data_rot_info(s.prefix, w.rots.last().name).unwrap().0 == s.rot_no
    &&& blocks_hold(s.order, s.block_size, w.rots.last().bytes, g.disk)
    &&& laid_out(s, g.buf)
    &&& lines_up(nothing_read(), base, records(g))
    &&& absorb_all(nothing_read(), records(g)) == Ok::<ReadState, ErrorView>(g.st)
    &&& consecutive(g.st.entries, base)
}

/// The entries that have been written or released.
spec fn written(g: Layout) -> Seq<Entry> {
    g.dropped + flat(g.parts) + g.st.entries
}

/// Whether only entries below `keep` were released.
spec fn kept(g: Layout, keep: u64) -> bool {
    forall|i: int| 0 <= i < g.dropped.len() ==> (#[trigger] g.dropped[i]).lsn < keep
}

proof fn lemma_flush_ops(s: FlushState, rots: Seq<Rot>, rotatable: bool, min_lsn: u64)
    ensures
        performed(s.prefix, rots, s.flush_ops(rotatable, min_lsn)) == ({
            let r1 = perform(s.prefix, rots, Op::AppendData(s.buf));
            if s.rotates(rotatable) {
                let name = data_rot_name(
                    s.prefix,
                    (s.rot_no + 1) as u32,
                    (s.last_filled_lsn + 1) as u64,
                );
                perform(
                    s.prefix,
                    perform(s.prefix, r1, Op::NewDataRot(name)),
                    Op::ReleaseRots(min_lsn),
                )
            } else {
                r1
            }
        }),
{
    let prefix = s.prefix;
    let mani = Op::AppendMani(mani_entry(s.order, min_lsn));
    let note = if s.notes_first(rotatable, min_lsn) {
        seq![mani]
    } else {
        Seq::empty()
    };
    let append = Op::AppendData(s.buf);
    let name = data_rot_name(prefix, (s.rot_no + 1) as u32, (s.last_filled_lsn + 1) as u64);
    let new_rot = Op::NewDataRot(name);
    let release = Op::ReleaseRots(min_lsn);
    let rot = if s.rotates(rotatable) {
        seq![new_rot, release]
    } else {
        Seq::empty()
    };
    let set_max = Op::SetMaxLsn(s.max_flushed_lsn);
    let publish = if rotatable {
        seq![set_max]
    } else {
        Seq::empty()
    };
    let data = seq![append, Op::SyncData];
    assert(data =~= seq![append] + seq![Op::SyncData]);
    assert(seq![new_rot, release] =~= seq![new_rot] + seq![release]);
    let r1 = perform(prefix, rots, append);
    let r2 = perform(prefix, r1, new_rot);
    let r3 = perform(prefix, r2, release);
    lemma_performed_concat(prefix, rots, note + data + rot, publish);
    lemma_performed_concat(prefix, rots, note + data, rot);
    lemma_performed_concat(prefix, rots, note, data);
    lemma_performed_one(prefix, rots, mani);
    lemma_performed_concat(prefix, rots, seq![append], seq![Op::SyncData]);
    lemma_performed_one(prefix, rots, append);
    lemma_performed_one(prefix, r1, Op::SyncData);
    lemma_performed_concat(prefix, r1, seq![new_rot], seq![release]);
    lemma_performed_one(prefix, r1, new_rot);
    lemma_performed_one(prefix, r2, release);
    lemma_performed_one(prefix, r1, set_max);
    lemma_performed_one(prefix, r3, set_max);
}

/// The buffer is moved to the last rotation.
proof fn lemma_moved(w: Writing, g: Layout, min_lsn: u64) -> (g2: Layout)
    requires
        fits(w, g),
        BLOCK_HEAD_SIZE < w.s.block_size,
        w.s.aligned(),
        g.buf.open.len() > 0,
    ensures
        ({
            let s = w.s;
            let x = s.sealed(min_lsn).buf;
            let r1 = perform(s.prefix, w.rots, Op::AppendData(x));
            &&& g2 == (Layout { disk: g2.disk, buf: empty_buffer(), ..g })
            &&& records(g2) == records(g)
            &&& x.len() == s.buf.len()
            &&& r1.last().name == w.rots.last().name
            &&& r1.last().bytes.len() == w.rots.last().bytes.len() + s.buf.len()
            &&& log_but_last(s.order, s.block_size, s.prefix, r1, g.parts)
            &&& blocks_hold(s.order, s.block_size, r1.last().bytes, g2.disk)
            &&& header_min(s.order, last_block(r1.last().bytes, s.block_size)) == Some(min_lsn)
        }),
{
    let s = w.s;
    let o = s.order;
    let bs = s.block_size;
    let x = s.sealed(min_lsn).buf;
    assert(last_block(w.rots.last().bytes + x, bs) =~= last_block(x, bs)) by {
        lemma_sealed_layout(s, g.buf, min_lsn);
    }
    let blocks = g.buf.done.push(g.buf.open);
    lemma_sealed_layout(s, g.buf, min_lsn);
    lemma_sealed(s, min_lsn);
    lemma_last_appended(o, bs, s.prefix, w.rots, g.parts, x);
    lemma_blocks_concat(o, bs, w.rots.last().bytes, g.disk, x, blocks);
    let g2 = Layout { disk: g.disk + blocks, buf: empty_buffer(), ..g };
    lemma_flat_concat(g.disk, blocks);
    assert(flat(empty_buffer().done) =~= Seq::empty());
    assert(records(g2) =~= records(g));
    g2
}

/// The last rotation is complete, and a new one follows.
proof fn lemma_rotated(w: Writing, g: Layout, rots: Seq<Rot>, rot_no: u32, lsn: u64) -> (parts: Seq<
    Seq<Entry>,
>)
    requires
        fits(w, g),
        log_but_last(w.s.order, w.s.block_size, w.s.prefix, rots, g.parts),
        rots.last().name == w.rots.last().name,
        blocks_hold(w.s.order, w.s.block_size, rots.last().bytes, g.disk),
        records(g) == flat(g.disk),
        records(g).len() > 0,
        g.st.mid is None,
        rot_no > w.s.rot_no,
        lsn == records(g).last().lsn + 1,
    ensures
        parts == g.parts.push(g.st.entries),
        lsn == base_lsn(w) + g.st.entries.len(),
        log_but_last(
            w.s.order,
            w.s.block_size,
            w.s.prefix,
            perform(w.s.prefix, rots, Op::NewDataRot(data_rot_name(w.s.prefix, rot_no, lsn))),
            parts,
        ),
        data_rot_info(w.s.prefix, data_rot_name(w.s.prefix, rot_no, lsn)) == Some((rot_no, lsn)),
{
    let s = w.s;
    let base = base_lsn(w);
    lemma_lines_up_ok(nothing_read(), base, records(g));
    reveal(rot_ends);
    assert(blocks_say(base, g.disk, g.st.entries));
    lemma_log_completed(s.order, s.block_size, s.prefix, rots, g.parts, g.st.entries, None);
    let parts = g.parts.push(g.st.entries);
    lemma_rot_added(s.order, s.block_size, s.prefix, rots, parts, rot_no, lsn);
    parts
}

/// Releasing rotations keeps the layout.
proof fn lemma_released(w: Writing, g: Layout, min_lsn: u64, keep: u64) -> (g2: Layout)
    requires
        fits(w, g),
        kept(g, keep),
        min_lsn <= keep,
    ensures
        ({
            let rots = perform(w.s.prefix, w.rots, Op::ReleaseRots(min_lsn));
            let w2 = Writing { rots, ..w };
            &&& fits(w2, g2)
            &&& kept(g2, keep)
            &&& written(g2) == written(g)
            &&& g2.st == g.st
            &&& g2.buf == g.buf
            &&& g2.disk == g.disk
            &&& g2.parts == g.parts.skip(unused_rots(w.s.prefix, rot_names(w.rots), min_lsn))
            &&& g2.dropped == g.dropped + flat(
                g.parts.take(unused_rots(w.s.prefix, rot_names(w.rots), min_lsn)),
            )
            &&& g2.payload == g.payload
            &&& base_lsn(w2) == base_lsn(w)
            &&& rots.last() == w.rots.last()
        }),
{
    let s = w.s;
    let k = unused_rots(s.prefix, rot_names(w.rots), min_lsn);
    lemma_unused(s.order, s.block_size, s.prefix, w.rots, g.parts, min_lsn);
    let gone = flat(g.parts.take(k));
    let g2 = Layout { parts: g.parts.skip(k), dropped: g.dropped + gone, ..g };
    assert(g.parts.take(k) + g.parts.skip(k) =~= g.parts);
    lemma_flat_concat(g.parts.take(k), g.parts.skip(k));
    assert(written(g2) =~= written(g));
    assert forall|i: int| 0 <= i < g2.dropped.len() implies (#[trigger] g2.dropped[i]).lsn
        < keep by {
        if i < g.dropped.len() {
            assert(g2.dropped[i] == g.dropped[i]);
        } else {
            assert(g2.dropped[i] == gone[i - g.dropped.len()]);
        }
    }
    g2
}

/// Switching to a new rotation and releasing those that are not needed keeps the layout. `s2` is the
/// state of the flushing thread after the switch.
#[verifier::spinoff_prover]
proof fn lemma_switched(
    w: Writing,
    g: Layout,
    s2: FlushState,
    lsn: u64,
    min_lsn: u64,
    keep: u64,
) -> (g2: Layout)
    requires
        fits(w, g),
        kept(g, keep),
        min_lsn <= keep,
        g.buf == empty_buffer(),
        g.st.mid is None,
        records(g).len() > 0,
        lsn == records(g).last().lsn + 1,
        s2.rot_no == w.s.rot_no + 1,
        s2.rot_size == 0,
        s2.buf.len() == 0,
        s2.order == w.s.order,
        s2.block_size == w.s.block_size,
        s2.prefix == w.s.prefix,
    ensures
        ({
            let name = data_rot_name(s2.prefix, s2.rot_no, lsn);
            let r2 = perform(s2.prefix, w.rots, Op::NewDataRot(name));
            let w2 = Writing {
                s: s2,
                rots: perform(s2.prefix, r2, Op::ReleaseRots(min_lsn)),
                ..w
            };
            &&& w2.rots.last().bytes.len() == 0
            &&& fits(w2, g2)
            &&& kept(g2, keep)
            &&& written(g2) == written(g)
            &&& g2.st.mid is None
            &&& g2.payload == g.payload
            &&& g2.buf == empty_buffer()
            &&& base_lsn(w2) + g2.st.entries.len() == base_lsn(w) + g.st.entries.len()
        }),
{
    let prefix = s2.prefix;
    assert(records(g) =~= flat(g.disk)) by {
        assert(flat(empty_buffer().done) =~= Seq::<Record>::empty());
    }
    let parts = lemma_rotated(w, g, w.rots, s2.rot_no, lsn);
    let name = data_rot_name(prefix, s2.rot_no, lsn);
    let r2 = perform(prefix, w.rots, Op::NewDataRot(name));
    let none = Seq::<Seq<Record>>::empty();
    let g2 = Layout { parts, disk: none, st: nothing_read(), ..g };
    let w2 = Writing { s: s2, rots: r2, ..w };
    assert(flat(none) =~= Seq::<Record>::empty());
    assert(flat(empty_buffer().done) =~= Seq::<Record>::empty());
    assert(records(g2) =~= Seq::<Record>::empty());
    assert(r2.last().bytes =~= Seq::<u8>::empty());
    assert(blocks_hold(s2.order, s2.block_size, empty_buffer().front, empty_buffer().done));
    assert(fits(w2, g2));
    lemma_flat_push(g.parts, g.st.entries);
    assert(written(g2) =~= written(g));
    lemma_released(w2, g2, min_lsn, keep)
}

/// Flushing a buffer that ends at the end of a block keeps the layout.
#[verifier::spinoff_prover]
proof fn lemma_flushed_layout(
    w: Writing,
    g: Layout,
    rotatable: bool,
    min_lsn: u64,
    flush_min_lsn: u64,
    keep: u64,
) -> (g2: Layout)
    requires
        fits(w, g),
        kept(g, keep),
        flush_min_lsn <= keep,
        BLOCK_HEAD_SIZE < w.s.block_size,
        w.s.aligned(),
        w.s.buf.len() <= w.s.buf_size,
        w.s.last_filled_lsn < u64::MAX,
        w.s.has_room(),
        g.buf.open.len() > 0,
        rotatable ==> g.st.mid is None,
    ensures
        ({
            let t = w.s.sealed(min_lsn);
            let w2 = Writing {
                s: t.flushed(rotatable, flush_min_lsn),
                rots: performed(
                    w.s.prefix,
                    w.rots,
                    t.flush_ops(rotatable, flush_min_lsn),
                ),
                ..w
            };
            let bytes = w2.rots.last().bytes;
            &&& if t.rotates(rotatable) {
                bytes.len() == 0
            } else {
                &&& bytes.len() > 0
                &&& header_min(w.s.order, last_block(bytes, w.s.block_size)) == Some(min_lsn)
                &&& g2.dropped == g.dropped
            }
            &&& fits(w2, g2)
            &&& kept(g2, keep)
            &&& written(g2) == written(g)
            &&& g2.st.mid == g.st.mid
            &&& g2.payload == g.payload
            &&& g2.buf == empty_buffer()
            &&& base_lsn(w2) + g2.st.entries.len() == base_lsn(w) + g.st.entries.len()
        }),
{
    let s = w.s;
    let t = s.sealed(min_lsn);
    let s2 = t.flushed(rotatable, flush_min_lsn);
    let g1 = lemma_moved(w, g, min_lsn);
    let r1 = perform(s.prefix, w.rots, Op::AppendData(t.buf));
    lemma_flush_ops(t, w.rots, rotatable, flush_min_lsn);
    lemma_header_len(s.order, g.buf.open[0].lsn);
    assert(s.buf.len() > 0);
    assert(blocks_hold(s.order, s.block_size, empty_buffer().front, empty_buffer().done));
    let s1 = FlushState { rot_size: (s.rot_size + s.buf.len()) as u64, rot_no: s.rot_no, ..s2 };
    let w1 = Writing { s: s1, rots: r1, ..w };
    assert(fits(w1, g1));
    if t.rotates(rotatable) {
        assert(records(g).last() == g.buf.open.last());
        lemma_switched(w1, g1, s2, (s.last_filled_lsn + 1) as u64, flush_min_lsn, keep)
    } else {
        g1
    }
}

// ---------------------------------------------------------------------------------------------
// Steps
// ---------------------------------------------------------------------------------------------

/// Whether what is read when the log is opened is right: the smallest needed LSN in the manifest and
/// in the last block's header is not above what is needed, and nothing from there on was released.
spec fn restorable(w: Writing, g: Layout) -> bool {
    let bytes = w.rots.last().bytes;
    let found = header_min(w.s.order, last_block(bytes, w.s.block_size));
    let noted = decode_mani(w.s.order, w.mani);
    &&& w.mani.len() == 0 ==> w.s.mani_min_lsn == 0 && kept(g, 0)
    &&& w.mani.len() > 0 ==> noted is Ok && w.s.mani_min_lsn <= noted->Ok_0 <= w.now
    &&& bytes.len() > 0 ==> found is Some && found->0 <= w.now
    &&& w.mani.len() > 0 ==> kept(g, noted->Ok_0) || (bytes.len() > 0 && kept(g, found->0))
}

/// Whether nothing was added to the last rotation, unless nothing is left in the buffer.
spec fn disk_stays(w: Writing, g: Layout, w2: Writing, g2: Layout) -> bool {
    w2.s.buf.len() > 0 ==> g2.disk == g.disk && base_lsn(w2) == base_lsn(w)
}

/// What holds before and after each step: all entries that were taken, `total`, have been written or
/// released, up to the one that is being written.
#[verifier::opaque]
spec fn inv(w: Writing, g: Layout, first: int, total: Seq<Entry>) -> bool {
    let s = w.s;
    let next = base_lsn(w) + g.st.entries.len();
    &&& s.wf()
    &&& fits(w, g)
    &&& kept(g, w.now)
    &&& restorable(w, g)
    &&& s.max_flushed_lsn + 1 == next
    &&& match s.pending {
        None => {
            &&& g.st.mid is None
            &&& written(g) == total
            &&& next == first + total.len()
        },
        Some(p) => {
            &&& in_progress(p, g.st, g.payload)
            &&& p.lsn == next
            &&& p.split ==> s.aligned()
            &&& written(g).push(Entry { lsn: p.lsn, payload: g.payload }) == total
            &&& next + 1 == first + total.len()
        },
    }
}

/// What the invariant says of the layout and the flushing thread.
proof fn lemma_inv(w: Writing, g: Layout, first: int, total: Seq<Entry>)
    requires
        inv(w, g, first, total),
    ensures
        w.s.wf(),
        fits(w, g),
        kept(g, w.now),
        restorable(w, g),
        w.s.max_flushed_lsn + 1 == base_lsn(w) + g.st.entries.len(),
        w.s.pending is Some ==> w.s.pending->0.lsn == w.s.max_flushed_lsn + 1,
        w.s.pending is None ==> written(g) == total && g.st.mid is None && w.s.max_flushed_lsn + 1
            == first + total.len(),
        w.s.max_flushed_lsn + 1 <= first + total.len(),
        base_lsn(w) + begun_entries(g.st) <= first + total.len(),
{
    reveal(inv);
}

/// The layout of the buffer after a step of writing.
proof fn lemma_fill_layout(s: FlushState, b: Buffered, min_lsn: u64) -> (b2: Buffered)
    requires
        s.wf(),
        s.pending is Some,
        s.pending->0.split ==> s.aligned(),
        laid_out(s, b),
        b.open.len() > 0 && !s.pending->0.split ==> s.pending->0.lsn > 0,
    ensures
        ({
            let t = s.begun(min_lsn);
            let u = t.placed();
            &&& laid_out(u, b2)
            &&& b2.open.len() > 0
            &&& flat(b2.done) + b2.open == flat(b.done) + b.open + added(t)
            &&& u.buf.len() <= u.buf_size
            &&& u.pending is Some ==> u.aligned()
        }),
{
    let t = s.begun(min_lsn);
    lemma_begun(s, min_lsn);
    lemma_placed(t);
    let (b1, m) = lemma_begun_layout(s, b, min_lsn);
    let b2 = lemma_placed_layout(t, b1, m);
    let u = t.placed();
    if u.pending is Some {
        let recs = added(t);
        if recs.len() > 0 {
            lemma_record_parts(t.order, recs[0]);
        }
    }
    b2
}

/// What a step of writing adds to the layout.
#[verifier::spinoff_prover]
proof fn lemma_placed_records(w: Writing, g: Layout, min_lsn: u64) -> (g1: Layout)
    requires
        w.s.wf(),
        fits(w, g),
        w.s.pending is Some,
        w.s.pending->0.lsn == base_lsn(w) + g.st.entries.len(),
        w.s.pending->0.split ==> w.s.aligned(),
        in_progress(w.s.pending->0, g.st, g.payload),
    ensures
        ({
            let u = w.s.begun(min_lsn).placed();
            &&& g1 == (Layout { buf: g1.buf, st: g1.st, ..g })
            &&& fits(Writing { s: u, ..w }, g1)
            &&& g1.buf.open.len() > 0
            &&& u.buf.len() <= u.buf_size
            &&& match u.pending {
                None => {
                    &&& g1.st.mid is None
                    &&& g1.st.entries == g.st.entries.push(
                        Entry { lsn: w.s.pending->0.lsn, payload: g.payload },
                    )
                },
                Some(p) => {
                    &&& g1.st.entries == g.st.entries
                    &&& p.lsn == w.s.pending->0.lsn
                    &&& in_progress(p, g1.st, g.payload)
                    &&& u.aligned()
                },
            }
        }),
{
    let s = w.s;
    let base = base_lsn(w);
    let t = s.begun(min_lsn);
    let u = t.placed();
    lemma_lines_up_ok(nothing_read(), base, records(g));
    if g.buf.open.len() > 0 {
        assert(records(g).last() == g.buf.open.last());
    }
    let b2 = lemma_fill_layout(s, g.buf, min_lsn);
    let st2 = lemma_added(t, base, g.st, g.payload);
    let g1 = Layout { buf: b2, st: st2, ..g };
    assert(records(g1) =~= records(g) + added(t));
    lemma_lines_up_concat(nothing_read(), base, records(g), added(t));
    lemma_absorb_concat(nothing_read(), records(g), added(t));
    g1
}

/// The LSN up to which entries are completely written, after a step of writing.
proof fn lemma_placed_max(s: FlushState, min_lsn: u64)
    requires
        s.pending is Some,
    ensures
        ({
            let u = s.begun(min_lsn).placed();
            u.max_flushed_lsn == (if u.pending is None {
                s.pending->0.lsn
            } else {
                s.max_flushed_lsn
            })
        }),
{
}

/// A step of writing up to the point where the buffer may be flushed.
#[verifier::spinoff_prover]
proof fn lemma_placed_step(
    w: Writing,
    g: Layout,
    first: int,
    total: Seq<Entry>,
    min_lsn: u64,
) -> (g1: Layout)
    requires
        inv(w, g, first, total),
        w.s.pending is Some,
    ensures
        ({
            let u = w.s.begun(min_lsn).placed();
            let w1 = Writing { s: u, ..w };
            let next = base_lsn(w1) + g1.st.entries.len();
            &&& fits(w1, g1)
            &&& g1.dropped == g.dropped
            &&& g1.disk == g.disk
            &&& g1.buf.open.len() > 0
            &&& u.buf.len() <= u.buf_size
            &&& u.max_flushed_lsn + 1 == next
            &&& match u.pending {
                None => {
                    &&& g1.st.mid is None
                    &&& written(g1) == total
                    &&& next == first + total.len()
                },
                Some(p) => {
                    &&& in_progress(p, g1.st, g1.payload)
                    &&& p.lsn == next
                    &&& p.split ==> u.aligned()
                    &&& written(g1).push(Entry { lsn: p.lsn, payload: g1.payload }) == total
                    &&& next + 1 == first + total.len()
                },
            }
        }),
{
    reveal(inv);
    let s = w.s;
    let u = s.begun(min_lsn).placed();
    let g1 = lemma_placed_records(w, g, min_lsn);
    lemma_placed_max(s, min_lsn);
    assert(written(g).push(Entry { lsn: s.pending->0.lsn, payload: g.payload }) =~= total);
    if u.pending is None {
        assert(written(g1) =~= total);
    }
    g1
}

/// What flushing leaves as the latest entry of the manifest.
proof fn lemma_flush_notes(s: FlushState, mani: Seq<u8>, rotatable: bool, min_lsn: u64)
    ensures
        noted_by(mani, s.flush_ops(rotatable, min_lsn)) == (if s.notes_first(rotatable, min_lsn) {
            mani_entry(s.order, min_lsn)
        } else {
            mani
        }),
{
    let entry = Op::AppendMani(mani_entry(s.order, min_lsn));
    let note = if s.notes_first(rotatable, min_lsn) {
        seq![entry]
    } else {
        Seq::empty()
    };
    let ops = s.flush_ops(rotatable, min_lsn);
    let rest = ops.skip(note.len() as int);
    assert(ops =~= note + rest);
    lemma_noted_concat(mani, note, rest);
    lemma_noted_one(mani, entry);
    let m = noted_by(mani, note);
    assert(forall|i: int| 0 <= i < rest.len() ==> !((#[trigger] rest[i]) is AppendMani));
    lemma_noted_none(m, rest);
}

proof fn lemma_noted_none(mani: Seq<u8>, ops: Seq<Op>)
    requires
        forall|i: int| 0 <= i < ops.len() ==> !((#[trigger] ops[i]) is AppendMani),
    ensures
        noted_by(mani, ops) == mani,
    decreases ops.len(),
{
    if ops.len() > 0 {
        lemma_noted_none(mani, ops.drop_last());
    }
}

/// A manifest entry alone is read back.
proof fn lemma_mani_entry(o: ByteOrder, min_lsn: u64)
    ensures
        mani_entry(o, min_lsn).len() > 0,
        decode_mani(o, mani_entry(o, min_lsn)) == Ok::<u64, ErrorView>(min_lsn),
{
    law_mani_entry_reads_back(o, min_lsn, Seq::empty());
    assert(mani_entry(o, min_lsn) + Seq::<u8>::empty() =~= mani_entry(o, min_lsn));
}

proof fn lemma_kept(g: Layout, low: u64, high: u64)
    requires
        kept(g, low),
        low <= high,
    ensures
        kept(g, high),
{
    assert forall|i: int| 0 <= i < g.dropped.len() implies (#[trigger] g.dropped[i]).lsn
        < high by {}
}

/// What a flush leaves is right for opening the log again.
proof fn lemma_restorable(
    w: Writing,
    w2: Writing,
    g2: Layout,
    rotates: bool,
    notes: bool,
    min_lsn: u64,
)
    requires
        w.mani.len() == 0 ==> w.s.mani_min_lsn == 0,
        w.mani.len() > 0 ==> decode_mani(w.s.order, w.mani) is Ok && w.s.mani_min_lsn
            <= decode_mani(w.s.order, w.mani)->Ok_0 <= w.now,
        w.now <= min_lsn <= w2.now,
        w2.s.order == w.s.order,
        rotates && w2.now > w.s.mani_min_lsn ==> notes,
        w2.mani == (if notes {
            mani_entry(w.s.order, w2.now)
        } else {
            w.mani
        }),
        w2.s.mani_min_lsn == (if notes {
            w2.now
        } else {
            w.s.mani_min_lsn
        }),
        w.mani.len() == 0 && !rotates ==> kept(g2, 0),
        ({
            let bytes = w2.rots.last().bytes;
            if rotates {
                bytes.len() == 0 && kept(g2, w2.now)
            } else {
                &&& bytes.len() > 0
                &&& header_min(w2.s.order, last_block(bytes, w2.s.block_size)) == Some(min_lsn)
                &&& kept(g2, min_lsn)
            }
        }),
    ensures
        restorable(w2, g2),
{
    lemma_mani_entry(w.s.order, w2.now);
    if rotates && w.mani.len() > 0 && !notes {
        lemma_kept(g2, w2.now, decode_mani(w.s.order, w.mani)->Ok_0);
    }
}

/// Flushing a buffer that ends at the end of a block leaves a log that can be opened.
#[verifier::spinoff_prover]
proof fn lemma_flush_step(
    w: Writing,
    g: Layout,
    rotatable: bool,
    min_lsn: u64,
    flush_min_lsn: u64,
) -> (g2: Layout)
    requires
        fits(w, g),
        kept(g, w.now),
        restorable(w, g),
        w.now <= min_lsn <= flush_min_lsn,
        BLOCK_HEAD_SIZE < w.s.block_size,
        w.s.aligned(),
        w.s.buf.len() <= w.s.buf_size,
        w.s.last_filled_lsn < u64::MAX,
        w.s.has_room(),
        g.buf.open.len() > 0,
        rotatable ==> g.st.mid is None,
    ensures
        ({
            let t = w.s.sealed(min_lsn);
            let ops = t.flush_ops(rotatable, flush_min_lsn);
            let w2 = Writing {
                s: t.flushed(rotatable, flush_min_lsn),
                rots: performed(w.s.prefix, w.rots, ops),
                mani: noted_by(w.mani, ops),
                now: flush_min_lsn,
            };
            &&& fits(w2, g2)
            &&& kept(g2, w2.now)
            &&& restorable(w2, g2)
            &&& written(g2) == written(g)
            &&& g2.st.mid == g.st.mid
            &&& g2.payload == g.payload
            &&& g2.buf == empty_buffer()
            &&& base_lsn(w2) + g2.st.entries.len() == base_lsn(w) + g.st.entries.len()
        }),
{
    let t = w.s.sealed(min_lsn);
    lemma_kept(g, w.now, flush_min_lsn);
    lemma_kept(g, w.now, min_lsn);
    let g2 = lemma_flushed_layout(w, g, rotatable, min_lsn, flush_min_lsn, flush_min_lsn);
    lemma_flush_notes(t, w.mani, rotatable, flush_min_lsn);
    let ops = t.flush_ops(rotatable, flush_min_lsn);
    let w2 = Writing {
        s: t.flushed(rotatable, flush_min_lsn),
        rots: performed(w.s.prefix, w.rots, ops),
        mani: noted_by(w.mani, ops),
        now: flush_min_lsn,
    };
    lemma_header_len(w.s.order, g.buf.open[0].lsn);
    assert(w.s.buf.len() > 0);
    lemma_sealed(w.s, min_lsn);
    if !t.rotates(rotatable) {
        assert(kept(g2, min_lsn));
    }
    lemma_restorable(
        w,
        w2,
        g2,
        t.rotates(rotatable),
        t.notes_first(rotatable, flush_min_lsn),
        min_lsn,
    );
    g2
}

/// A step of writing keeps the layout.
proof fn lemma_fill_step(
    w: Writing,
    g: Layout,
    first: int,
    total: Seq<Entry>,
    min_lsn: u64,
    flush_min_lsn: u64,
) -> (g2: Layout)
    requires
        inv(w, g, first, total),
        w.can(Step::Fill { min_lsn, flush_min_lsn }),
    ensures
        inv(w.after(Step::Fill { min_lsn, flush_min_lsn }), g2, first, total),
        disk_stays(w, g, w.after(Step::Fill { min_lsn, flush_min_lsn }), g2),
{
    reveal(Writing::after);
    reveal(inv);
    let s = w.s;
    let u = s.begun(min_lsn).placed();
    let w1 = Writing { s: u, ..w };
    let g1 = lemma_placed_step(w, g, first, total, min_lsn);
    lemma_filled(s, min_lsn, flush_min_lsn);
    lemma_kept(g, w.now, flush_min_lsn);
    if u.flushes() {
        let g2 = lemma_flush_step(w1, g1, u.whole(), min_lsn, flush_min_lsn);
        vstd::arithmetic::div_mod::lemma_small_mod(0, s.block_size as nat);
        g2
    } else {
        lemma_performed_one(s.prefix, w.rots, Op::SyncData);
        lemma_noted_one(w.mani, Op::SyncData);
        g1
    }
}

/// The layout when the last block is filled up with zeros.
proof fn lemma_padded_layout(s: FlushState, b: Buffered)
    requires
        s.wf(),
        laid_out(s, b),
        s.buf.len() > 0,
    ensures
        laid_out(s.padded(), b),
        b.open.len() > 0,
{
    let u = s.padded();
    lemma_blocks_aligned(s.order, s.block_size, b.front, b.done);
    if !s.aligned() {
        lemma_header_len(s.order, b.open[0].lsn);
        lemma_one_more_block(b.front.len() as int, s.buf.len() - b.front.len(), s.block_size);
        assert(padding(s.order, s.buf, b) == 0);
        assert(padding(s.order, u.buf, b) == s.room());
        assert(u.buf =~= b.front + open_header(s.order, b.open[0].lsn) + (encoded(
            s.order,
            b.open,
        ) + zeros(s.room())));
    }
}

/// Flushing an overdue buffer keeps the layout.
proof fn lemma_timed_step(
    w: Writing,
    g: Layout,
    first: int,
    total: Seq<Entry>,
    min_lsn: u64,
    flush_min_lsn: u64,
) -> (g2: Layout)
    requires
        inv(w, g, first, total),
        w.s.pending is None,
        w.s.has_room(),
        w.now <= min_lsn <= flush_min_lsn,
    ensures
        inv(
            Writing {
                s: w.s.timed(min_lsn, flush_min_lsn),
                rots: performed(
                    w.s.prefix,
                    w.rots,
                    w.s.timed_ops(min_lsn, flush_min_lsn),
                ),
                mani: noted_by(w.mani, w.s.timed_ops(min_lsn, flush_min_lsn)),
                now: flush_min_lsn,
            },
            g2,
            first,
            total,
        ),
        disk_stays(w, g, w.after(Step::FlushOverdue { min_lsn, flush_min_lsn }), g2),
{
    reveal(Writing::after);
    reveal(inv);
    let s = w.s;
    lemma_timed(s, min_lsn, flush_min_lsn);
    lemma_kept(g, w.now, flush_min_lsn);
    if s.overdue() {
        let w1 = Writing { s: s.padded(), ..w };
        lemma_padded_layout(s, g.buf);
        assert(fits(w1, g));
        lemma_flush_step(w1, g, true, min_lsn, flush_min_lsn)
    } else {
        lemma_performed_one(s.prefix, w.rots, Op::SyncData);
        lemma_noted_one(w.mani, Op::SyncData);
        g
    }
}

/// What a look at the smallest needed LSN does to the files.
proof fn lemma_advance_ops(w: Writing, min_lsn: u64)
    ensures
        performed(w.s.prefix, w.rots, w.s.advance_ops(min_lsn)) == (if w.s.releases(min_lsn) {
            perform(w.s.prefix, w.rots, Op::ReleaseRots(min_lsn))
        } else {
            w.rots
        }),
        noted_by(w.mani, w.s.advance_ops(min_lsn)) == (if w.s.releases(min_lsn) || w.s.persists(
            min_lsn,
        ) {
            mani_entry(w.s.order, min_lsn)
        } else {
            w.mani
        }),
{
    let s = w.s;
    let prefix = s.prefix;
    let mani = Op::AppendMani(mani_entry(s.order, min_lsn));
    let release = Op::ReleaseRots(min_lsn);
    let head = if s.releases(min_lsn) {
        seq![mani, release]
    } else {
        Seq::empty()
    };
    let tail = if s.persists(min_lsn) {
        seq![mani]
    } else {
        Seq::empty()
    };
    assert(seq![mani, release] =~= seq![mani] + seq![release]);
    let r1 = performed(prefix, w.rots, head);
    let m1 = noted_by(w.mani, head);
    lemma_performed_concat(prefix, w.rots, head, tail);
    lemma_performed_concat(prefix, w.rots, seq![mani], seq![release]);
    lemma_performed_one(prefix, w.rots, mani);
    lemma_performed_one(prefix, w.rots, release);
    lemma_performed_one(prefix, r1, mani);
    lemma_noted_concat(w.mani, head, tail);
    lemma_noted_concat(w.mani, seq![mani], seq![release]);
    lemma_noted_one(w.mani, mani);
    lemma_noted_one(mani_entry(s.order, min_lsn), release);
    lemma_noted_one(m1, mani);
}

/// A look at the smallest needed LSN keeps the layout.
proof fn lemma_advance_step(
    w: Writing,
    g: Layout,
    first: int,
    total: Seq<Entry>,
    min_lsn: u64,
) -> (g2: Layout)
    requires
        inv(w, g, first, total),
        w.now <= min_lsn,
    ensures
        inv(
            Writing {
                s: w.s.advanced(min_lsn),
                rots: performed(w.s.prefix, w.rots, w.s.advance_ops(min_lsn)),
                mani: noted_by(w.mani, w.s.advance_ops(min_lsn)),
                now: min_lsn,
            },
            g2,
            first,
            total,
        ),
        g2.disk == g.disk,
        performed(w.s.prefix, w.rots, w.s.advance_ops(min_lsn)).last() == w.rots.last(),
{
    reveal(inv);
    lemma_advance_ops(w, min_lsn);
    lemma_mani_entry(w.s.order, min_lsn);
    lemma_kept(g, w.now, min_lsn);
    if w.s.releases(min_lsn) {
        lemma_released(w, g, min_lsn, min_lsn)
    } else {
        g
    }
}

/// Counting and pausing keeps the invariant of the flushing thread.
proof fn lemma_rested(s: FlushState, idle: bool, min_lsn: u64)
    requires
        s.wf(),
        !s.overdue(),
        min_lsn > s.last_min_lsn ==> s.adv_lsn_check_cnt < s.checks_adv_lsn,
    ensures
        s.rested(idle, min_lsn).wf(),
{
}

/// The end of a round keeps the layout.
proof fn lemma_round_step(
    w: Writing,
    g: Layout,
    first: int,
    total: Seq<Entry>,
    noop: bool,
    min_lsn: u64,
) -> (g2: Layout)
    requires
        inv(w, g, first, total),
        w.can(Step::EndRound { noop, min_lsn }),
    ensures
        inv(w.after(Step::EndRound { noop, min_lsn }), g2, first, total),
        disk_stays(w, g, w.after(Step::EndRound { noop, min_lsn }), g2),
{
    reveal(Writing::after);
    reveal(inv);
    let s1 = w.s.advanced(min_lsn);
    let ops = w.s.advance_ops(min_lsn);
    let w1 = Writing {
        s: s1,
        rots: performed(w.s.prefix, w.rots, ops),
        mani: noted_by(w.mani, ops),
        now: min_lsn,
    };
    let idle = w.s.idles(noop, min_lsn);
    let g2 = lemma_advance_step(w, g, first, total, min_lsn);
    lemma_rested(s1, idle, min_lsn);
    let w2 = w.after(Step::EndRound { noop, min_lsn });
    assert(w2 == Writing { s: s1.rested(idle, min_lsn), ..w1 });
    lemma_same_layout(w1, w2, g2);
    g2
}

/// Counters do not matter for the layout.
proof fn lemma_same_layout(w: Writing, w2: Writing, g: Layout)
    requires
        fits(w, g),
        w2.rots == w.rots,
        w2.s.order == w.s.order,
        w2.s.block_size == w.s.block_size,
        w2.s.prefix == w.s.prefix,
        w2.s.rot_no == w.s.rot_no,
        w2.s.rot_size == w.s.rot_size,
        w2.s.buf == w.s.buf,
        w2.s.last_filled_lsn == w.s.last_filled_lsn,
    ensures
        fits(w2, g),
{
}

/// Each step keeps the layout.
proof fn lemma_step(w: Writing, g: Layout, first: int, total: Seq<Entry>, step: Step) -> (g2: Layout)
    requires
        inv(w, g, first, total),
        w.can(step),
        step matches Step::Accept(entry) ==> entry.lsn == first + total.len(),
    ensures
        inv(
            w.after(step),
            g2,
            first,
            total + (match step {
                Step::Accept(entry) => seq![entry],
                _ => Seq::empty(),
            }),
        ),
        disk_stays(w, g, w.after(step), g2),
{
    reveal(Writing::after);
    reveal(inv);
    assert(total + Seq::<Entry>::empty() =~= total);
    lemma_performed_one(w.s.prefix, w.rots, Op::AppendMani(mani_entry(w.s.order, 0)));
    lemma_noted_one(w.mani, Op::AppendMani(mani_entry(w.s.order, 0)));
    match step {
        Step::Start => {
            lemma_mani_entry(w.s.order, 0);
            lemma_same_layout(w, w.after(step), g);
            g
        },
        Step::Accept(entry) => {
            let g2 = Layout { payload: entry.payload, ..g };
            assert(written(g2).push(entry) =~= total + seq![entry]);
            lemma_same_layout(w, w.after(step), g2);
            g2
        },
        Step::Fill { min_lsn, flush_min_lsn } => lemma_fill_step(
            w,
            g,
            first,
            total,
            min_lsn,
            flush_min_lsn,
        ),
        Step::Released(_) => {
            lemma_same_layout(w, w.after(step), g);
            g
        },
        Step::FlushOverdue { min_lsn, flush_min_lsn } => lemma_timed_step(
            w,
            g,
            first,
            total,
            min_lsn,
            flush_min_lsn,
        ),
        Step::EndRound { noop, min_lsn } => lemma_round_step(w, g, first, total, noop, min_lsn),
    }
}

// ---------------------------------------------------------------------------------------------
// Laws
// ---------------------------------------------------------------------------------------------

proof fn lemma_flat_push<T>(parts: Seq<Seq<T>>, last: Seq<T>)
    ensures
        flat(parts.push(last)) == flat(parts) + last,
{
    let one = seq![last];
    lemma_flat_concat(parts, one);
    assert(parts + one =~= parts.push(last));
    assert(one.skip(1) =~= Seq::empty());
    assert(flat(one.skip(1)) =~= Seq::empty());
    assert(flat(one) =~= last);
}

/// The LSN in the name of the last rotation.
proof fn lemma_last_lsn(
    o: ByteOrder,
    bs: int,
    prefix: Seq<char>,
    rots: Seq<Rot>,
    parts: Seq<Seq<Entry>>,
    tail: Broken,
)
    requires
        log_ends(o, bs, prefix, rots, parts, tail),
        rots.len() > 0,
    ensures
        lsn_of(prefix, rots.last().name) + parts.last().len() == lsn_of(prefix, rots[0].name)
            + flat(parts).len(),
    decreases rots.len(),
{
    assert(flat(parts) == parts[0] + flat(parts.skip(1)));
    if rots.len() == 1 {
        assert(parts.skip(1) =~= Seq::empty());
        assert(flat(parts.skip(1)) =~= Seq::empty());
    } else {
        lemma_log_skips(o, bs, prefix, rots, parts, tail);
        lemma_last_lsn(o, bs, prefix, rots.skip(1), parts.skip(1), tail);
    }
}

/// What [`goes_on`] says, without the size of the last rotation.
spec fn begins(w: Writing, parts: Seq<Seq<Entry>>) -> bool {
    let s = w.s;
    let bytes = w.rots.last().bytes;
    &&& s.wf()
    &&& at_rest(w)
    &&& w.rots.len() > 0
    &&& log_holds(s.order, s.block_size, s.prefix, w.rots, parts)
    &&& s.rot_no == data_rot_info(s.prefix, w.rots.last().name).unwrap().0
    &&& s.max_flushed_lsn + 1 == first_lsn(w) + flat(parts).len()
    &&& w.mani.len() > 0 ==> (decode_mani(s.order, w.mani) matches Ok(m) && s.mani_min_lsn <= m
        <= w.now)
    &&& w.mani.len() == 0 ==> s.mani_min_lsn == 0
    &&& bytes.len() > 0 ==> (header_min(s.order, last_block(bytes, s.block_size)) matches Some(m)
        && m <= w.now)
}

/// The layout to go on from.
proof fn lemma_initial(w: Writing, parts: Seq<Seq<Entry>>) -> (g: Layout)
    requires
        begins(w, parts),
    ensures
        inv(w, g, first_lsn(w), flat(parts)),
        g.parts.push(g.st.entries) == parts,
        g.dropped.len() == 0,
{
    reveal(inv);
    reveal(log_but_last);
    reveal(rot_ends);
    let s = w.s;
    let last = parts.last();
    let base = base_lsn(w);
    let n = w.rots.len() as int;
    assert(w.rots[n - 1] == w.rots.last());
    let blocks = choose|b: Seq<Seq<Record>>|
        #[trigger] blocks_hold(s.order, s.block_size, w.rots.last().bytes, b) && blocks_say(
            base,
            b,
            last,
        );
    let st = ReadState { entries: last, mid: None };
    let g = Layout {
        parts: parts.drop_last(),
        disk: blocks,
        buf: empty_buffer(),
        st,
        payload: Seq::empty(),
        dropped: Seq::empty(),
    };
    assert(flat(empty_buffer().done) =~= Seq::<Record>::empty());
    assert(records(g) =~= flat(blocks));
    assert(parts.drop_last().push(last) =~= parts);
    lemma_flat_push(parts.drop_last(), last);
    lemma_last_lsn(s.order, s.block_size, s.prefix, w.rots, parts, None);
    assert(written(g) =~= flat(parts));
    assert(blocks_hold(s.order, s.block_size, empty_buffer().front, empty_buffer().done));
    g
}

/// What the log holds when all that was written is flushed.
proof fn lemma_final(w: Writing, g: Layout)
    requires
        fits(w, g),
        kept(g, w.now),
        w.s.buf.len() == 0,
        g.st.mid is None,
        0 < w.s.block_size,
    ensures
        log_keeps(w, g.parts.push(g.st.entries), written(g), g.dropped.len() as int),
        records(g) == flat(g.disk),
{
    let s = w.s;
    let base = base_lsn(w);
    if g.buf.open.len() > 0 {
        lemma_header_len(s.order, g.buf.open[0].lsn);
    }
    assert(flat(g.buf.done) =~= Seq::<Record>::empty());
    assert(records(g) =~= flat(g.disk));
    reveal(rot_ends);
    assert(blocks_say(base, g.disk, g.st.entries));
    lemma_log_completed(s.order, s.block_size, s.prefix, w.rots, g.parts, g.st.entries, None);
    lemma_flat_push(g.parts, g.st.entries);
    let all = written(g);
    assert(all.skip(g.dropped.len() as int) =~= flat(g.parts.push(g.st.entries)));
    assert forall|i: int| 0 <= i < g.dropped.len() implies (#[trigger] all[i]).lsn < w.now by {
        assert(all[i] == g.dropped[i]);
    }
}

proof fn lemma_after_keeps(w: Writing, step: Step)
    ensures
        w.after(step).s.order == w.s.order,
        w.after(step).s.block_size == w.s.block_size,
        w.after(step).s.prefix == w.s.prefix,
{
    reveal(Writing::after);
}

/// Any number of steps keeps the layout.
proof fn lemma_run(w: Writing, g: Layout, first: int, total: Seq<Entry>, steps: Seq<Step>) -> (g2:
    Layout)
    requires
        inv(w, g, first, total),
        can_run(w, steps),
        consecutive(total + accepted(steps), first),
    ensures
        inv(run(w, steps), g2, first, total + accepted(steps)),
        run(w, steps).s.order == w.s.order,
        run(w, steps).s.block_size == w.s.block_size,
        run(w, steps).s.prefix == w.s.prefix,
    decreases steps.len(),
{
    if steps.len() == 0 {
        assert(total + accepted(steps) =~= total);
        g
    } else {
        let step = steps[0];
        let more = match step {
            Step::Accept(entry) => seq![entry],
            _ => Seq::empty(),
        };
        let rest = accepted(steps.skip(1));
        assert(total + more + rest =~= total + accepted(steps));
        if step is Accept {
            assert((total + accepted(steps))[total.len() as int] == more[0]);
        }
        let g1 = lemma_step(w, g, first, total, step);
        lemma_after_keeps(w, step);
        lemma_run(w.after(step), g1, first, total + more, steps.skip(1))
    }
}

/// What is written is there to be read: from any log on, whatever the flushing thread does, when it
/// is at rest again the log holds exactly the entries that it held and those that were taken since,
/// in that order, but for entries that are no longer needed.
pub proof fn law_taken_entries_are_held(w: Writing, parts: Seq<Seq<Entry>>, steps: Seq<Step>)
    requires
        goes_on(w, parts),
        can_run(w, steps),
        consecutive(flat(parts) + accepted(steps), first_lsn(w)),
        at_rest(run(w, steps)),
    ensures
        exists|p: Seq<Seq<Entry>>, gone: int| #[trigger]
            log_keeps(run(w, steps), p, flat(parts) + accepted(steps), gone),
{
    let all = flat(parts) + accepted(steps);
    let g = lemma_initial(w, parts);
    let g2 = lemma_run(w, g, first_lsn(w), flat(parts), steps);
    lemma_inv(run(w, steps), g2, first_lsn(w), all);
    lemma_final(run(w, steps), g2);
}

/// Replaying what a log holds behind what was released.
proof fn lemma_replay_behind(w: Writing, g: Layout, first: int, total: Seq<Entry>, n: int)
    requires
        inv(w, g, first, total),
        at_rest(w),
        g.dropped.len() <= n < total.len(),
        first + total.len() <= u64::MAX,
        forall|i: int| 0 <= i < w.rots.len() ==> (#[trigger] w.rots[i]).bytes.len() <= u64::MAX,
    ensures
        replay(w.s.order, w.s.block_size as u32, w.s.prefix, w.rots, total[n].lsn) == (
            total.skip(n),
            None::<ErrorView>,
        ),
{
    reveal(inv);
    lemma_final(w, g);
    let p = g.parts.push(g.st.entries);
    let gone = g.dropped.len() as int;
    assert(flat(p)[n - gone] == total[n]);
    lemma_last_lsn(w.s.order, w.s.block_size, w.s.prefix, w.rots, p, None);
    assert(p.last() == g.st.entries);
    law_replay_gives_entries(
        w.s.order,
        w.s.block_size as u32,
        w.s.prefix,
        w.rots,
        p,
        n - gone,
    );
    assert(flat(p).skip(n - gone) =~= total.skip(n));
}

/// A read gives back what was written: from any log on, whatever the flushing thread does, when it
/// is at rest again a replay from the LSN of any entry that is still needed, whether the log held it
/// before or it was taken since, gives exactly the entries from that one on, and no error.
pub proof fn law_reads_give_back_writes(
    w: Writing,
    parts: Seq<Seq<Entry>>,
    steps: Seq<Step>,
    n: int,
)
    requires
        goes_on(w, parts),
        can_run(w, steps),
        consecutive(flat(parts) + accepted(steps), first_lsn(w)),
        at_rest(run(w, steps)),
        0 <= n < (flat(parts) + accepted(steps)).len(),
        (flat(parts) + accepted(steps))[n].lsn >= run(w, steps).now,
        first_lsn(w) + (flat(parts) + accepted(steps)).len() <= u64::MAX,
        forall|i: int|
            0 <= i < run(w, steps).rots.len() ==> (#[trigger] run(w, steps).rots[i]).bytes.len()
                <= u64::MAX,
    ensures
        ({
            let all = flat(parts) + accepted(steps);
            let rots = run(w, steps).rots;
            replay(w.s.order, w.s.block_size as u32, w.s.prefix, rots, all[n].lsn) == (
                all.skip(n),
                None::<ErrorView>,
            )
        }),
{
    let all = flat(parts) + accepted(steps);
    let g = lemma_initial(w, parts);
    let g2 = lemma_run(w, g, first_lsn(w), flat(parts), steps);
    lemma_inv(run(w, steps), g2, first_lsn(w), all);
    assert(n >= g2.dropped.len()) by {
        if n < g2.dropped.len() {
            assert(all[n] == g2.dropped[n]);
        }
    }
    lemma_replay_behind(run(w, steps), g2, first_lsn(w), all, n);
}

/// A new log holds nothing, and the flushing thread can go on from it.
pub proof fn law_new_log_holds_nothing(s: FlushState)
    requires
        s.wf(),
        s.buf.len() == 0,
        s.pending is None,
        s.rot_size == 0,
        s.max_flushed_lsn < u64::MAX,
        s.mani_min_lsn == 0,
    ensures
        ({
            let lsn = (s.max_flushed_lsn + 1) as u64;
            let rot = Rot { name: data_rot_name(s.prefix, s.rot_no, lsn), bytes: Seq::empty() };
            let nothing = seq![Seq::<Entry>::empty()];
            let w = Writing { s, rots: seq![rot], mani: Seq::empty(), now: s.last_min_lsn };
            &&& goes_on(w, nothing)
            &&& w.can(Step::Start)
            &&& flat(nothing) == Seq::<Entry>::empty()
        }),
{
    let lsn = (s.max_flushed_lsn + 1) as u64;
    let rot = Rot { name: data_rot_name(s.prefix, s.rot_no, lsn), bytes: Seq::empty() };
    let nothing = seq![Seq::<Entry>::empty()];
    let none = Seq::<Seq<Record>>::empty();
    law_data_rot_name_reads_back(s.prefix, s.rot_no, lsn);
    assert(flat(none) =~= Seq::<Record>::empty());
    assert(nothing.skip(1) =~= Seq::empty());
    assert(flat(nothing.skip(1)) =~= Seq::<Entry>::empty());
    assert(flat(nothing) =~= Seq::<Entry>::empty());
    assert(blocks_hold(s.order, s.block_size, rot.bytes, none));
    assert(blocks_say(lsn as int, none, Seq::empty()));
    reveal(rot_ends);
    assert(rot_holds(s.order, s.block_size, lsn as int, rot.bytes, Seq::empty()));
}

/// What flushing publishes.
proof fn lemma_flush_publishes(s: FlushState, rotatable: bool, min_lsn: u64, lsn: u64)
    requires
        s.flush_ops(rotatable, min_lsn).contains(Op::SetMaxLsn(lsn)),
    ensures
        rotatable,
        lsn == s.max_flushed_lsn,
{
    let ops = s.flush_ops(rotatable, min_lsn);
    let i = ops.index_of(Op::SetMaxLsn(lsn));
    assert(ops[i] == Op::SetMaxLsn(lsn));
}

proof fn lemma_fill_publishes(s: FlushState, min_lsn: u64, flush_min_lsn: u64, lsn: u64)
    requires
        s.fill_ops(min_lsn, flush_min_lsn).contains(Op::SetMaxLsn(lsn)),
    ensures
        s.filled(min_lsn, flush_min_lsn).buf.len() == 0,
        s.filled(min_lsn, flush_min_lsn).whole(),
        s.filled(min_lsn, flush_min_lsn).max_flushed_lsn == lsn,
{
    let u = s.begun(min_lsn).placed();
    let v = u.sealed(min_lsn);
    if u.flushes() {
        lemma_flush_publishes(v, u.whole(), flush_min_lsn, lsn);
        assert(v.pending == u.pending);
    }
}

proof fn lemma_timed_publishes(s: FlushState, min_lsn: u64, flush_min_lsn: u64, lsn: u64)
    requires
        s.pending is None,
        s.timed_ops(min_lsn, flush_min_lsn).contains(Op::SetMaxLsn(lsn)),
    ensures
        s.timed(min_lsn, flush_min_lsn).buf.len() == 0,
        s.timed(min_lsn, flush_min_lsn).whole(),
        s.timed(min_lsn, flush_min_lsn).max_flushed_lsn == lsn,
{
    if s.overdue() {
        lemma_flush_publishes(s.padded().sealed(min_lsn), true, flush_min_lsn, lsn);
    }
}

/// A step that publishes an LSN leaves nothing in the buffer, and no part of an entry is written.
#[verifier::spinoff_prover]
proof fn lemma_publishes(w: Writing, step: Step, lsn: u64)
    requires
        w.can(step),
        ops_of(w.s, step).contains(Op::SetMaxLsn(lsn)),
    ensures
        w.after(step).s.buf.len() == 0,
        w.after(step).s.whole(),
        w.after(step).s.max_flushed_lsn == lsn,
        !(step is Accept),
{
    reveal(Writing::after);
    let s = w.s;
    match step {
        Step::Fill { min_lsn, flush_min_lsn } => {
            lemma_fill_publishes(s, min_lsn, flush_min_lsn, lsn);
        },
        Step::FlushOverdue { min_lsn, flush_min_lsn } => {
            lemma_timed_publishes(s, min_lsn, flush_min_lsn, lsn);
        },
        _ => {
            let ops = ops_of(s, step);
            let i = ops.index_of(Op::SetMaxLsn(lsn));
            assert(ops[i] == Op::SetMaxLsn(lsn));
        },
    }
}

proof fn lemma_published(
    w: Writing,
    g: Layout,
    first: int,
    total: Seq<Entry>,
    step: Step,
    lsn: u64,
)
    requires
        inv(w, g, first, total),
        w.can(step),
        ops_of(w.s, step).contains(Op::SetMaxLsn(lsn)),
    ensures
        0 <= lsn + 1 - first <= total.len(),
        exists|p: Seq<Seq<Entry>>, gone: int| #[trigger]
            log_keeps(w.after(step), p, total.take(lsn + 1 - first), gone),
{
    reveal(inv);
    let w2 = w.after(step);
    let n = lsn + 1 - first;
    lemma_publishes(w, step, lsn);
    assert(total + Seq::<Entry>::empty() =~= total);
    let g2 = lemma_step(w, g, first, total, step);
    lemma_final(w2, g2);
    assert(written(g2) =~= total.take(n)) by {
        if w2.s.pending is Some {
            assert(total.drop_last() =~= written(g2));
        }
    }
}

/// An entry has been persisted when its LSN is published: whenever a step of the flushing thread
/// publishes `lsn`, the log then holds exactly the entries up to that LSN, but for entries that are
/// no longer needed.
pub proof fn law_published_entries_are_held(
    w: Writing,
    parts: Seq<Seq<Entry>>,
    steps: Seq<Step>,
    step: Step,
    lsn: u64,
)
    requires
        goes_on(w, parts),
        can_run(w, steps),
        run(w, steps).can(step),
        consecutive(flat(parts) + accepted(steps), first_lsn(w)),
        ops_of(run(w, steps).s, step).contains(Op::SetMaxLsn(lsn)),
    ensures
        ({
            let all = flat(parts) + accepted(steps);
            let n = lsn + 1 - first_lsn(w);
            &&& 0 <= n <= all.len()
            &&& exists|p: Seq<Seq<Entry>>, gone: int| #[trigger]
                log_keeps(run(w, steps).after(step), p, all.take(n), gone)
        }),
{
    let g = lemma_initial(w, parts);
    let g1 = lemma_run(w, g, first_lsn(w), flat(parts), steps);
    lemma_published(
        run(w, steps),
        g1,
        first_lsn(w),
        flat(parts) + accepted(steps),
        step,
        lsn,
    );
}

/// What is published is an LSN among the operations, if there is one.
proof fn lemma_published_by(max_lsn: u64, ops: Seq<Op>)
    ensures
        ({
            let lsn = published_by(max_lsn, ops);
            lsn == max_lsn || ops.contains(Op::SetMaxLsn(lsn))
        }),
    decreases ops.len(),
{
    if ops.len() > 0 {
        let lsn = published_by(max_lsn, ops);
        if ops.last() is SetMaxLsn {
            assert(ops[ops.len() - 1] == Op::SetMaxLsn(lsn));
        } else {
            lemma_published_by(max_lsn, ops.drop_last());
            if lsn != max_lsn {
                let i = ops.drop_last().index_of(Op::SetMaxLsn(lsn));
                assert(ops.drop_last()[i] == ops[i]);
            }
        }
    }
}

/// The LSN of the last entry that is completely in the buffer or on disk never goes down.
#[verifier::spinoff_prover]
proof fn lemma_max_flushed(w: Writing, step: Step)
    requires
        w.can(step),
        w.s.pending is Some ==> w.s.pending->0.lsn > w.s.max_flushed_lsn,
    ensures
        w.s.max_flushed_lsn <= w.after(step).s.max_flushed_lsn,
{
    reveal(Writing::after);
    let s = w.s;
    match step {
        Step::Fill { min_lsn, flush_min_lsn } => {
            let t = s.begun(min_lsn);
            let u = t.placed();
            assert(t.max_flushed_lsn == s.max_flushed_lsn && t.pending == s.pending);
            assert(u.max_flushed_lsn == s.max_flushed_lsn || u.max_flushed_lsn == s.pending->0.lsn);
            assert(u.sealed(min_lsn).max_flushed_lsn == u.max_flushed_lsn);
        },
        Step::FlushOverdue { min_lsn, flush_min_lsn } => {
            assert(s.padded().sealed(min_lsn).max_flushed_lsn == s.max_flushed_lsn);
        },
        _ => {},
    }
}

/// What is published lies between what was published before and the last entry that is written.
proof fn lemma_published_bounds(
    w: Writing,
    g: Layout,
    first: int,
    total: Seq<Entry>,
    steps: Seq<Step>,
    max_lsn: u64,
)
    requires
        inv(w, g, first, total),
        can_run(w, steps),
        consecutive(total + accepted(steps), first),
        max_lsn <= w.s.max_flushed_lsn,
    ensures
        max_lsn <= published(w, steps, max_lsn) <= run(w, steps).s.max_flushed_lsn,
    decreases steps.len(),
{
    lemma_inv(w, g, first, total);
    if steps.len() == 0 {
        reveal(published);
    } else {
        lemma_published_first(w, steps, max_lsn);
        let step = steps[0];
        let more = match step {
            Step::Accept(entry) => seq![entry],
            _ => Seq::empty(),
        };
        let rest = accepted(steps.skip(1));
        assert(total + more + rest =~= total + accepted(steps));
        if step is Accept {
            assert((total + accepted(steps))[total.len() as int] == more[0]);
        }
        let ops = ops_of(w.s, step);
        let lsn = published_by(max_lsn, ops);
        lemma_max_flushed(w, step);
        lemma_published_by(max_lsn, ops);
        if lsn != max_lsn {
            lemma_publishes(w, step, lsn);
        }
        let g1 = lemma_step(w, g, first, total, step);
        lemma_published_bounds(w.after(step), g1, first, total + more, steps.skip(1), lsn);
    }
}

/// What the first step publishes comes first.
#[verifier::spinoff_prover]
proof fn lemma_published_first(w: Writing, steps: Seq<Step>, max_lsn: u64)
    requires
        steps.len() > 0,
    ensures
        published(w, steps, max_lsn) == published(
            w.after(steps[0]),
            steps.skip(1),
            published_by(max_lsn, ops_of(w.s, steps[0])),
        ),
        run(w, steps) == run(w.after(steps[0]), steps.skip(1)),
{
    reveal(published);
}

/// The last block of a rotation.
proof fn lemma_last_block_holds(o: ByteOrder, bs: int, bytes: Seq<u8>, blocks: Seq<Seq<Record>>)
    requires
        0 < bs,
        blocks_hold(o, bs, bytes, blocks),
        blocks.len() > 0,
    ensures
        bytes.len() >= bs,
        block_holds(o, bs, last_block(bytes, bs), blocks.last()),
        flat(blocks).len() > 0,
        flat(blocks).last() == blocks.last().last(),
    decreases blocks.len(),
{
    let rest = blocks.skip(1);
    if rest.len() == 0 {
        assert(flat(rest) =~= Seq::<Record>::empty());
        assert(flat(blocks) =~= blocks[0]);
        assert(blocks_hold(o, bs, bytes.skip(bs), rest));
        assert(last_block(bytes, bs) =~= bytes.take(bs));
    } else {
        lemma_last_block_holds(o, bs, bytes.skip(bs), rest);
        assert(last_block(bytes, bs) =~= last_block(bytes.skip(bs), bs));
        assert(rest.last() == blocks.last());
        assert(flat(blocks).last() == flat(rest).last());
    }
}

/// What a reader of the last rotation alone, without the buffer, would have read.
spec fn on_disk(g: Layout) -> ReadState {
    absorb_all(nothing_read(), flat(g.disk))->Ok_0
}

/// The LSN behind the last entry that is completely on disk.
spec fn durable(w: Writing, g: Layout) -> int {
    base_lsn(w) + on_disk(g).entries.len()
}

/// What is on disk is the beginning of what has been written.
proof fn lemma_on_disk(w: Writing, g: Layout)
    requires
        fits(w, g),
    ensures
        lines_up(nothing_read(), base_lsn(w), flat(g.disk)),
        absorb_all(nothing_read(), flat(g.disk)) == Ok::<ReadState, ErrorView>(on_disk(g)),
        on_disk(g).entries.len() <= g.st.entries.len(),
        on_disk(g).entries == g.st.entries.take(on_disk(g).entries.len() as int),
        consecutive(on_disk(g).entries, base_lsn(w)),
        w.s.buf.len() == 0 ==> on_disk(g) == g.st,
{
    let base = base_lsn(w);
    let more = flat(g.buf.done) + g.buf.open;
    lemma_lines_up_concat(nothing_read(), base, flat(g.disk), more);
    lemma_absorb_concat(nothing_read(), flat(g.disk), more);
    lemma_lines_up_ok(nothing_read(), base, flat(g.disk));
    let d = on_disk(g);
    let d0 = ReadState { entries: Seq::empty(), mid: d.mid };
    assert(behind(d.entries, d0) =~= d);
    lemma_absorb_behind(d.entries, d0, more);
    assert(d.entries =~= g.st.entries.take(d.entries.len() as int));
    assert forall|i: int| 0 <= i < d.entries.len() implies (#[trigger] d.entries[i]).lsn == base
        + i by {
        assert(d.entries[i] == g.st.entries[i]);
    }
    if w.s.buf.len() == 0 {
        if g.buf.open.len() > 0 {
            lemma_header_len(w.s.order, g.buf.open[0].lsn);
        }
        assert(flat(g.buf.done) =~= Seq::<Record>::empty());
        assert(more =~= Seq::<Record>::empty());
    }
}

/// What is found out when a log is opened.
proof fn lemma_reopened(
    w: Writing,
    g: Layout,
    first: int,
    total: Seq<Entry>,
    begun: bool,
    mani_size: u64,
)
    requires
        inv(w, g, first, total),
        1 <= durable(w, g),
        mani_size >= MANI_ENTRY_SIZE,
        w.rots.last().bytes.len() <= u64::MAX,
    ensures
        ({
            &&& found(w, begun, mani_size) matches RestoreWants::Done(min, max) && {
                &&& max + 1 == base_lsn(w) + begun_entries(on_disk(g))
                &&& min <= w.now || (w.now == 0 && min == 1)
                &&& kept(g, min)
                &&& w.mani.len() > 0 ==> decode_mani(w.s.order, w.mani)->Ok_0 <= min
                &&& w.rots.last().bytes.len() > 0 ==> header_min(
                    w.s.order,
                    last_block(w.rots.last().bytes, w.s.block_size),
                )->0 <= min
            }
        }),
{
    reveal(reopened);
    reveal(inv);
    let s = w.s;
    let o = s.order;
    let bs = s.block_size;
    let bytes = w.rots.last().bytes;
    let base = base_lsn(w);
    let m = if w.mani.len() > 0 {
        decode_mani(o, w.mani)->Ok_0
    } else {
        0
    };
    lemma_on_disk(w, g);
    lemma_lines_up_ok(nothing_read(), base, flat(g.disk));
    if bytes.len() == 0 {
        if g.disk.len() > 0 {
            lemma_last_block_holds(o, bs, bytes, g.disk);
        }
        assert(flat(g.disk) =~= Seq::<Record>::empty());
        assert(on_disk(g) == nothing_read());
        lemma_kept(g, m, lsn_range(m, 0, before(base as u64)).0);
    } else {
        lemma_blocks_aligned(o, bs, bytes, g.disk);
        lemma_last_block_holds(o, bs, bytes, g.disk);
        let at = bytes.len() - bs;
        lemma_header_of_block(o, bytes, at, bs);
        assert(bytes.subrange(at, at + bs) =~= last_block(bytes, bs));
        let h = header_min(o, last_block(bytes, bs))->0;
        let min = lsn_range(m, h, flat(g.disk).last().lsn).0;
        if kept(g, m) {
            lemma_kept(g, m, min);
        } else {
            lemma_kept(g, h, min);
        }
    }
}

/// There is a last rotation.
proof fn lemma_last_rot(w: Writing, g: Layout)
    requires
        fits(w, g),
    ensures
        w.rots.len() > 0,
        w.rots.last() == w.rots[w.rots.len() - 1],
{
    reveal(log_but_last);
}

/// A log at rest gives everything back.
#[verifier::spinoff_prover]
proof fn lemma_gives_back(
    w: Writing,
    g: Layout,
    first: int,
    total: Seq<Entry>,
    begun: bool,
    mani_size: u64,
)
    requires
        inv(w, g, first, total),
        at_rest(w),
        mani_size >= MANI_ENTRY_SIZE,
        first + total.len() <= u64::MAX,
        forall|i: int| 0 <= i < w.rots.len() ==> (#[trigger] w.rots[i]).bytes.len() <= u64::MAX,
    ensures
        gives_back(w, first, total, begun, mani_size),
{
    lemma_inv(w, g, first, total);
    lemma_last_rot(w, g);
    lemma_on_disk(w, g);
    lemma_reopened(w, g, first, total, begun, mani_size);
    let min = found(w, begun, mani_size)->Done_0;
    assert forall|n: int| 0 <= n < total.len() && (#[trigger] total[n]).lsn >= min implies replay_of(
        w,
        total[n].lsn,
    ) == (total.skip(n), None::<ErrorView>) by {
        assert(n >= g.dropped.len()) by {
            if n < g.dropped.len() {
                assert(total[n] == g.dropped[n]);
            }
        }
        lemma_replay_behind(w, g, first, total, n);
    }
}

/// A log that is opened again gives everything back: whenever the flushing thread is at rest, opening
/// the log finds the LSN of the last entry as the largest one and an LSN that is not above what is
/// needed as the smallest one, and a replay from the LSN of any entry between the two gives exactly
/// the entries from that one on, and no error.
pub proof fn law_reopened_log_is_replayed(
    w: Writing,
    parts: Seq<Seq<Entry>>,
    steps: Seq<Step>,
    begun: bool,
    mani_size: u64,
)
    requires
        goes_on(w, parts),
        can_run(w, steps),
        consecutive(flat(parts) + accepted(steps), first_lsn(w)),
        at_rest(run(w, steps)),
        mani_size >= MANI_ENTRY_SIZE,
        first_lsn(w) + (flat(parts) + accepted(steps)).len() <= u64::MAX,
        forall|i: int|
            0 <= i < run(w, steps).rots.len() ==> (#[trigger] run(w, steps).rots[i]).bytes.len()
                <= u64::MAX,
    ensures
        gives_back(
            run(w, steps),
            first_lsn(w),
            flat(parts) + accepted(steps),
            begun,
            mani_size,
        ),
{
    let all = flat(parts) + accepted(steps);
    let g = lemma_initial(w, parts);
    let g2 = lemma_run(w, g, first_lsn(w), flat(parts), steps);
    lemma_gives_back(run(w, steps), g2, first_lsn(w), all, begun, mani_size);
}

/// Whatever has been published is completely on disk, and stays there.
proof fn lemma_run_durable(
    w: Writing,
    g: Layout,
    first: int,
    total: Seq<Entry>,
    steps: Seq<Step>,
    max_lsn: u64,
) -> (g2: Layout)
    requires
        inv(w, g, first, total),
        can_run(w, steps),
        consecutive(total + accepted(steps), first),
        max_lsn <= w.s.max_flushed_lsn,
        max_lsn < durable(w, g),
    ensures
        inv(run(w, steps), g2, first, total + accepted(steps)),
        published(w, steps, max_lsn) < durable(run(w, steps), g2),
        run(w, steps).s.order == w.s.order,
        run(w, steps).s.block_size == w.s.block_size,
        run(w, steps).s.prefix == w.s.prefix,
    decreases steps.len(),
{
    lemma_inv(w, g, first, total);
    if steps.len() == 0 {
        reveal(published);
        assert(total + accepted(steps) =~= total);
        g
    } else {
        lemma_published_first(w, steps, max_lsn);
        let step = steps[0];
        let more = match step {
            Step::Accept(entry) => seq![entry],
            _ => Seq::empty(),
        };
        let rest = accepted(steps.skip(1));
        assert(total + more + rest =~= total + accepted(steps));
        if step is Accept {
            assert((total + accepted(steps))[total.len() as int] == more[0]);
        }
        let w1 = w.after(step);
        let lsn = published_by(max_lsn, ops_of(w.s, step));
        lemma_max_flushed(w, step);
        lemma_published_by(max_lsn, ops_of(w.s, step));
        if lsn != max_lsn {
            lemma_publishes(w, step, lsn);
        }
        let g1 = lemma_step(w, g, first, total, step);
        lemma_after_keeps(w, step);
        lemma_inv(w1, g1, first, total + more);
        lemma_on_disk(w1, g1);
        lemma_run_durable(w1, g1, first, total + more, steps.skip(1), lsn)
    }
}

/// What the rotations hold of a log that was stopped.
#[verifier::spinoff_prover]
proof fn lemma_disk_holds(w: Writing, g: Layout)
    requires
        fits(w, g),
    ensures
        log_ends(
            w.s.order,
            w.s.block_size,
            w.s.prefix,
            w.rots,
            g.parts.push(on_disk(g).entries),
            on_disk(g).mid,
        ),
        w.rots.len() > 0,
        lsn_of(w.s.prefix, w.rots[0].name) + flat(g.parts).len() == base_lsn(w),
{
    let s = w.s;
    let base = base_lsn(w);
    let d = on_disk(g);
    lemma_on_disk(w, g);
    lemma_last_rot(w, g);
    assert(blocks_end(base, g.disk, d.entries, d.mid));
    assert(rot_ends(s.order, s.block_size, base, w.rots.last().bytes, d.entries, d.mid)) by {
        reveal(rot_ends);
    }
    lemma_log_completed(s.order, s.block_size, s.prefix, w.rots, g.parts, d.entries, d.mid);
    let p = g.parts.push(d.entries);
    lemma_flat_push(g.parts, d.entries);
    lemma_last_lsn(s.order, s.block_size, s.prefix, w.rots, p, d.mid);
    assert(p.last() == d.entries);
}

/// Which of the entries are on disk, and not released.
#[verifier::spinoff_prover]
proof fn lemma_disk_entries(w: Writing, g: Layout, first: int, total: Seq<Entry>)
    requires
        inv(w, g, first, total),
    ensures
        base_lsn(w) == first + g.dropped.len() + flat(g.parts).len(),
        g.dropped.len() <= durable(w, g) - first <= total.len(),
        flat(g.parts.push(on_disk(g).entries)) == total.subrange(
            g.dropped.len() as int,
            durable(w, g) - first,
        ),
{
    reveal(inv);
    let d = on_disk(g);
    let all = written(g);
    let gone = g.dropped.len() as int;
    lemma_on_disk(w, g);
    lemma_flat_push(g.parts, d.entries);
    assert(w.s.pending is Some ==> total.drop_last() =~= all);
    assert(g.dropped + (flat(g.parts) + d.entries) =~= all.take(durable(w, g) - first));
    assert(flat(g.parts) + d.entries =~= total.subrange(gone, durable(w, g) - first)) by {
        assert(flat(g.parts) + d.entries =~= all.take(durable(w, g) - first).skip(gone));
    }
}

/// Replaying what is on disk of a log that was stopped.
#[verifier::spinoff_prover]
proof fn lemma_replay_stopped(w: Writing, g: Layout, first: int, total: Seq<Entry>, n: int)
    requires
        inv(w, g, first, total),
        g.dropped.len() <= n,
        first + n < durable(w, g),
        first + total.len() <= u64::MAX,
        forall|i: int| 0 <= i < w.rots.len() ==> (#[trigger] w.rots[i]).bytes.len() <= u64::MAX,
    ensures
        n < total.len(),
        durable(w, g) - first <= total.len(),
        replay(w.s.order, w.s.block_size as u32, w.s.prefix, w.rots, total[n].lsn) == (
            total.subrange(n, durable(w, g) - first),
            end_of(on_disk(g).mid),
        ),
{
    lemma_inv(w, g, first, total);
    let s = w.s;
    let p = g.parts.push(on_disk(g).entries);
    let gone = g.dropped.len() as int;
    lemma_disk_holds(w, g);
    lemma_disk_entries(w, g, first, total);
    assert(flat(p)[n - gone] == total[n]);
    law_replay_of_broken_off_log(
        s.order,
        s.block_size as u32,
        s.prefix,
        w.rots,
        p,
        on_disk(g).mid,
        n - gone,
    );
    assert(flat(p).skip(n - gone) =~= total.subrange(n, durable(w, g) - first));
}

/// A replay of a log that was stopped starts with what is complete on disk.
#[verifier::spinoff_prover]
proof fn lemma_starts_with(
    w: Writing,
    g: Layout,
    first: int,
    total: Seq<Entry>,
    n: int,
    k: int,
    min: u64,
)
    requires
        inv(w, g, first, total),
        kept(g, min),
        0 <= n < k,
        first + k <= durable(w, g),
        total[n].lsn >= min,
        first + total.len() <= u64::MAX,
        forall|i: int| 0 <= i < w.rots.len() ==> (#[trigger] w.rots[i]).bytes.len() <= u64::MAX,
    ensures
        starts_with(w, total, n, k),
{
    assert(n >= g.dropped.len()) by {
        if n < g.dropped.len() {
            reveal(inv);
            if w.s.pending is Some {
                assert(total.drop_last() =~= written(g));
            }
            assert(total[n] == g.dropped[n]);
        }
    }
    lemma_replay_stopped(w, g, first, total, n);
}

/// A log gives back what is complete on disk, wherever the flushing thread stopped.
#[verifier::spinoff_prover]
proof fn lemma_gives_back_up_to(
    w: Writing,
    g: Layout,
    first: int,
    total: Seq<Entry>,
    lsn: u64,
    begun: bool,
    mani_size: u64,
)
    requires
        inv(w, g, first, total),
        first <= lsn + 1,
        lsn < durable(w, g),
        mani_size >= MANI_ENTRY_SIZE,
        first + total.len() <= u64::MAX,
        forall|i: int| 0 <= i < w.rots.len() ==> (#[trigger] w.rots[i]).bytes.len() <= u64::MAX,
    ensures
        gives_back_up_to(w, first, total, lsn, begun, mani_size),
        kept(g, found(w, begun, mani_size)->Done_0),
{
    lemma_inv(w, g, first, total);
    let k = lsn + 1 - first;
    lemma_last_rot(w, g);
    lemma_on_disk(w, g);
    lemma_begun_on_disk(w, g);
    lemma_reopened(w, g, first, total, begun, mani_size);
    let min = found(w, begun, mani_size)->Done_0;
    assert forall|n: int| 0 <= n < k && (#[trigger] total[n]).lsn >= min implies starts_with(
        w,
        total,
        n,
        k,
    ) by {
        lemma_starts_with(w, g, first, total, n, k, min);
    }
}

/// A log that is stopped at any time keeps what was published: wherever the flushing thread stops,
/// also in the middle of an entry, opening the log finds an LSN that is not below the published one as
/// the largest one and an LSN that is not above what is needed as the smallest one. A replay from the
/// LSN of any published entry between the two starts with exactly the published entries from that one
/// on. It goes on with entries that were taken behind them, if there are some on disk, and fails only
/// at the end, if the last one is not complete.
pub proof fn law_stopped_log_keeps_published_entries(
    w: Writing,
    parts: Seq<Seq<Entry>>,
    steps: Seq<Step>,
    begun: bool,
    mani_size: u64,
)
    requires
        goes_on(w, parts),
        can_run(w, steps),
        consecutive(flat(parts) + accepted(steps), first_lsn(w)),
        mani_size >= MANI_ENTRY_SIZE,
        first_lsn(w) + (flat(parts) + accepted(steps)).len() <= u64::MAX,
        forall|i: int|
            0 <= i < run(w, steps).rots.len() ==> (#[trigger] run(w, steps).rots[i]).bytes.len()
                <= u64::MAX,
    ensures
        gives_back_up_to(
            run(w, steps),
            first_lsn(w),
            flat(parts) + accepted(steps),
            published(w, steps, w.s.max_flushed_lsn),
            begun,
            mani_size,
        ),
{
    let all = flat(parts) + accepted(steps);
    let first = first_lsn(w);
    let start = w.s.max_flushed_lsn;
    let g = lemma_initial(w, parts);
    lemma_inv(w, g, first, flat(parts));
    lemma_on_disk(w, g);
    let g2 = lemma_run_durable(w, g, first, flat(parts), steps, start);
    lemma_published_bounds(w, g, first, flat(parts), steps, start);
    let lsn = published(w, steps, start);
    lemma_gives_back_up_to(run(w, steps), g2, first, all, lsn, begun, mani_size);
}

/// No more entries are begun on disk than altogether.
proof fn lemma_begun_on_disk(w: Writing, g: Layout)
    requires
        fits(w, g),
    ensures
        begun_entries(on_disk(g)) <= begun_entries(g.st),
{
    let base = base_lsn(w);
    let more = flat(g.buf.done) + g.buf.open;
    lemma_on_disk(w, g);
    lemma_lines_up_concat(nothing_read(), base, flat(g.disk), more);
    lemma_absorb_concat(nothing_read(), flat(g.disk), more);
    lemma_lines_up_ok(on_disk(g), base, more);
}

/// Opening a log for writing releases the rotations that hold only entries below the smallest needed
/// LSN. The flushing thread then goes on from a log that holds the same entries, but for those that
/// were released, none of which is needed.
pub proof fn law_released_log_is_written_on(w: Writing, parts: Seq<Seq<Entry>>)
    requires
        goes_on(w, parts),
    ensures
        ({
            let k = unused_rots(w.s.prefix, rot_names(w.rots), w.now);
            let w2 = released(w);
            &&& 0 <= k < parts.len()
            &&& goes_on(w2, parts.skip(k))
            &&& flat(parts) == flat(parts.take(k)) + flat(parts.skip(k))
            &&& log_keeps(w2, parts.skip(k), flat(parts), flat(parts.take(k)).len() as int)
        }),
{
    let s = w.s;
    let k = unused_rots(s.prefix, rot_names(w.rots), w.now);
    let rots = perform(s.prefix, w.rots, Op::ReleaseRots(w.now));
    let w2 = Writing { rots, ..w };
    let g = lemma_initial(w, parts);
    lemma_inv(w, g, first_lsn(w), flat(parts));
    let g2 = lemma_released(w, g, w.now, w.now);
    lemma_unused(s.order, s.block_size, s.prefix, w.rots, g.parts, w.now);
    assert(g2.dropped =~= flat(g.parts.take(k)));
    lemma_final(w2, g2);
    let p = g2.parts.push(g2.st.entries);
    assert(p =~= parts.skip(k));
    assert(g.parts.take(k) =~= parts.take(k));
    assert(parts.take(k) + parts.skip(k) =~= parts);
    lemma_flat_concat(parts.take(k), parts.skip(k));
    lemma_last_lsn(s.order, s.block_size, s.prefix, rots, p, None);
    assert(p.last() == g2.st.entries);
    assert(written(g2) =~= flat(parts));
}

/// Going on from a log at rest that was opened again.
proof fn lemma_written_on(
    w: Writing,
    g: Layout,
    first: int,
    total: Seq<Entry>,
    begun: bool,
    mani_size: u64,
    s: FlushState,
)
    requires
        inv(w, g, first, total),
        at_rest(w),
        mani_size >= MANI_ENTRY_SIZE,
        w.rots.last().bytes.len() <= u64::MAX,
        opens(w, begun, mani_size, s),
        s.rot_size == w.rots.last().bytes.len(),
    ensures
        ({
            let w2 = opened(w, begun, mani_size, s);
            let p = g.parts.push(g.st.entries);
            &&& log_keeps(w2, p, total, g.dropped.len() as int)
            &&& goes_on(w2, p)
        }),
{
    reveal(inv);
    lemma_on_disk(w, g);
    lemma_reopened(w, g, first, total, begun, mani_size);
    let w2 = opened(w, begun, mani_size, s);
    assert(g.buf.open.len() == 0) by {
        if g.buf.open.len() > 0 {
            lemma_header_len(s.order, g.buf.open[0].lsn);
        }
    }
    assert(fits(w2, g));
    lemma_final(w2, g);
    let p = g.parts.push(g.st.entries);
    lemma_last_lsn(s.order, s.block_size, s.prefix, w.rots, p, None);
    assert(p.last() == g.st.entries);
}

/// A log that is opened again after the flushing thread was at rest is written on: with what opening
/// it finds out, the flushing thread goes on from a log that holds the same entries, but for entries
/// below the smallest LSN that was found. What a log is like that was left while the thread was not
/// at rest, maybe in the middle of an entry, is said in [`sessions`].
pub proof fn law_reopened_log_is_written_on(
    w: Writing,
    parts: Seq<Seq<Entry>>,
    steps: Seq<Step>,
    begun: bool,
    mani_size: u64,
    s: FlushState,
)
    requires
        goes_on(w, parts),
        can_run(w, steps),
        consecutive(flat(parts) + accepted(steps), first_lsn(w)),
        at_rest(run(w, steps)),
        mani_size >= MANI_ENTRY_SIZE,
        opens(run(w, steps), begun, mani_size, s),
        s.rot_size == run(w, steps).rots.last().bytes.len(),
    ensures
        ({
            let w3 = opened(run(w, steps), begun, mani_size, s);
            exists|p: Seq<Seq<Entry>>, gone: int|
                {
                    &&& #[trigger] log_keeps(w3, p, flat(parts) + accepted(steps), gone)
                    &&& goes_on(w3, p)
                }
        }),
{
    let g = lemma_initial(w, parts);
    let g2 = lemma_run(w, g, first_lsn(w), flat(parts), steps);
    lemma_written_on(
        run(w, steps),
        g2,
        first_lsn(w),
        flat(parts) + accepted(steps),
        begun,
        mani_size,
        s,
    );
}

/// Writing an entry comes to an end: each step completes the entry, or writes a part of it, or fills
/// up a block with zeros so that the next step completes the entry or writes a part of it.
pub proof fn law_writing_advances(s: FlushState, min_lsn: u64, flush_min_lsn: u64)
    requires
        s.wf(),
        s.pending is Some,
    ensures
        match s.filled(min_lsn, flush_min_lsn).pending {
            None => true,
            Some(p) => {
                ||| p.left.len() < s.pending->0.left.len()
                ||| !s.aligned() && s.filled(min_lsn, flush_min_lsn).aligned()
            },
        },
{
    let t = s.begun(min_lsn);
    lemma_begun(s, min_lsn);
    lemma_placed(t);
    vstd::arithmetic::div_mod::lemma_small_mod(0, s.block_size as nat);
    if s.aligned() {
        lemma_sealed(s, min_lsn);
        lemma_one_more_block(s.buf.len() as int, BLOCK_HEAD_SIZE as int, s.block_size);
    }
}

} // verus!
