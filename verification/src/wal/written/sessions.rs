//! That a log is written on in any number of sessions, also after one that stopped in the middle of
//! an entry.
//!
//! Such an entry stays where it is. Its LSN counts as used, what is written next follows behind it,
//! and replays end at it, unless they start behind it. So what a session adds can be told apart from
//! what was there before: it is what the session would have written to a log that starts with
//! nothing, and only the last of the rotations that were there before is continued.
use super::super::control::{history, law_lsns_are_consecutive, LogCall, LogRing};
use super::super::disk::{
    decode_header, decode_mani, mani_entry, Record, BLOCK_HEAD_SIZE, MANI_ENTRY_SIZE,
};
use super::super::flush::{lemma_filled, lemma_timed, FlushState, Op};
use super::super::instance::{fresh_seek, leading};
use super::super::layout::{
    absorb_all, begun_entries, blocks_hold, flat, lemma_absorb_concat, lemma_blocks_aligned,
    lemma_lines_up_concat, lemma_lines_up_ok, lines_up, nothing_read,
};
use super::super::names::{
    data_rot_info, data_rot_name, is_generated, law_data_rot_name_reads_back, lsn_of, unused_rots,
};
use super::super::reader::{IterState, ReadSeen, ReadState, SeekSeen, SeekState};
use super::super::replay::{
    blocks_end, blocks_say, consecutive, lemma_header_of_block, log_ends, replay, replayed, rot_bytes,
    rot_ends, rot_names, sought, tail_of, Broken, Rot,
};
use super::super::restore::{before, lsn_range, RestoreWants};
use super::super::writing::{
    accepted, after_session, after_sessions, at_rest, can_hold, can_hold_all, can_run, first_lsn,
    found, gives_back, gives_back_up_to, goes_on, header_min, headers_up_to, in_order, last_block,
    not_ahead, noted_by, opened, opens, ops_of, perform, performed, published, published_by,
    released, reopened, replay_of, run, starts_with, takes_up, Session, Step, Writing,
};
use super::super::Entry;
use super::{
    base_lsn, durable, fits, inv, law_stopped_log_keeps_published_entries, lemma_advance_ops,
    lemma_after_keeps, lemma_disk_holds, lemma_fill_layout, lemma_flush_notes, lemma_flush_ops,
    lemma_gives_back, lemma_gives_back_up_to, lemma_initial, lemma_inv, lemma_last_block_holds,
    lemma_last_lsn, lemma_mani_entry, lemma_noted_one, lemma_on_disk, lemma_padded_layout,
    lemma_performed_one, lemma_published_bounds, lemma_published_first, lemma_reopened, lemma_run,
    lemma_run_durable, lemma_sealed_layout, lemma_step, on_disk, records, written, Layout,
};
use crate::byteorder::ByteOrder;
use crate::ErrorView;
use vstd::prelude::*;

verus! {

// ---------------------------------------------------------------------------------------------
// Headers
// ---------------------------------------------------------------------------------------------

proof fn lemma_headers_aligned(o: ByteOrder, bs: int, bytes: Seq<u8>, max_lsn: u64)
    requires
        0 < bs,
        headers_up_to(o, bs, bytes, max_lsn),
    ensures
        bytes.len() as int % bs == 0,
    decreases bytes.len(),
{
    if bytes.len() == 0 {
        vstd::arithmetic::div_mod::lemma_small_mod(0, bs as nat);
    } else {
        lemma_headers_aligned(o, bs, bytes.skip(bs), max_lsn);
        vstd::arithmetic::div_mod::lemma_mod_add_multiples_vanish(bytes.len() - bs, bs);
    }
}

proof fn lemma_headers_concat(
    o: ByteOrder,
    bs: int,
    a: Seq<u8>,
    b: Seq<u8>,
    low: u64,
    high: u64,
)
    requires
        0 < bs,
        low <= high,
        headers_up_to(o, bs, a, low),
        headers_up_to(o, bs, b, high),
    ensures
        headers_up_to(o, bs, a + b, high),
    decreases a.len(),
{
    if a.len() == 0 {
        assert(a + b =~= b);
    } else {
        lemma_headers_concat(o, bs, a.skip(bs), b, low, high);
        assert((a + b).take(bs) =~= a.take(bs));
        assert((a + b).skip(bs) =~= a.skip(bs) + b);
    }
}

/// The headers of complete blocks speak of no LSN behind the last record.
#[verifier::spinoff_prover]
proof fn lemma_headers_of_blocks(
    o: ByteOrder,
    bs: int,
    bytes: Seq<u8>,
    blocks: Seq<Seq<Record>>,
    st: ReadState,
    base: int,
    max_lsn: u64,
)
    requires
        0 < bs,
        blocks_hold(o, bs, bytes, blocks),
        lines_up(st, base, flat(blocks)),
        base + begun_entries(absorb_all(st, flat(blocks))->Ok_0) <= max_lsn + 1,
    ensures
        headers_up_to(o, bs, bytes, max_lsn),
    decreases blocks.len(),
{
    if blocks.len() > 0 {
        let recs = blocks[0];
        let rest = flat(blocks.skip(1));
        lemma_lines_up_concat(st, base, recs, rest);
        lemma_lines_up_ok(st, base, recs);
        lemma_absorb_concat(st, recs, rest);
        let next = absorb_all(st, recs)->Ok_0;
        lemma_lines_up_ok(next, base, rest);
        lemma_headers_of_blocks(o, bs, bytes.skip(bs), blocks.skip(1), next, base, max_lsn);
    }
}

// ---------------------------------------------------------------------------------------------
// Opening
// ---------------------------------------------------------------------------------------------

/// The smallest needed LSN in an entry of the manifest, if there is one.
spec fn noted_min(o: ByteOrder, mani: Seq<u8>) -> u64 {
    if mani.len() > 0 {
        decode_mani(o, mani)->Ok_0
    } else {
        0
    }
}

/// What the manifest says of the smallest needed LSN.
spec fn mani_min(w: Writing) -> u64 {
    noted_min(w.s.order, w.mani)
}

/// The smallest and the largest LSN that are found when a log is opened.
spec fn range_of(w: Writing) -> (u64, u64) {
    let bytes = w.rots.last().bytes;
    if bytes.len() == 0 {
        lsn_range(mani_min(w), 0, before(lsn_of(w.s.prefix, w.rots.last().name)))
    } else {
        let h = decode_header(w.s.order, last_block(bytes, w.s.block_size))->Ok_0;
        lsn_range(mani_min(w), h.whole_min_lsn, h.max_lsn)
    }
}

proof fn lemma_found(w: Writing, begun: bool, mani_size: u64)
    requires
        BLOCK_HEAD_SIZE <= w.s.block_size,
        w.mani.len() > 0 ==> decode_mani(w.s.order, w.mani) is Ok,
        mani_size >= MANI_ENTRY_SIZE,
        w.rots.last().bytes.len() <= u64::MAX,
        ({
            let bytes = w.rots.last().bytes;
            bytes.len() > 0 ==> {
                &&& bytes.len() >= w.s.block_size
                &&& bytes.len() as int % w.s.block_size == 0
                &&& decode_header(w.s.order, last_block(bytes, w.s.block_size)) is Ok
            }
        }),
    ensures
        found(w, begun, mani_size) == RestoreWants::Done(range_of(w).0, range_of(w).1),
{
    reveal(reopened);
    let bytes = w.rots.last().bytes;
    let bs = w.s.block_size;
    if bytes.len() > 0 {
        let at = bytes.len() - bs;
        lemma_header_of_block(w.s.order, bytes, at, bs);
        assert(bytes.subrange(at, at + bs) =~= last_block(bytes, bs));
    }
}

/// A log that holds complete entries, and that the flushing thread goes on from, can be taken up.
pub proof fn law_complete_log_is_taken_up(w: Writing, parts: Seq<Seq<Entry>>)
    requires
        goes_on(w, parts),
    ensures
        takes_up(w),
{
    let s = w.s;
    let o = s.order;
    let bs = s.block_size;
    let rots = w.rots;
    let n = rots.len() as int;
    let bytes = rots.last().bytes;
    let base = lsn_of(s.prefix, rots.last().name) as int;
    let max_lsn = s.max_flushed_lsn;
    lemma_last_lsn(o, bs, s.prefix, rots, parts, None);
    assert(rots[n - 1] == rots.last());
    assert(parts[n - 1] == parts.last());
    lemma_ascending(o, bs, s.prefix, rots, parts, None);
    lemma_in_order_below(s.prefix, rots, base, max_lsn + 1);
    reveal(rot_ends);
    let blocks = choose|b: Seq<Seq<Record>>|
        #[trigger] blocks_hold(o, bs, bytes, b) && blocks_say(base, b, parts.last());
    lemma_headers_of_blocks(o, bs, bytes, blocks, nothing_read(), base, max_lsn);
    lemma_lines_up_ok(nothing_read(), base, flat(blocks));
    if bytes.len() > 0 {
        lemma_last_block_holds(o, bs, bytes, blocks);
    } else {
        assert(blocks.len() == 0);
        assert(flat(blocks) =~= Seq::empty());
        assert(parts.last() =~= Seq::empty());
    }
}

proof fn lemma_in_order_lsn(prefix: Seq<char>, rots: Seq<Rot>, next_lsn: int, i: int)
    requires
        in_order(prefix, rots, next_lsn),
        0 <= i < rots.len(),
    ensures
        lsn_of(prefix, rots[i].name) <= next_lsn,
{
    reveal(in_order);
}

proof fn lemma_in_order_below(prefix: Seq<char>, rots: Seq<Rot>, low: int, high: int)
    requires
        in_order(prefix, rots, low),
        low <= high,
    ensures
        in_order(prefix, rots, high),
{
    reveal(in_order);
}

/// The LSNs in the names of a log's rotations ascend.
proof fn lemma_ascending(
    o: ByteOrder,
    bs: int,
    prefix: Seq<char>,
    rots: Seq<Rot>,
    parts: Seq<Seq<Entry>>,
    tail: Broken,
)
    requires
        log_ends(o, bs, prefix, rots, parts, tail),
        rots.len() > 0,
    ensures
        in_order(prefix, rots, lsn_of(prefix, rots.last().name) as int),
{
    reveal(in_order);
    let n = rots.len() as int;
    assert forall|i: int, j: int|
        #![trigger rots[i], rots[j]]
        0 <= i < j < n implies lsn_of(prefix, rots[i].name) <= lsn_of(prefix, rots[j].name) by {
        lemma_ascends(o, bs, prefix, rots, parts, tail, i, j);
    }
    assert forall|i: int| 0 <= i < n implies lsn_of(prefix, (#[trigger] rots[i]).name) <= lsn_of(
        prefix,
        rots.last().name,
    ) by {
        assert(rots.last() == rots[n - 1]);
    }
}

proof fn lemma_ascends(
    o: ByteOrder,
    bs: int,
    prefix: Seq<char>,
    rots: Seq<Rot>,
    parts: Seq<Seq<Entry>>,
    tail: Broken,
    i: int,
    j: int,
)
    requires
        log_ends(o, bs, prefix, rots, parts, tail),
        0 <= i <= j < rots.len(),
    ensures
        lsn_of(prefix, rots[i].name) <= lsn_of(prefix, rots[j].name),
    decreases j - i,
{
    if i < j {
        lemma_ascends(o, bs, prefix, rots, parts, tail, i, j - 1);
        assert(rots[j - 1].name == rots[j - 1].name && rots[j].name == rots[j].name);
    }
}

// ---------------------------------------------------------------------------------------------
// What a session adds
// ---------------------------------------------------------------------------------------------

/// How the rotations `a` of a log relate to those, `b`, of a log that starts with nothing and is
/// written in the same way: `old` are the rotations that were there before, of which the first `j`
/// have been released, and what is written first goes to the last of them. The LSNs that are written
/// start at `base`, and the manifest notes that those below `noted` are not needed.
#[verifier::opaque]
spec fn mirrored(
    prefix: Seq<char>,
    old: Seq<Rot>,
    base: int,
    a: Seq<Rot>,
    b: Seq<Rot>,
    j: int,
    noted: u64,
) -> bool {
    &&& old.len() > 0
    &&& b.len() > 0
    &&& 0 <= j <= old.len()
    &&& forall|i: int| 0 <= i < b.len() ==> base <= lsn_of(prefix, (#[trigger] b[i]).name)
    &&& j < old.len() ==> {
        &&& a == continued(old, b, j)
        &&& data_rot_info(prefix, b[0].name).unwrap().0 == data_rot_info(
            prefix,
            old.last().name,
        ).unwrap().0
        &&& lsn_of(prefix, b[0].name) == base
    }
    &&& j == old.len() ==> a == b && base <= noted
    &&& 0 < j < old.len() ==> lsn_of(prefix, old[j].name) <= noted
}

/// The rotations `old`, without the first `j`, with the first of `b` continuing the last one.
spec fn continued(old: Seq<Rot>, b: Seq<Rot>, j: int) -> Seq<Rot> {
    old.subrange(j, old.len() - 1).push(
        Rot { name: old.last().name, bytes: old.last().bytes + b[0].bytes },
    ) + b.skip(1)
}

#[verifier::spinoff_prover]
proof fn lemma_mirrored_append(
    prefix: Seq<char>,
    old: Seq<Rot>,
    base: int,
    a: Seq<Rot>,
    b: Seq<Rot>,
    j: int,
    noted: u64,
    data: Seq<u8>,
)
    requires
        mirrored(prefix, old, base, a, b, j, noted),
    ensures
        mirrored(
            prefix,
            old,
            base,
            perform(prefix, a, Op::AppendData(data)),
            perform(prefix, b, Op::AppendData(data)),
            j,
            noted,
        ),
{
    reveal(mirrored);
    let a2 = perform(prefix, a, Op::AppendData(data));
    let b2 = perform(prefix, b, Op::AppendData(data));
    assert forall|i: int| 0 <= i < b2.len() implies (#[trigger] b2[i]).name == b[i].name by {}
    if j < old.len() {
        if b.len() == 1 {
            assert(old.last().bytes + b[0].bytes + data =~= old.last().bytes + (b[0].bytes + data));
        }
        assert(a2 =~= continued(old, b2, j));
    }
}

proof fn lemma_mirrored_new(
    prefix: Seq<char>,
    old: Seq<Rot>,
    base: int,
    a: Seq<Rot>,
    b: Seq<Rot>,
    j: int,
    noted: u64,
    name: Seq<char>,
)
    requires
        mirrored(prefix, old, base, a, b, j, noted),
        base <= lsn_of(prefix, name),
    ensures
        mirrored(
            prefix,
            old,
            base,
            perform(prefix, a, Op::NewDataRot(name)),
            perform(prefix, b, Op::NewDataRot(name)),
            j,
            noted,
        ),
{
    reveal(mirrored);
    let a2 = perform(prefix, a, Op::NewDataRot(name));
    let b2 = perform(prefix, b, Op::NewDataRot(name));
    assert forall|i: int| 0 <= i < b2.len() implies base <= lsn_of(
        prefix,
        (#[trigger] b2[i]).name,
    ) by {
        if i < b.len() {
            assert(b2[i] == b[i]);
        }
    }
    if j < old.len() {
        assert(a2 =~= continued(old, b2, j));
    }
}

proof fn lemma_mirrored_later(
    prefix: Seq<char>,
    old: Seq<Rot>,
    base: int,
    a: Seq<Rot>,
    b: Seq<Rot>,
    j: int,
    noted: u64,
    later: u64,
)
    requires
        mirrored(prefix, old, base, a, b, j, noted),
        noted <= later,
    ensures
        mirrored(prefix, old, base, a, b, j, later),
{
    reveal(mirrored);
}

/// How many rotations can be released, when some precede them.
#[verifier::spinoff_prover]
proof fn lemma_unused_behind(
    prefix: Seq<char>,
    x: Seq<Seq<char>>,
    y: Seq<Seq<char>>,
    min_lsn: u64,
)
    requires
        x.len() > 0,
        y.len() > 0,
        y.len() > 1 ==> forall|i: int|
            0 <= i < x.len() ==> lsn_of(prefix, #[trigger] x[i]) <= lsn_of(prefix, y[1]),
    ensures
        ({
            let k = unused_rots(prefix, x + y.skip(1), min_lsn);
            let m = unused_rots(prefix, y, min_lsn);
            &&& 0 <= m < y.len()
            &&& m > 0 ==> k == x.len() - 1 + m && lsn_of(prefix, y[1]) <= min_lsn
            &&& m == 0 ==> 0 <= k < x.len()
            &&& 0 < k < x.len() ==> lsn_of(prefix, x[k]) <= min_lsn
        }),
    decreases x.len(),
{
    lemma_unused_few(prefix, y, min_lsn);
    let z = x + y.skip(1);
    if x.len() == 1 {
        assert(z.skip(1) =~= y.skip(1));
        if y.len() > 1 {
            assert(z[1] == y[1]);
        }
    } else {
        assert(z[1] == x[1]);
        assert(z.skip(1) =~= x.skip(1) + y.skip(1));
        assert forall|i: int| y.len() > 1 && 0 <= i < x.skip(1).len() implies lsn_of(
            prefix,
            #[trigger] x.skip(1)[i],
        ) <= lsn_of(prefix, y[1]) by {
            assert(x.skip(1)[i] == x[i + 1]);
        }
        lemma_unused_behind(prefix, x.skip(1), y, min_lsn);
        let k = unused_rots(prefix, z, min_lsn);
        if 1 < k < x.len() {
            assert(x.skip(1)[k - 1] == x[k]);
        }
    }
}

proof fn lemma_unused_few(prefix: Seq<char>, names: Seq<Seq<char>>, min_lsn: u64)
    requires
        names.len() > 0,
    ensures
        0 <= unused_rots(prefix, names, min_lsn) < names.len(),
    decreases names.len(),
{
    if names.len() >= 2 && lsn_of(prefix, names[1]) <= min_lsn {
        lemma_unused_few(prefix, names.skip(1), min_lsn);
    }
}

proof fn lemma_continued_names(old: Seq<Rot>, b: Seq<Rot>, j: int)
    requires
        0 <= j < old.len(),
        b.len() > 0,
    ensures
        rot_names(continued(old, b, j)) == rot_names(old.skip(j)) + rot_names(b).skip(1),
{
    let a = continued(old, b, j);
    let x = rot_names(old.skip(j));
    let z = x + rot_names(b).skip(1);
    assert forall|i: int| 0 <= i < a.len() implies #[trigger] rot_names(a)[i] == z[i] by {
        if i < x.len() {
            assert(a[i].name == old[j + i].name);
        } else {
            assert(a[i] == b[i - x.len() + 1]);
        }
    }
    assert(rot_names(a) =~= z);
}

/// How many rotations can be released of those that continue others.
#[verifier::spinoff_prover]
proof fn lemma_continued_unused(
    prefix: Seq<char>,
    old: Seq<Rot>,
    base: int,
    b: Seq<Rot>,
    j: int,
    min_lsn: u64,
)
    requires
        0 <= j < old.len(),
        b.len() > 0,
        in_order(prefix, old, base),
        b.len() > 1 ==> base <= lsn_of(prefix, b[1].name),
    ensures
        ({
            let k = unused_rots(prefix, rot_names(continued(old, b, j)), min_lsn);
            let m = unused_rots(prefix, rot_names(b), min_lsn);
            &&& 0 <= m < b.len()
            &&& m > 0 ==> k == old.len() - j - 1 + m && lsn_of(prefix, b[1].name) <= min_lsn
            &&& m == 0 ==> 0 <= k < old.len() - j
            &&& 0 < k < old.len() - j ==> lsn_of(prefix, old[j + k].name) <= min_lsn
        }),
{
    let x = rot_names(old.skip(j));
    let y = rot_names(b);
    lemma_continued_names(old, b, j);
    if y.len() > 1 {
        assert(y[1] == b[1].name);
        assert forall|i: int| 0 <= i < x.len() implies lsn_of(prefix, #[trigger] x[i]) <= lsn_of(
            prefix,
            y[1],
        ) by {
            lemma_in_order_lsn(prefix, old, base, j + i);
            assert(x[i] == old[j + i].name);
        }
    }
    lemma_unused_behind(prefix, x, y, min_lsn);
    let k = unused_rots(prefix, x + y.skip(1), min_lsn);
    if 0 < k < x.len() {
        assert(x[k] == old[j + k].name);
    }
}

/// Rotations that continue others, without the first `k`.
proof fn lemma_continued_skip(old: Seq<Rot>, b: Seq<Rot>, j: int, k: int)
    requires
        0 <= j < old.len(),
        b.len() > 0,
        0 <= k < old.len() - j - 1 + b.len(),
    ensures
        k < old.len() - j ==> continued(old, b, j).skip(k) == continued(old, b, j + k),
        k >= old.len() - j ==> continued(old, b, j).skip(k) == b.skip(k - (old.len() - j - 1)),
{
    let a = continued(old, b, j);
    if k < old.len() - j {
        assert(a.skip(k) =~= continued(old, b, j + k));
    } else {
        assert(a.skip(k) =~= b.skip(k - (old.len() - j - 1)));
    }
}

#[verifier::spinoff_prover]
proof fn lemma_mirrored_release(
    prefix: Seq<char>,
    old: Seq<Rot>,
    base: int,
    a: Seq<Rot>,
    b: Seq<Rot>,
    j: int,
    noted: u64,
    min_lsn: u64,
) -> (j2: int)
    requires
        mirrored(prefix, old, base, a, b, j, noted),
        in_order(prefix, old, base),
        min_lsn <= noted,
    ensures
        mirrored(
            prefix,
            old,
            base,
            perform(prefix, a, Op::ReleaseRots(min_lsn)),
            perform(prefix, b, Op::ReleaseRots(min_lsn)),
            j2,
            noted,
        ),
{
    reveal(mirrored);
    let n = old.len() as int;
    let m = unused_rots(prefix, rot_names(b), min_lsn);
    let k = unused_rots(prefix, rot_names(a), min_lsn);
    let b2 = perform(prefix, b, Op::ReleaseRots(min_lsn));
    let a2 = perform(prefix, a, Op::ReleaseRots(min_lsn));
    lemma_unused_few(prefix, rot_names(b), min_lsn);
    assert forall|i: int| 0 <= i < b2.len() implies base <= lsn_of(
        prefix,
        (#[trigger] b2[i]).name,
    ) by {
        assert(b2[i] == b[i + m]);
    }
    if j == n {
        j
    } else {
        if b.len() > 1 {
            assert(base <= lsn_of(prefix, b[1].name));
        }
        lemma_continued_unused(prefix, old, base, b, j, min_lsn);
        if m > 0 {
            lemma_continued_skip(old, b, j, k);
            n
        } else {
            assert(b.skip(0) =~= b);
            lemma_continued_skip(old, b, j, k);
            j + k
        }
    }
}

#[verifier::spinoff_prover]
proof fn lemma_mirrored_flush(
    t: FlushState,
    old: Seq<Rot>,
    base: int,
    a: Seq<Rot>,
    b: Seq<Rot>,
    j: int,
    noted: u64,
    rotatable: bool,
    min_lsn: u64,
) -> (j2: int)
    requires
        mirrored(t.prefix, old, base, a, b, j, noted),
        in_order(t.prefix, old, base),
        t.rotates(rotatable) ==> min_lsn <= noted,
        base <= lsn_of(
            t.prefix,
            performed(t.prefix, b, t.flush_ops(rotatable, min_lsn)).last().name,
        ),
    ensures
        mirrored(
            t.prefix,
            old,
            base,
            performed(t.prefix, a, t.flush_ops(rotatable, min_lsn)),
            performed(t.prefix, b, t.flush_ops(rotatable, min_lsn)),
            j2,
            noted,
        ),
{
    let prefix = t.prefix;
    lemma_flush_ops(t, a, rotatable, min_lsn);
    lemma_flush_ops(t, b, rotatable, min_lsn);
    lemma_mirrored_append(prefix, old, base, a, b, j, noted, t.buf);
    if t.rotates(rotatable) {
        let a1 = perform(prefix, a, Op::AppendData(t.buf));
        let b1 = perform(prefix, b, Op::AppendData(t.buf));
        let name = data_rot_name(prefix, (t.rot_no + 1) as u32, (t.last_filled_lsn + 1) as u64);
        let a2 = perform(prefix, a1, Op::NewDataRot(name));
        let b2 = perform(prefix, b1, Op::NewDataRot(name));
        lemma_unused_few(prefix, rot_names(b2), min_lsn);
        assert(perform(prefix, b2, Op::ReleaseRots(min_lsn)).last().name == name);
        lemma_mirrored_new(prefix, old, base, a1, b1, j, noted, name);
        lemma_mirrored_release(prefix, old, base, a2, b2, j, noted, min_lsn)
    } else {
        j
    }
}

/// The LSN in the last name is not below the first LSN.
proof fn lemma_base_lsn(w: Writing, g: Layout, first: int, total: Seq<Entry>)
    requires
        inv(w, g, first, total),
    ensures
        first <= base_lsn(w),
{
    reveal(inv);
    if w.s.pending is Some {
        let p = w.s.pending->0;
        assert(written(g).push(Entry { lsn: p.lsn, payload: g.payload }).len() == total.len());
    }
    assert(written(g).len() >= g.st.entries.len());
}

/// Whether the flushing thread knows at most what the manifest says of the smallest needed LSN, and
/// the manifest says at most what is needed.
spec fn notes(w: Writing) -> bool {
    &&& w.mani.len() > 0 ==> decode_mani(w.s.order, w.mani) is Ok
    &&& w.s.mani_min_lsn <= mani_min(w) <= w.now
}

proof fn lemma_notes(v: Writing, g: Layout, first: int, total: Seq<Entry>)
    requires
        inv(v, g, first, total),
    ensures
        notes(v),
{
    reveal(inv);
}

/// What a step does to the flushing thread and the manifest does not depend on the data.
proof fn lemma_same_after(w: Writing, v: Writing, step: Step)
    requires
        w == (Writing { rots: w.rots, ..v }),
        w.can(step),
    ensures
        v.can(step),
        w.after(step) == (Writing { rots: w.after(step).rots, ..v.after(step) }),
        w.after(step).s.prefix == w.s.prefix,
        w.now <= w.after(step).now,
{
    reveal(Writing::after);
}

/// Flushing leaves an LSN in the manifest that is not below the one before, and when rotations are
/// released, not below the one that they are released for.
proof fn lemma_noted_flush(w: Writing, t: FlushState, rotatable: bool, min_lsn: u64)
    requires
        notes(w),
        t.order == w.s.order,
        t.mani_min_lsn == w.s.mani_min_lsn,
        w.now <= min_lsn,
    ensures
        ({
            let noted = noted_min(t.order, noted_by(w.mani, t.flush_ops(rotatable, min_lsn)));
            &&& mani_min(w) <= noted
            &&& t.rotates(rotatable) ==> min_lsn <= noted
        }),
{
    lemma_flush_notes(t, w.mani, rotatable, min_lsn);
    lemma_mani_entry(t.order, min_lsn);
}

/// The LSN in the manifest never goes down.
#[verifier::spinoff_prover]
proof fn lemma_noted_step(w: Writing, step: Step)
    requires
        notes(w),
        w.can(step),
    ensures
        ({
            let noted = mani_min(w.after(step));
            &&& mani_min(w) <= noted
            &&& match step {
                Step::Fill { min_lsn, flush_min_lsn } => {
                    let u = w.s.begun(min_lsn).placed();
                    u.flushes() && u.sealed(min_lsn).rotates(u.whole()) ==> flush_min_lsn <= noted
                },
                Step::FlushOverdue { min_lsn, flush_min_lsn } => w.s.overdue()
                    && w.s.padded().sealed(min_lsn).rotates(true) ==> flush_min_lsn <= noted,
                Step::EndRound { noop, min_lsn } => w.s.releases(min_lsn) ==> min_lsn <= noted,
                _ => true,
            }
        }),
{
    reveal(Writing::after);
    let s = w.s;
    lemma_noted_one(w.mani, Op::AppendMani(mani_entry(s.order, 0)));
    match step {
        Step::Fill { min_lsn, flush_min_lsn } => {
            let u = s.begun(min_lsn).placed();
            if u.flushes() {
                let t = u.sealed(min_lsn);
                assert(t.order == s.order && t.mani_min_lsn == s.mani_min_lsn);
                lemma_noted_flush(w, t, u.whole(), flush_min_lsn);
            }
        },
        Step::FlushOverdue { min_lsn, flush_min_lsn } => {
            if s.overdue() {
                let t = s.padded().sealed(min_lsn);
                assert(t.order == s.order && t.mani_min_lsn == s.mani_min_lsn);
                lemma_noted_flush(w, t, true, flush_min_lsn);
            }
        },
        Step::EndRound { noop, min_lsn } => {
            lemma_advance_ops(w, min_lsn);
            lemma_mani_entry(s.order, min_lsn);
        },
        Step::Start => {
            lemma_mani_entry(s.order, 0);
        },
        _ => {},
    }
}

/// Each step does the same to a log and to one that starts with nothing.
#[verifier::spinoff_prover]
proof fn lemma_mirrored_step(
    old: Seq<Rot>,
    w: Writing,
    v: Writing,
    g: Layout,
    first: int,
    total: Seq<Entry>,
    j: int,
    step: Step,
) -> (j2: int)
    requires
        w == (Writing { rots: w.rots, ..v }),
        mirrored(w.s.prefix, old, first, w.rots, v.rots, j, mani_min(w)),
        in_order(w.s.prefix, old, first),
        w.can(step),
        notes(w),
        inv(v.after(step), g, first, total),
    ensures
        v.can(step),
        w.after(step) == (Writing { rots: w.after(step).rots, ..v.after(step) }),
        w.after(step).s.prefix == w.s.prefix,
        mirrored(
            w.s.prefix,
            old,
            first,
            w.after(step).rots,
            v.after(step).rots,
            j2,
            mani_min(w.after(step)),
        ),
{
    reveal(Writing::after);
    let s = w.s;
    let prefix = s.prefix;
    let noted = mani_min(w.after(step));
    lemma_noted_step(w, step);
    lemma_base_lsn(v.after(step), g, first, total);
    lemma_performed_one(prefix, w.rots, Op::AppendMani(mani_entry(s.order, 0)));
    lemma_performed_one(prefix, v.rots, Op::AppendMani(mani_entry(s.order, 0)));
    lemma_mirrored_later(prefix, old, first, w.rots, v.rots, j, mani_min(w), noted);
    match step {
        Step::Fill { min_lsn, flush_min_lsn } => {
            let u = s.begun(min_lsn).placed();
            if u.flushes() {
                let t = u.sealed(min_lsn);
                assert(t.prefix == prefix);
                lemma_mirrored_flush(
                    t,
                    old,
                    first,
                    w.rots,
                    v.rots,
                    j,
                    noted,
                    u.whole(),
                    flush_min_lsn,
                )
            } else {
                j
            }
        },
        Step::FlushOverdue { min_lsn, flush_min_lsn } => {
            if s.overdue() {
                let t = s.padded().sealed(min_lsn);
                assert(t.prefix == prefix);
                lemma_mirrored_flush(t, old, first, w.rots, v.rots, j, noted, true, flush_min_lsn)
            } else {
                j
            }
        },
        Step::EndRound { noop, min_lsn } => {
            lemma_advance_ops(w, min_lsn);
            lemma_advance_ops(v, min_lsn);
            if s.releases(min_lsn) {
                lemma_mirrored_release(prefix, old, first, w.rots, v.rots, j, noted, min_lsn)
            } else {
                j
            }
        },
        _ => j,
    }
}

/// Any number of steps does the same to a log and to one that starts with nothing.
#[verifier::spinoff_prover]
proof fn lemma_mirrored_run(
    old: Seq<Rot>,
    w: Writing,
    v: Writing,
    g: Layout,
    first: int,
    total: Seq<Entry>,
    j: int,
    steps: Seq<Step>,
    max_lsn: u64,
) -> (j2: int)
    requires
        w == (Writing { rots: w.rots, ..v }),
        mirrored(w.s.prefix, old, first, w.rots, v.rots, j, mani_min(w)),
        in_order(w.s.prefix, old, first),
        can_run(w, steps),
        inv(v, g, first, total),
        consecutive(total + accepted(steps), first),
    ensures
        can_run(v, steps),
        run(w, steps) == (Writing { rots: run(w, steps).rots, ..run(v, steps) }),
        mirrored(
            w.s.prefix,
            old,
            first,
            run(w, steps).rots,
            run(v, steps).rots,
            j2,
            mani_min(run(w, steps)),
        ),
        mani_min(w) <= mani_min(run(w, steps)),
        published(w, steps, max_lsn) == published(v, steps, max_lsn),
        w.now <= run(w, steps).now,
    decreases steps.len(),
{
    if steps.len() == 0 {
        reveal(published);
        j
    } else {
        let step = steps[0];
        let more = match step {
            Step::Accept(entry) => seq![entry],
            _ => Seq::empty(),
        };
        assert(total + more + accepted(steps.skip(1)) =~= total + accepted(steps));
        if step is Accept {
            assert((total + accepted(steps))[total.len() as int] == more[0]);
        }
        lemma_published_first(w, steps, max_lsn);
        lemma_published_first(v, steps, max_lsn);
        lemma_notes(v, g, first, total);
        lemma_same_after(w, v, step);
        lemma_noted_step(w, step);
        let g1 = lemma_step(v, g, first, total, step);
        let j1 = lemma_mirrored_step(old, w, v, g1, first, total + more, j, step);
        lemma_mirrored_run(
            old,
            w.after(step),
            v.after(step),
            g1,
            first,
            total + more,
            j1,
            steps.skip(1),
            published_by(max_lsn, ops_of(w.s, step)),
        )
    }
}

/// The log that starts with nothing where another one is taken up.
spec fn anew(w: Writing) -> Writing {
    let lsn = (w.s.max_flushed_lsn + 1) as u64;
    let rot = Rot { name: data_rot_name(w.s.prefix, w.s.rot_no, lsn), bytes: Seq::empty() };
    Writing { rots: seq![rot], ..w }
}

#[verifier::spinoff_prover]
proof fn lemma_anew(w: Writing) -> (g: Layout)
    requires
        takes_up(w),
        w.s.max_flushed_lsn < u64::MAX,
    ensures
        inv(anew(w), g, w.s.max_flushed_lsn + 1, Seq::empty()),
        mirrored(w.s.prefix, w.rots, w.s.max_flushed_lsn + 1, w.rots, anew(w).rots, 0, mani_min(w)),
        base_lsn(anew(w)) == w.s.max_flushed_lsn + 1,
{
    reveal(inv);
    reveal(mirrored);
    let s = w.s;
    let lsn = (s.max_flushed_lsn + 1) as u64;
    let v = anew(w);
    let rot = v.rots[0];
    let nothing = seq![Seq::<Entry>::empty()];
    let none = Seq::<Seq<Record>>::empty();
    law_data_rot_name_reads_back(s.prefix, s.rot_no, lsn);
    assert(flat(none) =~= Seq::<Record>::empty());
    assert(nothing.skip(1) =~= Seq::empty());
    assert(flat(nothing.skip(1)) =~= Seq::<Entry>::empty());
    assert(flat(nothing) =~= Seq::<Entry>::empty());
    assert(blocks_hold(s.order, s.block_size, rot.bytes, none));
    assert(blocks_say(lsn as int, none, Seq::empty()));
    reveal(rot_ends);
    let g = lemma_initial(v, nothing);
    assert(w.rots.last().bytes + rot.bytes =~= w.rots.last().bytes);
    assert(w.rots =~= continued(w.rots, v.rots, 0));
    g
}

// ---------------------------------------------------------------------------------------------
// The smallest LSN
// ---------------------------------------------------------------------------------------------

/// The smallest needed LSN in the header of the last block, if there is one.
spec fn data_min(w: Writing) -> u64 {
    let bytes = w.rots.last().bytes;
    if bytes.len() > 0 {
        header_min(w.s.order, last_block(bytes, w.s.block_size))->0
    } else {
        0
    }
}

/// What the files say of the smallest needed LSN.
spec fn low(w: Writing) -> u64 {
    if mani_min(w) > data_min(w) {
        mani_min(w)
    } else {
        data_min(w)
    }
}

/// What a step that flushes appends to the data: whole blocks, with the smallest needed LSN in the
/// header of the last one.
spec fn ends_with_min(s: FlushState, data: Seq<u8>, min_lsn: u64) -> bool {
    &&& data.len() >= s.block_size
    &&& header_min(s.order, last_block(data, s.block_size)) == Some(min_lsn)
}

#[verifier::spinoff_prover]
proof fn lemma_fill_header(
    v: Writing,
    g: Layout,
    first: int,
    total: Seq<Entry>,
    min_lsn: u64,
    flush_min_lsn: u64,
)
    requires
        inv(v, g, first, total),
        v.can(Step::Fill { min_lsn, flush_min_lsn }),
    ensures
        ({
            let u = v.s.begun(min_lsn).placed();
            u.flushes() ==> ends_with_min(v.s, u.sealed(min_lsn).buf, min_lsn)
        }),
{
    reveal(inv);
    let s = v.s;
    let u = s.begun(min_lsn).placed();
    if g.buf.open.len() > 0 {
        lemma_lines_up_ok(nothing_read(), base_lsn(v), records(g));
        assert(records(g).last() == g.buf.open.last());
    }
    let b2 = lemma_fill_layout(s, g.buf, min_lsn);
    lemma_filled(s, min_lsn, flush_min_lsn);
    if u.flushes() {
        assert(u.aligned());
        lemma_sealed_layout(u, b2, min_lsn);
    }
}

#[verifier::spinoff_prover]
proof fn lemma_timed_header(v: Writing, g: Layout, first: int, total: Seq<Entry>, min_lsn: u64)
    requires
        inv(v, g, first, total),
    ensures
        v.s.overdue() ==> ends_with_min(v.s, v.s.padded().sealed(min_lsn).buf, min_lsn),
{
    reveal(inv);
    let s = v.s;
    if s.overdue() {
        lemma_timed(s, min_lsn, min_lsn);
        lemma_padded_layout(s, g.buf);
        lemma_sealed_layout(s.padded(), g.buf, min_lsn);
    }
}

/// The last rotation after a flush.
#[verifier::spinoff_prover]
proof fn lemma_flush_last(t: FlushState, rots: Seq<Rot>, rotatable: bool, min_lsn: u64)
    requires
        rots.len() > 0,
    ensures
        ({
            let rots2 = performed(t.prefix, rots, t.flush_ops(rotatable, min_lsn));
            &&& rots2.len() > 0
            &&& rots2.last().bytes == (if t.rotates(rotatable) {
                Seq::empty()
            } else {
                rots.last().bytes + t.buf
            })
        }),
{
    lemma_flush_ops(t, rots, rotatable, min_lsn);
    if t.rotates(rotatable) {
        let name = data_rot_name(t.prefix, (t.rot_no + 1) as u32, (t.last_filled_lsn + 1) as u64);
        let r1 = perform(t.prefix, rots, Op::AppendData(t.buf));
        let r2 = perform(t.prefix, r1, Op::NewDataRot(name));
        lemma_unused_few(t.prefix, rot_names(r2), min_lsn);
    }
}

/// Whether what the files say of the smallest needed LSN is not above what is needed.
spec fn low_known(w: Writing) -> bool {
    let bytes = w.rots.last().bytes;
    &&& w.rots.len() > 0
    &&& low(w) <= w.now
    &&& bytes.len() > 0 ==> header_min(w.s.order, last_block(bytes, w.s.block_size)) is Some
}

/// A flush leaves an LSN in the files that is not below the one before.
proof fn lemma_low_flush(
    w: Writing,
    w2: Writing,
    t: FlushState,
    rotatable: bool,
    min_lsn: u64,
    flush_min_lsn: u64,
)
    requires
        low_known(w),
        0 < w.s.block_size,
        ends_with_min(w.s, t.buf, min_lsn),
        w.now <= min_lsn <= flush_min_lsn,
        t.prefix == w.s.prefix,
        w2.s.order == w.s.order,
        w2.s.block_size == w.s.block_size,
        w2.rots == performed(t.prefix, w.rots, t.flush_ops(rotatable, flush_min_lsn)),
        w2.now == flush_min_lsn,
        mani_min(w) <= mani_min(w2) <= w2.now,
        t.rotates(rotatable) ==> flush_min_lsn <= mani_min(w2),
    ensures
        low(w) <= low(w2),
        low_known(w2),
{
    lemma_flush_last(t, w.rots, rotatable, flush_min_lsn);
    if !t.rotates(rotatable) {
        let bytes = w2.rots.last().bytes;
        assert(last_block(bytes, w.s.block_size) =~= last_block(t.buf, w.s.block_size));
    }
}

/// Whether what a step appends to the data, if anything, ends with the smallest needed LSN.
spec fn keeps_min(s: FlushState, step: Step) -> bool {
    match step {
        Step::Fill { min_lsn, flush_min_lsn } => {
            let u = s.begun(min_lsn).placed();
            u.flushes() ==> ends_with_min(s, u.sealed(min_lsn).buf, min_lsn)
        },
        Step::FlushOverdue { min_lsn, flush_min_lsn } => s.overdue() ==> ends_with_min(
            s,
            s.padded().sealed(min_lsn).buf,
            min_lsn,
        ),
        _ => true,
    }
}

proof fn lemma_keeps_min(v: Writing, g: Layout, first: int, total: Seq<Entry>, step: Step)
    requires
        inv(v, g, first, total),
        v.can(step),
    ensures
        keeps_min(v.s, step),
        notes(v),
        0 < v.s.block_size,
{
    lemma_inv(v, g, first, total);
    match step {
        Step::Fill { min_lsn, flush_min_lsn } => {
            lemma_fill_header(v, g, first, total, min_lsn, flush_min_lsn);
        },
        Step::FlushOverdue { min_lsn, flush_min_lsn } => {
            lemma_timed_header(v, g, first, total, min_lsn);
        },
        _ => {},
    }
}

#[verifier::spinoff_prover]
proof fn lemma_low_step(w: Writing, step: Step)
    requires
        w.can(step),
        notes(w),
        notes(w.after(step)),
        keeps_min(w.s, step),
        low_known(w),
        0 < w.s.block_size,
    ensures
        low(w) <= low(w.after(step)),
        low_known(w.after(step)),
{
    reveal(Writing::after);
    let s = w.s;
    let w2 = w.after(step);
    let prefix = s.prefix;
    lemma_noted_step(w, step);
    lemma_after_keeps(w, step);
    lemma_performed_one(prefix, w.rots, Op::AppendMani(mani_entry(s.order, 0)));
    match step {
        Step::Fill { min_lsn, flush_min_lsn } => {
            let u = s.begun(min_lsn).placed();
            if u.flushes() {
                let t = u.sealed(min_lsn);
                assert(t.prefix == prefix);
                lemma_low_flush(w, w2, t, u.whole(), min_lsn, flush_min_lsn);
            }
        },
        Step::FlushOverdue { min_lsn, flush_min_lsn } => {
            if s.overdue() {
                let t = s.padded().sealed(min_lsn);
                assert(t.prefix == prefix);
                lemma_low_flush(w, w2, t, true, min_lsn, flush_min_lsn);
            }
        },
        Step::EndRound { noop, min_lsn } => {
            lemma_advance_ops(w, min_lsn);
            lemma_unused_few(prefix, rot_names(w.rots), min_lsn);
            assert(w2.rots.last() == w.rots.last());
        },
        _ => {},
    }
}

/// What the files say of the smallest needed LSN never goes down.
proof fn lemma_low_run(
    w: Writing,
    v: Writing,
    g: Layout,
    first: int,
    total: Seq<Entry>,
    steps: Seq<Step>,
)
    requires
        w == (Writing { rots: w.rots, ..v }),
        inv(v, g, first, total),
        can_run(w, steps),
        consecutive(total + accepted(steps), first),
        low_known(w),
    ensures
        low(w) <= low(run(w, steps)),
    decreases steps.len(),
{
    if steps.len() > 0 {
        let step = steps[0];
        let more = match step {
            Step::Accept(entry) => seq![entry],
            _ => Seq::empty(),
        };
        assert(total + more + accepted(steps.skip(1)) =~= total + accepted(steps));
        if step is Accept {
            assert((total + accepted(steps))[total.len() as int] == more[0]);
        }
        let g1 = lemma_step(v, g, first, total, step);
        lemma_keeps_min(v, g, first, total, step);
        lemma_same_after(w, v, step);
        lemma_notes(v.after(step), g1, first, total + more);
        lemma_low_step(w, step);
        lemma_low_run(w.after(step), v.after(step), g1, first, total + more, steps.skip(1));
    }
}

// ---------------------------------------------------------------------------------------------
// Replays of what a session added
// ---------------------------------------------------------------------------------------------

/// What precedes the block that is looked at does not matter for a search.
#[verifier::spinoff_prover]
proof fn lemma_sought_behind(s: SeekState, t: SeekState, a: Seq<u8>, b: Seq<u8>, later: Seq<Seq<u8>>)
    requires
        BLOCK_HEAD_SIZE <= s.iter.block_size,
        s.size == a.len() + t.size,
        s.offset == a.len() + t.offset,
        t.size == b.len(),
        s == (SeekState { size: s.size, offset: s.offset, ..t }),
    ensures
        sought(s, a + b, later) == sought(t, b, later),
    decreases t.size - t.offset,
{
    let bs = s.iter.block_size;
    let off = t.offset as int;
    let n = a.len() as int;
    if t.within() {
        assert((a + b).subrange(n + off, n + off + BLOCK_HEAD_SIZE) =~= b.subrange(
            off,
            off + BLOCK_HEAD_SIZE,
        ));
        assert((a + b).subrange(n + off, n + off + bs) =~= b.subrange(off, off + bs));
        assert((a + b).skip(n + off + bs) =~= b.skip(off + bs));
        if t.skipped().within() {
            lemma_sought_behind(s.skipped(), t.skipped(), a, b, later);
        }
    }
}

/// A search skips blocks whose headers speak only of smaller LSNs.
#[verifier::spinoff_prover]
proof fn lemma_sought_skips(
    s: SeekState,
    a: Seq<u8>,
    b: Seq<u8>,
    later: Seq<Seq<u8>>,
    max_lsn: u64,
)
    requires
        BLOCK_HEAD_SIZE <= s.iter.block_size,
        s.size == a.len() + b.len(),
        s.offset <= a.len(),
        headers_up_to(s.iter.order, s.iter.block_size, a.skip(s.offset as int), max_lsn),
        max_lsn < s.start_lsn,
    ensures
        sought(s, a + b, later) == sought(
            SeekState { size: b.len() as u64, offset: 0, ..s },
            b,
            later,
        ),
    decreases a.len() - s.offset,
{
    let bs = s.iter.block_size;
    let off = s.offset as int;
    let t = SeekState { size: b.len() as u64, offset: 0, ..s };
    if off == a.len() {
        lemma_sought_behind(s, t, a, b, later);
    } else {
        let rest = a.skip(off);
        assert((a + b).subrange(off, off + bs) =~= rest.take(bs));
        lemma_header_of_block(s.iter.order, a + b, off, bs);
        assert(rest.skip(bs) =~= a.skip(off + bs));
        lemma_sought_skips(s.skipped(), a, b, later, max_lsn);
        assert(sought(s, a + b, later) == sought(s.skipped(), a + b, later));
    }
}

/// How many rotations start at an LSN or below, when some precede them that do.
proof fn lemma_leading_behind(prefix: Seq<char>, x: Seq<Seq<char>>, y: Seq<Seq<char>>, lsn: u64)
    requires
        forall|i: int| 0 <= i < x.len() ==> lsn_of(prefix, #[trigger] x[i]) <= lsn,
    ensures
        leading(prefix, x + y, lsn) == x.len() + leading(prefix, y, lsn),
    decreases x.len(),
{
    if x.len() == 0 {
        assert(x + y =~= y);
    } else {
        assert((x + y).skip(1) =~= x.skip(1) + y);
        assert forall|i: int| 0 <= i < x.skip(1).len() implies lsn_of(prefix, #[trigger] x.skip(1)[i])
            <= lsn by {
            assert(x.skip(1)[i] == x[i + 1]);
        }
        lemma_leading_behind(prefix, x.skip(1), y, lsn);
    }
}

/// How many rotations start at an LSN or below, when some follow them that do not.
proof fn lemma_leading_before(prefix: Seq<char>, x: Seq<Seq<char>>, y: Seq<Seq<char>>, lsn: u64)
    requires
        y.len() > 0 ==> lsn < lsn_of(prefix, y[0]),
    ensures
        leading(prefix, x + y, lsn) == leading(prefix, x, lsn),
        0 <= leading(prefix, x, lsn) <= x.len(),
    decreases x.len(),
{
    if x.len() == 0 {
        assert(x + y =~= y);
    } else {
        assert((x + y).skip(1) =~= x.skip(1) + y);
        lemma_leading_before(prefix, x.skip(1), y, lsn);
    }
}

/// The rotation in which a replay starts, when others precede.
#[verifier::spinoff_prover]
proof fn lemma_continued_leading(
    prefix: Seq<char>,
    old: Seq<Rot>,
    base: int,
    b: Seq<Rot>,
    j: int,
    lsn: u64,
)
    requires
        0 <= j < old.len(),
        b.len() > 0,
        in_order(prefix, old, base),
        lsn_of(prefix, b[0].name) == base,
        base <= lsn,
    ensures
        ({
            let k = leading(prefix, rot_names(b), lsn);
            &&& 1 <= k <= b.len()
            &&& leading(prefix, rot_names(continued(old, b, j)), lsn) == old.len() - j - 1 + k
            &&& rot_names(continued(old, b, j)).skip(old.len() - j - 1 + k) == rot_names(b).skip(k)
        }),
{
    let x = rot_names(old.skip(j));
    let y = rot_names(b);
    lemma_continued_names(old, b, j);
    assert forall|i: int| 0 <= i < x.len() implies lsn_of(prefix, #[trigger] x[i]) <= lsn by {
        lemma_in_order_lsn(prefix, old, base, j + i);
        assert(x[i] == old[j + i].name);
    }
    lemma_leading_behind(prefix, x, y.skip(1), lsn);
    lemma_leading_before(prefix, y.skip(1), Seq::empty(), lsn);
    assert(y[0] == b[0].name);
    let k = leading(prefix, y, lsn);
    assert((x + y.skip(1)).skip(x.len() - 1 + k) =~= y.skip(k));
}

/// What a session added is replayed as if nothing had been there before.
#[verifier::spinoff_prover]
proof fn lemma_replay_mirrored(
    o: ByteOrder,
    bs: u32,
    prefix: Seq<char>,
    old: Seq<Rot>,
    base: int,
    a: Seq<Rot>,
    b: Seq<Rot>,
    j: int,
    noted: u64,
    lsn: u64,
)
    requires
        BLOCK_HEAD_SIZE <= bs,
        mirrored(prefix, old, base, a, b, j, noted),
        in_order(prefix, old, base),
        0 < base <= lsn,
        headers_up_to(o, bs as int, old.last().bytes, (base - 1) as u64),
        forall|i: int| 0 <= i < a.len() ==> (#[trigger] a[i]).bytes.len() <= u64::MAX,
        b[0].bytes.len() as int % bs as int == 0,
    ensures
        replay(o, bs, prefix, a, lsn) == replay(o, bs, prefix, b, lsn),
{
    reveal(mirrored);
    if j < old.len() {
        let m = old.len() - j;
        lemma_continued_leading(prefix, old, base, b, j, lsn);
        let k = leading(prefix, rot_names(b), lsn);
        assert(a.skip(m - 1 + k) =~= b.skip(k));
        if k == 1 {
            let x = old.last().bytes;
            let y = b[0].bytes;
            assert(a[m - 1].bytes == x + y);
            let s = fresh_seek(o, bs, lsn, rot_names(b).skip(k));
            let later = b.skip(k).map_values(|r: Rot| r.bytes);
            let t = s.after(SeekSeen::Opened((x + y).len() as u64));
            assert(x.skip(0) =~= x);
            lemma_sought_skips(t, x, y, later, (base - 1) as u64);
            lemma_headers_aligned(o, bs as int, x, (base - 1) as u64);
            vstd::arithmetic::div_mod::lemma_mod_adds(x.len() as int, y.len() as int, bs as int);
        } else {
            assert(a[m - 2 + k] == b[k - 1]);
        }
    }
}

// ---------------------------------------------------------------------------------------------
// Replays of what was there before
// ---------------------------------------------------------------------------------------------

/// Whether what is left of a rotation and of those that follow it is the beginning of what is left
/// of other ones: all but the last are the same.
spec fn grows(
    bs: int,
    cur: Seq<u8>,
    later: Seq<Seq<u8>>,
    cur2: Seq<u8>,
    later2: Seq<Seq<u8>>,
) -> bool
    decreases later.len(),
{
    if later.len() == 0 {
        cur.is_prefix_of(cur2)
    } else {
        &&& cur2 == cur
        &&& later2.len() > 0
        &&& later[0].len() as u64 as int % bs == 0 ==> later2[0].len() as u64 as int % bs == 0
        &&& grows(bs, later[0], later.skip(1), later2[0], later2.skip(1))
    }
}

/// Blocks that are read are read off both.
proof fn lemma_grows_skip(
    bs: int,
    n: int,
    cur: Seq<u8>,
    later: Seq<Seq<u8>>,
    cur2: Seq<u8>,
    later2: Seq<Seq<u8>>,
)
    requires
        0 <= n <= cur.len(),
        grows(bs, cur, later, cur2, later2),
    ensures
        cur.len() <= cur2.len(),
        cur2.take(n) == cur.take(n),
        grows(bs, cur.skip(n), later, cur2.skip(n), later2),
{
    if later.len() == 0 {
        assert(cur2.take(n) =~= cur.take(n));
        let m = cur.skip(n).len() as int;
        assert(cur2.skip(n).subrange(0, m) =~= cur.skip(n));
    }
}

proof fn lemma_prefix_behind(entry: Entry, a: Seq<Entry>, b: Seq<Entry>)
    requires
        a.is_prefix_of(b),
    ensures
        (seq![entry] + a).is_prefix_of(seq![entry] + b),
{
    let x = seq![entry] + a;
    let y = seq![entry] + b;
    assert(y.subrange(0, x.len() as int) =~= x);
}

/// What is replayed of the beginning is the beginning of what is replayed.
#[verifier::spinoff_prover]
proof fn lemma_replayed_grows(
    it: IterState,
    cur: Seq<u8>,
    later: Seq<Seq<u8>>,
    it2: IterState,
    cur2: Seq<u8>,
    later2: Seq<Seq<u8>>,
)
    requires
        0 < it.block_size,
        it2 == (IterState { rot_names: it2.rot_names, ..it }),
        it.rot_names.len() == later.len(),
        it2.rot_names.len() == later2.len(),
        grows(it.block_size, cur, later, cur2, later2),
    ensures
        replayed(it, cur, later).0.is_prefix_of(replayed(it2, cur2, later2).0),
    decreases later.len(), cur.len(), it.read.entries.len(),
{
    reveal(replayed);
    let bs = it.block_size;
    match it.next_entry() {
        Some(Ok(entry)) => {
            lemma_replayed_grows(it.advanced(), cur, later, it2.advanced(), cur2, later2);
            lemma_prefix_behind(
                entry,
                replayed(it.advanced(), cur, later).0,
                replayed(it2.advanced(), cur2, later2).0,
            );
        },
        Some(Err(e)) => {},
        None => if bs <= cur.len() {
            lemma_grows_skip(bs, bs, cur, later, cur2, later2);
            let ev = ReadSeen::Block(cur.take(bs));
            if !(it.asks(ev) is Fail) {
                lemma_replayed_grows(
                    it.after(ev),
                    cur.skip(bs),
                    later,
                    it2.after(ev),
                    cur2.skip(bs),
                    later2,
                );
            }
        } else if later.len() > 0 {
            let next = it.after(ReadSeen::Eof);
            if !(next.asks(ReadSeen::Opened(later[0].len() as u64)) is Fail) {
                lemma_replayed_grows(
                    next,
                    later[0],
                    later.skip(1),
                    it2.after(ReadSeen::Eof),
                    later2[0],
                    later2.skip(1),
                );
            }
        },
    }
}

/// What is found and replayed of the beginning is the beginning of what is found and replayed.
#[verifier::spinoff_prover]
proof fn lemma_sought_grows(
    s: SeekState,
    bytes: Seq<u8>,
    later: Seq<Seq<u8>>,
    s2: SeekState,
    bytes2: Seq<u8>,
    later2: Seq<Seq<u8>>,
)
    requires
        BLOCK_HEAD_SIZE <= s.iter.block_size,
        s2 == (SeekState {
            size: s2.size,
            iter: IterState { rot_names: s2.iter.rot_names, ..s.iter },
            ..s
        }),
        s.size == bytes.len(),
        s2.size == bytes2.len(),
        s.iter.rot_names.len() == later.len(),
        s2.iter.rot_names.len() == later2.len(),
        grows(s.iter.block_size, bytes, later, bytes2, later2),
    ensures
        sought(s, bytes, later).0.is_prefix_of(sought(s2, bytes2, later2).0),
    decreases s.size - s.offset,
{
    let bs = s.iter.block_size;
    let off = s.offset as int;
    if s.within() {
        lemma_grows_skip(bs, off + bs, bytes, later, bytes2, later2);
        let block = bytes.subrange(off, off + bs);
        assert(bytes2.subrange(off, off + bs) =~= bytes2.take(off + bs).skip(off));
        assert(block =~= bytes.take(off + bs).skip(off));
        let head = bytes.subrange(off, off + BLOCK_HEAD_SIZE);
        assert(head =~= block.take(BLOCK_HEAD_SIZE as int));
        assert(bytes2.subrange(off, off + BLOCK_HEAD_SIZE) =~= block.take(BLOCK_HEAD_SIZE as int));
        if s.starts_in(head) {
            let ev = SeekSeen::Block(block);
            lemma_replayed_grows(
                s.after(ev).iter,
                bytes.skip(off + bs),
                later,
                s2.after(ev).iter,
                bytes2.skip(off + bs),
                later2,
            );
        } else if s.skipped().within() {
            lemma_sought_grows(s.skipped(), bytes, later, s2.skipped(), bytes2, later2);
        }
    }
}

/// What is left of a log is the beginning of what a session leaves of it.
#[verifier::spinoff_prover]
proof fn lemma_continued_grows(bs: int, old: Seq<Rot>, b: Seq<Rot>, j: int, i: int)
    requires
        0 < bs,
        0 <= j <= i < old.len(),
        b.len() > 0,
        old.last().bytes.len() as int % bs == 0,
        b[0].bytes.len() as int % bs == 0,
        old.last().bytes.len() + b[0].bytes.len() <= u64::MAX,
    ensures
        ({
            let a = continued(old, b, j);
            &&& 0 <= i - j < a.len()
            &&& grows(
                bs,
                old[i].bytes,
                rot_bytes(old.skip(i + 1)),
                a[i - j].bytes,
                rot_bytes(a.skip(i - j + 1)),
            )
            &&& old[i].bytes.len() as u64 as int % bs == 0 ==> a[i - j].bytes.len() as u64 as int
                % bs == 0
        }),
    decreases old.len() - i,
{
    let a = continued(old, b, j);
    if i == old.len() - 1 {
        let x = old.last().bytes;
        let y = b[0].bytes;
        assert(a[i - j].bytes == x + y);
        assert((x + y).subrange(0, x.len() as int) =~= x);
        vstd::arithmetic::div_mod::lemma_mod_adds(x.len() as int, y.len() as int, bs);
    } else {
        lemma_continued_grows(bs, old, b, j, i + 1);
        assert(a[i - j] == old[i]);
        let later = rot_bytes(old.skip(i + 1));
        let later2 = rot_bytes(a.skip(i - j + 1));
        assert(later[0] == old[i + 1].bytes);
        assert(later2[0] == a[i + 1 - j].bytes);
        assert(later.skip(1) =~= rot_bytes(old.skip(i + 2)));
        assert(later2.skip(1) =~= rot_bytes(a.skip(i - j + 2)));
    }
}

/// How many rotations start at an LSN or below, without the first ones.
proof fn lemma_leading_skip(prefix: Seq<char>, x: Seq<Seq<char>>, j: int, lsn: u64)
    requires
        0 <= j < x.len(),
        forall|i: int| 0 <= i <= j ==> lsn_of(prefix, #[trigger] x[i]) <= lsn,
    ensures
        leading(prefix, x, lsn) == j + leading(prefix, x.skip(j), lsn),
        leading(prefix, x, lsn) > j,
{
    assert(x.take(j) + x.skip(j) =~= x);
    assert forall|i: int| 0 <= i < j implies lsn_of(prefix, #[trigger] x.take(j)[i]) <= lsn by {
        assert(x.take(j)[i] == x[i]);
    }
    lemma_leading_behind(prefix, x.take(j), x.skip(j), lsn);
    assert(x.skip(j)[0] == x[j]);
    lemma_leading_before(prefix, x.skip(j).skip(1), Seq::empty(), lsn);
}

/// The rotation in which a replay of what was there before starts.
#[verifier::spinoff_prover]
proof fn lemma_older_leading(
    prefix: Seq<char>,
    old: Seq<Rot>,
    base: int,
    a: Seq<Rot>,
    b: Seq<Rot>,
    j: int,
    noted: u64,
    lsn: u64,
)
    requires
        mirrored(prefix, old, base, a, b, j, noted),
        in_order(prefix, old, base),
        noted <= lsn < base,
    ensures
        j < old.len(),
        ({
            let k = leading(prefix, rot_names(old), lsn);
            &&& 0 <= k <= old.len()
            &&& k > 0 ==> k > j
            &&& k > 0 ==> leading(prefix, rot_names(a), lsn) == k - j
        }),
{
    reveal(mirrored);
    reveal(in_order);
    let x = rot_names(old);
    let y = rot_names(b).skip(1);
    lemma_continued_names(old, b, j);
    assert(rot_names(old.skip(j)) =~= x.skip(j));
    if y.len() > 0 {
        assert(y[0] == b[1].name);
    }
    lemma_leading_before(prefix, x.skip(j), y, lsn);
    lemma_leading_before(prefix, x, Seq::empty(), lsn);
    assert(x + Seq::<Seq<char>>::empty() =~= x);
    if j > 0 {
        assert forall|i: int| 0 <= i <= j implies lsn_of(prefix, #[trigger] x[i]) <= lsn by {
            assert(x[i] == old[i].name);
            if i < j {
                assert(lsn_of(prefix, old[i].name) <= lsn_of(prefix, old[j].name));
            }
        }
        lemma_leading_skip(prefix, x, j, lsn);
    } else {
        assert(x.skip(0) =~= x);
    }
}

/// What is replayed from a rotation that is still there is the beginning of what is replayed after
/// the last rotation has grown and others have followed.
#[verifier::spinoff_prover]
proof fn lemma_continued_replay(
    o: ByteOrder,
    bs: u32,
    prefix: Seq<char>,
    old: Seq<Rot>,
    b: Seq<Rot>,
    j: int,
    lsn: u64,
)
    requires
        BLOCK_HEAD_SIZE <= bs,
        b.len() > 0,
        0 <= j < leading(prefix, rot_names(old), lsn) <= old.len(),
        leading(prefix, rot_names(continued(old, b, j)), lsn) == leading(
            prefix,
            rot_names(old),
            lsn,
        ) - j,
        old.last().bytes.len() as int % bs as int == 0,
        b[0].bytes.len() as int % bs as int == 0,
        old.last().bytes.len() + b[0].bytes.len() <= u64::MAX,
        forall|i: int| j <= i < old.len() ==> (#[trigger] old[i]).bytes.len() <= u64::MAX,
    ensures
        replay(o, bs, prefix, old, lsn).0.is_prefix_of(
            replay(o, bs, prefix, continued(old, b, j), lsn).0,
        ),
{
    let a = continued(old, b, j);
    let k = leading(prefix, rot_names(old), lsn);
    let i = k - 1;
    lemma_continued_grows(bs as int, old, b, j, i);
    let x = old[i].bytes;
    let y = a[i - j].bytes;
    if i < old.len() - 1 {
        assert(a[i - j] == old[i]);
    } else {
        assert(y == old.last().bytes + b[0].bytes);
    }
    let later = rot_bytes(old.skip(k));
    let later2 = rot_bytes(a.skip(k - j));
    let s = fresh_seek(o, bs, lsn, rot_names(old).skip(k));
    let s2 = fresh_seek(o, bs, lsn, rot_names(a).skip(k - j));
    lemma_sought_grows(
        s.after(SeekSeen::Opened(x.len() as u64)),
        x,
        later,
        s2.after(SeekSeen::Opened(y.len() as u64)),
        y,
        later2,
    );
}

/// What was replayed of a log from an LSN that is still needed stays the beginning of what is
/// replayed of it.
#[verifier::spinoff_prover]
proof fn lemma_replay_grows(
    o: ByteOrder,
    bs: u32,
    prefix: Seq<char>,
    old: Seq<Rot>,
    base: int,
    a: Seq<Rot>,
    b: Seq<Rot>,
    j: int,
    noted: u64,
    lsn: u64,
)
    requires
        BLOCK_HEAD_SIZE <= bs,
        mirrored(prefix, old, base, a, b, j, noted),
        in_order(prefix, old, base),
        noted <= lsn < base,
        old.last().bytes.len() as int % bs as int == 0,
        b[0].bytes.len() as int % bs as int == 0,
        forall|i: int| 0 <= i < a.len() ==> (#[trigger] a[i]).bytes.len() <= u64::MAX,
    ensures
        replay(o, bs, prefix, old, lsn).0.is_prefix_of(replay(o, bs, prefix, a, lsn).0),
{
    reveal(mirrored);
    lemma_older_leading(prefix, old, base, a, b, j, noted, lsn);
    assert(a[old.len() - 1 - j].bytes == old.last().bytes + b[0].bytes);
    assert forall|i: int| j <= i < old.len() implies (#[trigger] old[i]).bytes.len()
        <= u64::MAX by {
        if i < old.len() - 1 {
            assert(a[i - j] == old[i]);
        }
    }
    if leading(prefix, rot_names(old), lsn) > 0 {
        lemma_continued_replay(o, bs, prefix, old, b, j, lsn);
    }
}

// ---------------------------------------------------------------------------------------------
// Opening after a session
// ---------------------------------------------------------------------------------------------

/// What a session leads to, and what it would have led to if nothing had been there before.
struct Trace {
    v: Writing,
    g: Layout,
    /// How many of the rotations that were there before have been released.
    j: int,
}

/// Whether a session leads from `w` to `w2`.
spec fn leads_to(w: Writing, all: Seq<Entry>, w2: Writing, e: Trace) -> bool {
    let base = w.s.max_flushed_lsn + 1;
    &&& w2 == (Writing { rots: w2.rots, ..e.v })
    &&& w2.s.prefix == w.s.prefix
    &&& w2.s.order == w.s.order
    &&& w2.s.block_size == w.s.block_size
    &&& w.now <= w2.now
    &&& inv(e.v, e.g, base, all)
    &&& mirrored(w.s.prefix, w.rots, base, w2.rots, e.v.rots, e.j, mani_min(w2))
    &&& mani_min(w) <= mani_min(w2)
}

/// The steps that the flushing thread takes are a session.
#[verifier::spinoff_prover]
proof fn lemma_session(w: Writing, steps: Seq<Step>) -> (e: Trace)
    requires
        takes_up(w),
        can_run(w, steps),
        consecutive(accepted(steps), w.s.max_flushed_lsn + 1),
        w.s.max_flushed_lsn < u64::MAX,
    ensures
        leads_to(w, accepted(steps), run(w, steps), e),
        ({
            let lsn = published(w, steps, w.s.max_flushed_lsn);
            &&& w.s.max_flushed_lsn <= lsn < durable(e.v, e.g)
            &&& lsn <= run(w, steps).s.max_flushed_lsn
        }),
        low(w) <= low(run(w, steps)),
{
    let max_lsn = w.s.max_flushed_lsn;
    let first = max_lsn + 1;
    let none = Seq::<Entry>::empty();
    let v = anew(w);
    let g = lemma_anew(w);
    assert(none + accepted(steps) =~= accepted(steps));
    let j = lemma_mirrored_run(w.rots, w, v, g, first, none, 0, steps, max_lsn);
    lemma_inv(v, g, first, none);
    lemma_on_disk(v, g);
    let g2 = lemma_run_durable(v, g, first, none, steps, max_lsn);
    lemma_published_bounds(v, g, first, none, steps, max_lsn);
    lemma_low_run(w, v, g, first, none, steps);
    Trace { v: run(v, steps), g: g2, j }
}

/// The rotations of a log that is being written hold whole blocks, and their names are in order.
#[verifier::spinoff_prover]
proof fn lemma_rots_in_order(v: Writing, g: Layout)
    requires
        fits(v, g),
        0 < v.s.block_size,
    ensures
        in_order(v.s.prefix, v.rots, base_lsn(v)),
        v.rots.len() > 0,
        v.rots[0].bytes.len() as int % v.s.block_size == 0,
{
    let s = v.s;
    let d = on_disk(g);
    reveal(rot_ends);
    lemma_disk_holds(v, g);
    let parts = g.parts.push(d.entries);
    lemma_ascending(s.order, s.block_size, s.prefix, v.rots, parts, d.mid);
    let rot = v.rots[0];
    let lsn = lsn_of(s.prefix, rot.name) as int;
    let tail = tail_of(v.rots.len() as int, d.mid);
    assert(rot_ends(s.order, s.block_size, lsn, rot.bytes, parts[0], tail));
    let blocks = choose|b: Seq<Seq<Record>>|
        #[trigger] blocks_hold(s.order, s.block_size, rot.bytes, b) && blocks_end(
            lsn,
            b,
            parts[0],
            tail,
        );
    lemma_blocks_aligned(s.order, s.block_size, rot.bytes, blocks);
}

/// What is found out when a log that is being written is opened, and what its last headers say.
#[verifier::spinoff_prover]
proof fn lemma_found_anew(
    v: Writing,
    g: Layout,
    first: int,
    total: Seq<Entry>,
    begun: bool,
    mani_size: u64,
)
    requires
        inv(v, g, first, total),
        1 <= durable(v, g),
        mani_size >= MANI_ENTRY_SIZE,
        v.rots.last().bytes.len() <= u64::MAX,
    ensures
        found(v, begun, mani_size) == RestoreWants::Done(range_of(v).0, range_of(v).1),
        range_of(v).1 + 1 == base_lsn(v) + begun_entries(on_disk(g)),
        not_ahead(range_of(v).0, v.now),
        readable(v),
{
    lemma_inv(v, g, first, total);
    let o = v.s.order;
    let bs = v.s.block_size;
    let bytes = v.rots.last().bytes;
    lemma_on_disk(v, g);
    lemma_blocks_aligned(o, bs, bytes, g.disk);
    if bytes.len() > 0 {
        lemma_last_block_holds(o, bs, bytes, g.disk);
    }
    lemma_found(v, begun, mani_size);
    lemma_reopened(v, g, first, total, begun, mani_size);
    lemma_headers_of_blocks(o, bs, bytes, g.disk, nothing_read(), base_lsn(v), range_of(v).1);
}

/// The last rotation after a session: a new one, or the last of those that were there before, with
/// what was added to it.
proof fn lemma_last_after(
    prefix: Seq<char>,
    old: Seq<Rot>,
    base: int,
    a: Seq<Rot>,
    b: Seq<Rot>,
    j: int,
    noted: u64,
)
    requires
        mirrored(prefix, old, base, a, b, j, noted),
    ensures
        a.len() > 0,
        ({
            ||| a.last() == b.last()
            ||| {
                &&& a.last() == Rot {
                    name: old.last().name,
                    bytes: old.last().bytes + b.last().bytes,
                }
                &&& lsn_of(prefix, b.last().name) == base
            }
        }),
{
    reveal(mirrored);
    if j < old.len() && b.len() == 1 {
        assert(b.skip(1) =~= Seq::empty());
        assert(a.last() == a[old.len() - 1 - j]);
    }
}

/// Whether what is read when a log is opened can be read.
spec fn readable(w: Writing) -> bool {
    let bytes = w.rots.last().bytes;
    &&& w.mani.len() > 0 ==> decode_mani(w.s.order, w.mani) is Ok && mani_min(w) <= w.now
    &&& headers_up_to(w.s.order, w.s.block_size, bytes, range_of(w).1)
    &&& bytes.len() > 0 ==> decode_header(w.s.order, last_block(bytes, w.s.block_size)) is Ok
    &&& bytes.len() == 0 ==> lsn_of(w.s.prefix, w.rots.last().name) == range_of(w).1 + 1
}

/// What is found when blocks were added to the last rotation: what is found in these blocks. If none
/// were added, it is what was found before.
#[verifier::spinoff_prover]
proof fn lemma_found_in_added(w: Writing, v: Writing, w2: Writing)
    requires
        takes_up(w),
        w.now <= w2.now,
        w2 == (Writing { rots: w2.rots, ..v }),
        w2.s.order == w.s.order,
        w2.s.block_size == w.s.block_size,
        w2.s.prefix == w.s.prefix,
        w2.rots.last() == (Rot {
            name: w.rots.last().name,
            bytes: w.rots.last().bytes + v.rots.last().bytes,
        }),
        lsn_of(v.s.prefix, v.rots.last().name) == w.s.max_flushed_lsn + 1,
        readable(v),
        not_ahead(range_of(v).0, v.now),
        range_of(v).1 >= w.s.max_flushed_lsn,
    ensures
        range_of(w2).1 == range_of(v).1,
        range_of(w2).0 >= range_of(v).0,
        not_ahead(range_of(w2).0, w2.now),
        readable(w2),
{
    let o = w.s.order;
    let bs = w.s.block_size;
    let x = w.rots.last().bytes;
    let y = v.rots.last().bytes;
    let z = w2.rots.last().bytes;
    lemma_headers_concat(o, bs, x, y, w.s.max_flushed_lsn, range_of(v).1);
    lemma_headers_aligned(o, bs, y, range_of(v).1);
    if y.len() > 0 {
        assert(last_block(z, bs) =~= last_block(y, bs));
    } else {
        assert(z =~= x);
    }
}

/// What is found out when a log is opened after a session.
#[verifier::spinoff_prover]
proof fn lemma_found_after(
    w: Writing,
    all: Seq<Entry>,
    w2: Writing,
    e: Trace,
    begun: bool,
    mani_size: u64,
)
    requires
        takes_up(w),
        leads_to(w, all, w2, e),
        1 <= durable(e.v, e.g),
        mani_size >= MANI_ENTRY_SIZE,
        w2.rots.last().bytes.len() <= u64::MAX,
    ensures
        found(e.v, begun, mani_size) is Done,
        found(w2, begun, mani_size) == RestoreWants::Done(range_of(w2).0, range_of(w2).1),
        range_of(w2).1 == found(e.v, begun, mani_size)->Done_1,
        range_of(w2).0 >= found(e.v, begun, mani_size)->Done_0,
        not_ahead(range_of(w2).0, w2.now),
        range_of(w2).1 + 1 >= base_lsn(e.v) >= w.s.max_flushed_lsn + 1,
        readable(w2),
{
    let v = e.v;
    let base = w.s.max_flushed_lsn + 1;
    lemma_last_after(w.s.prefix, w.rots, base, w2.rots, v.rots, e.j, mani_min(w2));
    lemma_found_anew(v, e.g, base, all, begun, mani_size);
    lemma_base_lsn(v, e.g, base, all);
    assert(readable(v));
    if w2.rots.last() == v.rots.last() {
        assert(range_of(w2) == range_of(v));
    } else {
        lemma_found_in_added(w, v, w2);
    }
    lemma_headers_aligned(w2.s.order, w2.s.block_size, w2.rots.last().bytes, range_of(w2).1);
    lemma_found(w2, begun, mani_size);
}

/// The names of rotations that continue others.
proof fn lemma_continued_name(old: Seq<Rot>, b: Seq<Rot>, j: int, i: int)
    requires
        0 <= j < old.len(),
        b.len() > 0,
        0 <= i < old.len() - j - 1 + b.len(),
    ensures
        continued(old, b, j)[i].name == (if i < old.len() - j {
            old[j + i].name
        } else {
            b[i - (old.len() - j) + 1].name
        }),
{
}

/// The names of two rotations are in order.
#[verifier::spinoff_prover]
proof fn lemma_continued_pair(
    prefix: Seq<char>,
    old: Seq<Rot>,
    base: int,
    b: Seq<Rot>,
    j: int,
    next_lsn: int,
    i: int,
    k: int,
)
    requires
        0 <= j < old.len(),
        b.len() > 0,
        0 <= i < k < old.len() - j - 1 + b.len(),
        in_order(prefix, old, base),
        in_order(prefix, b, next_lsn),
        lsn_of(prefix, b[0].name) == base,
        data_rot_info(prefix, b[0].name).unwrap().0 == data_rot_info(
            prefix,
            old.last().name,
        ).unwrap().0,
    ensures
        ({
            let a = continued(old, b, j);
            &&& data_rot_info(prefix, a[i].name).unwrap().0 < data_rot_info(
                prefix,
                a[k].name,
            ).unwrap().0
            &&& lsn_of(prefix, a[i].name) <= lsn_of(prefix, a[k].name)
        }),
{
    reveal(in_order);
    let m = old.len() - j;
    lemma_continued_name(old, b, j, i);
    lemma_continued_name(old, b, j, k);
    if i < m <= k {
        let x = old[j + i];
        let y = old[old.len() - 1];
        let z = b[k - m + 1];
        assert(lsn_of(prefix, x.name) <= base);
        assert(lsn_of(prefix, b[0].name) <= lsn_of(prefix, z.name));
        assert(j + i < old.len() - 1 ==> data_rot_info(prefix, x.name).unwrap().0 < data_rot_info(
            prefix,
            y.name,
        ).unwrap().0);
    }
}

/// The names of a log's rotations are in order after a session.
#[verifier::spinoff_prover]
proof fn lemma_order_after(
    prefix: Seq<char>,
    old: Seq<Rot>,
    base: int,
    a: Seq<Rot>,
    b: Seq<Rot>,
    j: int,
    noted: u64,
    next_lsn: int,
)
    requires
        mirrored(prefix, old, base, a, b, j, noted),
        in_order(prefix, old, base),
        in_order(prefix, b, next_lsn),
        base <= next_lsn,
    ensures
        in_order(prefix, a, next_lsn),
{
    reveal(mirrored);
    reveal(in_order);
    if j < old.len() {
        assert forall|i: int| 0 <= i < a.len() implies {
            &&& is_generated(prefix, (#[trigger] a[i]).name)
            &&& lsn_of(prefix, a[i].name) <= next_lsn
        } by {
            lemma_continued_name(old, b, j, i);
        }
        assert forall|i: int, k: int|
            #![trigger a[i], a[k]]
            0 <= i < k < a.len() implies {
            &&& data_rot_info(prefix, a[i].name).unwrap().0 < data_rot_info(
                prefix,
                a[k].name,
            ).unwrap().0
            &&& lsn_of(prefix, a[i].name) <= lsn_of(prefix, a[k].name)
        } by {
            lemma_continued_pair(prefix, old, base, b, j, next_lsn, i, k);
        }
    }
}

// ---------------------------------------------------------------------------------------------
// Laws
// ---------------------------------------------------------------------------------------------

/// What a session added is replayed as if nothing had been there before.
proof fn lemma_replay_after(w: Writing, all: Seq<Entry>, w2: Writing, e: Trace, lsn: u64)
    requires
        takes_up(w),
        leads_to(w, all, w2, e),
        w.s.max_flushed_lsn < lsn,
        forall|i: int| 0 <= i < w2.rots.len() ==> (#[trigger] w2.rots[i]).bytes.len() <= u64::MAX,
    ensures
        replay_of(w2, lsn) == replay_of(e.v, lsn),
{
    lemma_inv(e.v, e.g, w.s.max_flushed_lsn + 1, all);
    lemma_rots_in_order(e.v, e.g);
    lemma_replay_mirrored(
        w.s.order,
        w.s.block_size as u32,
        w.s.prefix,
        w.rots,
        w.s.max_flushed_lsn + 1,
        w2.rots,
        e.v.rots,
        e.j,
        mani_min(w2),
        lsn,
    );
}

/// Rotations without what was there before are not larger.
proof fn lemma_sizes_anew(w: Writing, all: Seq<Entry>, w2: Writing, e: Trace)
    requires
        leads_to(w, all, w2, e),
        forall|i: int| 0 <= i < w2.rots.len() ==> (#[trigger] w2.rots[i]).bytes.len() <= u64::MAX,
    ensures
        w2.rots.len() > 0,
        w2.rots.last().bytes.len() <= u64::MAX,
        forall|i: int| 0 <= i < e.v.rots.len() ==> (#[trigger] e.v.rots[i]).bytes.len() <= u64::MAX,
{
    reveal(mirrored);
    let a = w2.rots;
    let b = e.v.rots;
    let m = w.rots.len() - e.j;
    assert(a.len() > 0 && a.last() == a[a.len() - 1]);
    assert forall|i: int| 0 <= i < b.len() implies (#[trigger] b[i]).bytes.len() <= u64::MAX by {
        if m > 0 {
            if i == 0 {
                assert(a[m - 1].bytes == w.rots.last().bytes + b[0].bytes);
            } else {
                assert(a[m - 1 + i] == b[i]);
            }
        }
    }
}

/// A log that is taken up keeps what is published from then on: wherever the flushing thread stops,
/// also in the middle of an entry, opening the log finds an LSN that is not below the published one as
/// the largest one and an LSN that is not above what is needed as the smallest one. A replay from the
/// LSN of any entry that was taken and published since, between the two, starts with exactly the
/// published entries from that one on. It does not matter what the log held before, and whether it
/// broke off in the middle of an entry.
///
/// The largest LSN that is found also counts an entry that was only begun.
pub proof fn law_taken_up_log_keeps_published_entries(
    w: Writing,
    steps: Seq<Step>,
    begun: bool,
    mani_size: u64,
)
    requires
        takes_up(w),
        can_run(w, steps),
        consecutive(accepted(steps), w.s.max_flushed_lsn + 1),
        mani_size >= MANI_ENTRY_SIZE,
        w.s.max_flushed_lsn + 1 + accepted(steps).len() <= u64::MAX,
        forall|i: int|
            0 <= i < run(w, steps).rots.len() ==> (#[trigger] run(w, steps).rots[i]).bytes.len()
                <= u64::MAX,
    ensures
        gives_back_up_to(
            run(w, steps),
            w.s.max_flushed_lsn + 1,
            accepted(steps),
            published(w, steps, w.s.max_flushed_lsn),
            begun,
            mani_size,
        ),
{
    let all = accepted(steps);
    let first = w.s.max_flushed_lsn + 1;
    let w2 = run(w, steps);
    let lsn = published(w, steps, w.s.max_flushed_lsn);
    let e = lemma_session(w, steps);
    lemma_sizes_anew(w, all, w2, e);
    lemma_gives_back_up_to(e.v, e.g, first, all, lsn, begun, mani_size);
    lemma_found_after(w, all, w2, e, begun, mani_size);
    let k = lsn + 1 - first;
    assert forall|n: int|
        0 <= n < k && (#[trigger] all[n]).lsn >= range_of(w2).0 implies starts_with(
        w2,
        all,
        n,
        k,
    ) by {
        lemma_replay_after(w, all, w2, e, all[n].lsn);
        assert(starts_with(e.v, all, n, k));
    }
}

/// A log that is taken up gives back what is written from then on: whenever the flushing thread is at
/// rest, opening the log finds the LSN of the last entry as the largest one and an LSN that is not
/// above what is needed as the smallest one, and a replay from the LSN of any entry that was taken
/// since, between the two, gives exactly the entries from that one on, and no error. It does not
/// matter what the log held before, and whether it broke off in the middle of an entry.
pub proof fn law_taken_up_log_is_replayed(
    w: Writing,
    steps: Seq<Step>,
    begun: bool,
    mani_size: u64,
)
    requires
        takes_up(w),
        can_run(w, steps),
        consecutive(accepted(steps), w.s.max_flushed_lsn + 1),
        at_rest(run(w, steps)),
        mani_size >= MANI_ENTRY_SIZE,
        w.s.max_flushed_lsn + 1 + accepted(steps).len() <= u64::MAX,
        forall|i: int|
            0 <= i < run(w, steps).rots.len() ==> (#[trigger] run(w, steps).rots[i]).bytes.len()
                <= u64::MAX,
    ensures
        gives_back(
            run(w, steps),
            w.s.max_flushed_lsn + 1,
            accepted(steps),
            begun,
            mani_size,
        ),
{
    let all = accepted(steps);
    let first = w.s.max_flushed_lsn + 1;
    let w2 = run(w, steps);
    let e = lemma_session(w, steps);
    lemma_sizes_anew(w, all, w2, e);
    lemma_gives_back(e.v, e.g, first, all, begun, mani_size);
    lemma_found_after(w, all, w2, e, begun, mani_size);
    assert forall|n: int|
        0 <= n < all.len() && (#[trigger] all[n]).lsn >= range_of(w2).0 implies replay_of(
        w2,
        all[n].lsn,
    ) == (all.skip(n), None::<ErrorView>) by {
        lemma_replay_after(w, all, w2, e, all[n].lsn);
        assert(replay_of(e.v, all[n].lsn) == (all.skip(n), None::<ErrorView>));
    }
}

/// What was there before is still the beginning of what is replayed.
proof fn lemma_older_after(w: Writing, all: Seq<Entry>, w2: Writing, e: Trace, start_lsn: u64)
    requires
        takes_up(w),
        leads_to(w, all, w2, e),
        mani_min(w2) <= start_lsn <= w.s.max_flushed_lsn,
        forall|i: int| 0 <= i < w2.rots.len() ==> (#[trigger] w2.rots[i]).bytes.len() <= u64::MAX,
    ensures
        replay_of(w, start_lsn).0.is_prefix_of(replay_of(w2, start_lsn).0),
{
    lemma_inv(e.v, e.g, w.s.max_flushed_lsn + 1, all);
    lemma_rots_in_order(e.v, e.g);
    lemma_headers_aligned(
        w.s.order,
        w.s.block_size,
        w.rots.last().bytes,
        w.s.max_flushed_lsn,
    );
    lemma_replay_grows(
        w.s.order,
        w.s.block_size as u32,
        w.s.prefix,
        w.rots,
        w.s.max_flushed_lsn + 1,
        w2.rots,
        e.v.rots,
        e.j,
        mani_min(w2),
        start_lsn,
    );
}

/// A log that is taken up keeps what it held before: whatever a replay from an LSN gave of it, a
/// replay from there starts with just that, whatever the flushing thread has done since, unless
/// opening the log finds that the LSN is no longer needed. If the log broke off in the middle of an
/// entry, such a replay ends there, though what was written since is persisted: it is given by
/// replays that start behind the break.
pub proof fn law_taken_up_log_keeps_older_entries(
    w: Writing,
    steps: Seq<Step>,
    begun: bool,
    mani_size: u64,
    start_lsn: u64,
)
    requires
        takes_up(w),
        can_run(w, steps),
        consecutive(accepted(steps), w.s.max_flushed_lsn + 1),
        w.s.max_flushed_lsn < u64::MAX,
        mani_size >= MANI_ENTRY_SIZE,
        forall|i: int|
            0 <= i < run(w, steps).rots.len() ==> (#[trigger] run(w, steps).rots[i]).bytes.len()
                <= u64::MAX,
    ensures
        found(run(w, steps), begun, mani_size) matches RestoreWants::Done(min, _) && (min
            <= start_lsn <= w.s.max_flushed_lsn ==> replay_of(w, start_lsn).0.is_prefix_of(
            replay_of(run(w, steps), start_lsn).0,
        )),
{
    let w2 = run(w, steps);
    let e = lemma_session(w, steps);
    lemma_sizes_anew(w, accepted(steps), w2, e);
    lemma_found_after(w, accepted(steps), w2, e, begun, mani_size);
    if range_of(w2).0 <= start_lsn <= w.s.max_flushed_lsn {
        lemma_older_after(w, accepted(steps), w2, e, start_lsn);
    }
}

/// A log can be taken up again wherever the flushing thread stopped, also in the middle of an entry:
/// with what opening it finds out, the next session starts from a log that can be taken up. So what
/// is said of one session holds of any number of them.
pub proof fn law_stopped_log_is_taken_up(
    w: Writing,
    steps: Seq<Step>,
    begun: bool,
    mani_size: u64,
    s: FlushState,
)
    requires
        takes_up(w),
        can_run(w, steps),
        consecutive(accepted(steps), w.s.max_flushed_lsn + 1),
        mani_size >= MANI_ENTRY_SIZE,
        w.s.max_flushed_lsn < u64::MAX,
        run(w, steps).rots.last().bytes.len() <= u64::MAX,
        opens(run(w, steps), begun, mani_size, s),
    ensures
        takes_up(opened(run(w, steps), begun, mani_size, s)),
{
    let w2 = run(w, steps);
    let e = lemma_session(w, steps);
    let base = w.s.max_flushed_lsn + 1;
    lemma_found_after(w, accepted(steps), w2, e, begun, mani_size);
    lemma_inv(e.v, e.g, base, accepted(steps));
    lemma_rots_in_order(e.v, e.g);
    let next = base_lsn(e.v);
    lemma_order_after(w.s.prefix, w.rots, base, w2.rots, e.v.rots, e.j, mani_min(w2), next);
    lemma_in_order_below(w.s.prefix, w2.rots, next, s.max_flushed_lsn + 1);
    lemma_last_after(w.s.prefix, w.rots, base, w2.rots, e.v.rots, e.j, mani_min(w2));
}

/// Opening a log for writing releases the rotations that hold only entries below the smallest needed
/// LSN. The log can still be taken up then, and replays from an LSN that is needed give the same.
pub proof fn law_released_log_is_taken_up(w: Writing, start_lsn: u64)
    requires
        takes_up(w),
        w.now <= start_lsn,
    ensures
        takes_up(released(w)),
        replay_of(released(w), start_lsn) == replay_of(w, start_lsn),
{
    let k = unused_rots(w.s.prefix, rot_names(w.rots), w.now);
    lemma_unused_few(w.s.prefix, rot_names(w.rots), w.now);
    lemma_in_order_skip(w.s.prefix, w.rots, w.s.max_flushed_lsn + 1, k);
    lemma_replay_released(w, start_lsn);
    assert(w.rots.skip(k).last() == w.rots.last());
}

proof fn lemma_in_order_skip(prefix: Seq<char>, rots: Seq<Rot>, next_lsn: int, k: int)
    requires
        in_order(prefix, rots, next_lsn),
        0 <= k <= rots.len(),
    ensures
        in_order(prefix, rots.skip(k), next_lsn),
{
    reveal(in_order);
    let r = rots.skip(k);
    assert forall|i: int| 0 <= i < r.len() implies #[trigger] r[i] == rots[k + i] by {}
}

/// Rotations that are not needed do not matter for a replay from an LSN that is.
#[verifier::spinoff_prover]
proof fn lemma_replay_released(w: Writing, start_lsn: u64)
    requires
        in_order(w.s.prefix, w.rots, w.s.max_flushed_lsn + 1),
        w.rots.len() > 0,
        w.now <= start_lsn,
    ensures
        replay_of(released(w), start_lsn) == replay_of(w, start_lsn),
{
    let prefix = w.s.prefix;
    let x = rot_names(w.rots);
    let k = unused_rots(prefix, x, w.now);
    let rots = w.rots.skip(k);
    lemma_unused_few(prefix, x, w.now);
    assert(rot_names(rots) =~= x.skip(k));
    if k > 0 {
        lemma_unused_lsn(prefix, x, w.now);
        assert forall|i: int| 0 <= i <= k implies lsn_of(prefix, #[trigger] x[i]) <= start_lsn by {
            reveal(in_order);
            assert(x[i] == w.rots[i].name && x[k] == w.rots[k].name);
        }
        lemma_leading_skip(prefix, x, k, start_lsn);
        lemma_leading_before(prefix, x.skip(k), Seq::empty(), start_lsn);
        assert(x.skip(k) + Seq::<Seq<char>>::empty() =~= x.skip(k));
        let m = leading(prefix, x.skip(k), start_lsn);
        assert(x.skip(k).skip(m) =~= x.skip(k + m));
        assert(rots.skip(m) =~= w.rots.skip(k + m));
    } else {
        assert(rots =~= w.rots);
    }
}

/// The first rotation that is not released starts at the smallest needed LSN or below.
proof fn lemma_unused_lsn(prefix: Seq<char>, names: Seq<Seq<char>>, min_lsn: u64)
    requires
        unused_rots(prefix, names, min_lsn) > 0,
    ensures
        lsn_of(prefix, names[unused_rots(prefix, names, min_lsn)]) <= min_lsn,
    decreases names.len(),
{
    let rest = names.skip(1);
    let k = unused_rots(prefix, rest, min_lsn);
    lemma_unused_few(prefix, rest, min_lsn);
    if k > 0 {
        lemma_unused_lsn(prefix, rest, min_lsn);
        assert(rest[k] == names[k + 1]);
    }
}

/// A log that was stopped at any time, also in the middle of an entry, and is opened again is written
/// on. `more` are the steps after it was opened again, and wherever they stop in turn, opening the
/// log once more finds an LSN that is not below what was published, and an LSN that is not above what
/// is needed. A replay from a new entry that was published starts with exactly the published ones from
/// there on, and a replay from an entry that was published before the log was opened again, and is
/// still needed, starts with exactly those that were published before.
///
/// The largest LSN that is found when the log is opened again counts an entry that was only begun, so
/// the new entries follow behind it. A replay from before such an entry ends there.
pub proof fn law_stopped_log_is_written_on(
    w: Writing,
    parts: Seq<Seq<Entry>>,
    steps: Seq<Step>,
    begun: bool,
    mani_size: u64,
    s: FlushState,
    more: Seq<Step>,
    begun2: bool,
    mani_size2: u64,
    n: int,
)
    requires
        goes_on(w, parts),
        can_run(w, steps),
        consecutive(flat(parts) + accepted(steps), first_lsn(w)),
        first_lsn(w) + (flat(parts) + accepted(steps)).len() <= u64::MAX,
        mani_size >= MANI_ENTRY_SIZE,
        mani_size2 >= MANI_ENTRY_SIZE,
        forall|i: int|
            0 <= i < run(w, steps).rots.len() ==> (#[trigger] run(w, steps).rots[i]).bytes.len()
                <= u64::MAX,
        opens(run(w, steps), begun, mani_size, s),
        can_run(opened(run(w, steps), begun, mani_size, s), more),
        consecutive(accepted(more), s.max_flushed_lsn + 1),
        s.max_flushed_lsn + 1 + accepted(more).len() <= u64::MAX,
        ({
            let rots = run(opened(run(w, steps), begun, mani_size, s), more).rots;
            forall|i: int| 0 <= i < rots.len() ==> (#[trigger] rots[i]).bytes.len() <= u64::MAX
        }),
    ensures
        ({
            let all = flat(parts) + accepted(steps);
            let k = published(w, steps, w.s.max_flushed_lsn) + 1 - first_lsn(w);
            let w3 = opened(run(w, steps), begun, mani_size, s);
            let w4 = run(w3, more);
            &&& gives_back_up_to(
                w4,
                s.max_flushed_lsn + 1,
                accepted(more),
                published(w3, more, s.max_flushed_lsn),
                begun2,
                mani_size2,
            )
            &&& 0 <= k <= all.len()
            &&& found(w4, begun2, mani_size2) matches RestoreWants::Done(min, _) && w3.now <= min
                && (0 <= n < k && all[n].lsn >= min ==> all.subrange(n, k).is_prefix_of(
                replay_of(w4, all[n].lsn).0,
            ))
        }),
{
    let all = flat(parts) + accepted(steps);
    let lsn = published(w, steps, w.s.max_flushed_lsn);
    let k = lsn + 1 - first_lsn(w);
    let w2 = run(w, steps);
    let w3 = opened(w2, begun, mani_size, s);
    lemma_opened_after_stop(w, parts, steps, begun, mani_size, s);
    law_taken_up_log_keeps_published_entries(w3, more, begun2, mani_size2);
    let min = found(run(w3, more), begun2, mani_size2)->Done_0;
    lemma_smallest_ascends(w3, more, begun2, mani_size2);
    if 0 <= n < k && all[n].lsn >= min {
        assert(all[n].lsn == first_lsn(w) + n);
        assert(starts_with(w2, all, n, k));
        lemma_older_kept(w3, more, begun2, mani_size2, all, n, k);
    }
}

/// The smallest LSN that is found never goes down from one opening to the next.
#[verifier::spinoff_prover]
proof fn lemma_smallest_ascends(w: Writing, steps: Seq<Step>, begun: bool, mani_size: u64)
    requires
        takes_up(w),
        can_run(w, steps),
        consecutive(accepted(steps), w.s.max_flushed_lsn + 1),
        w.s.max_flushed_lsn < u64::MAX,
        mani_size >= MANI_ENTRY_SIZE,
        w.now == range_of(w).0,
        forall|i: int|
            0 <= i < run(w, steps).rots.len() ==> (#[trigger] run(w, steps).rots[i]).bytes.len()
                <= u64::MAX,
    ensures
        found(run(w, steps), begun, mani_size) matches RestoreWants::Done(min, _) && w.now <= min,
{
    let w2 = run(w, steps);
    let e = lemma_session(w, steps);
    lemma_sizes_anew(w, accepted(steps), w2, e);
    lemma_found_after(w, accepted(steps), w2, e, begun, mani_size);
    assert(range_of(w).1 == w.s.max_flushed_lsn);
}

/// Opening a log that was stopped.
proof fn lemma_opened_after_stop(
    w: Writing,
    parts: Seq<Seq<Entry>>,
    steps: Seq<Step>,
    begun: bool,
    mani_size: u64,
    s: FlushState,
)
    requires
        goes_on(w, parts),
        can_run(w, steps),
        consecutive(flat(parts) + accepted(steps), first_lsn(w)),
        first_lsn(w) + (flat(parts) + accepted(steps)).len() <= u64::MAX,
        mani_size >= MANI_ENTRY_SIZE,
        forall|i: int|
            0 <= i < run(w, steps).rots.len() ==> (#[trigger] run(w, steps).rots[i]).bytes.len()
                <= u64::MAX,
        opens(run(w, steps), begun, mani_size, s),
    ensures
        takes_up(opened(run(w, steps), begun, mani_size, s)),
        opened(run(w, steps), begun, mani_size, s).now == range_of(run(w, steps)).0,
        gives_back_up_to(
            run(w, steps),
            first_lsn(w),
            flat(parts) + accepted(steps),
            published(w, steps, w.s.max_flushed_lsn),
            begun,
            mani_size,
        ),
{
    law_complete_log_is_taken_up(w, parts);
    lemma_since_complete(w, parts, steps);
    let e = lemma_session(w, steps);
    lemma_sizes_anew(w, accepted(steps), run(w, steps), e);
    lemma_found_after(w, accepted(steps), run(w, steps), e, begun, mani_size);
    law_stopped_log_is_taken_up(w, steps, begun, mani_size, s);
    law_stopped_log_keeps_published_entries(w, parts, steps, begun, mani_size);
}

/// What was published before a session is still the beginning of what is replayed after it.
proof fn lemma_older_kept(
    w: Writing,
    steps: Seq<Step>,
    begun: bool,
    mani_size: u64,
    all: Seq<Entry>,
    n: int,
    k: int,
)
    requires
        takes_up(w),
        can_run(w, steps),
        consecutive(accepted(steps), w.s.max_flushed_lsn + 1),
        w.s.max_flushed_lsn < u64::MAX,
        0 <= n < k,
        mani_size >= MANI_ENTRY_SIZE,
        found(run(w, steps), begun, mani_size) matches RestoreWants::Done(min, _) && min
            <= all[n].lsn <= w.s.max_flushed_lsn,
        starts_with(w, all, n, k),
        forall|i: int|
            0 <= i < run(w, steps).rots.len() ==> (#[trigger] run(w, steps).rots[i]).bytes.len()
                <= u64::MAX,
    ensures
        all.subrange(n, k).is_prefix_of(replay_of(run(w, steps), all[n].lsn).0),
{
    let lsn = all[n].lsn;
    law_taken_up_log_keeps_older_entries(w, steps, begun, mani_size, lsn);
    lemma_prefix_on(all, n, k, replay_of(w, lsn).0, replay_of(run(w, steps), lsn).0);
}

proof fn lemma_prefix_on(all: Seq<Entry>, n: int, k: int, x: Seq<Entry>, y: Seq<Entry>)
    requires
        0 <= n <= k,
        k - n <= x.len() <= all.len() - n,
        x == all.subrange(n, n + x.len()),
        x.is_prefix_of(y),
    ensures
        all.subrange(n, k).is_prefix_of(y),
{
    assert(y.subrange(0, k - n) =~= all.subrange(n, k)) by {
        assert(y.subrange(0, x.len() as int) == x);
        assert(x.subrange(0, k - n) =~= all.subrange(n, k));
        assert(y.subrange(0, x.len() as int).subrange(0, k - n) =~= y.subrange(0, k - n));
    }
}

proof fn lemma_prefix_chain(a: Seq<Entry>, b: Seq<Entry>, c: Seq<Entry>)
    requires
        a.is_prefix_of(b),
        b.is_prefix_of(c),
    ensures
        a.is_prefix_of(c),
{
    assert(c.subrange(0, b.len() as int).subrange(0, a.len() as int) =~= c.subrange(
        0,
        a.len() as int,
    ));
}

/// One session leaves a log that can be taken up.
proof fn lemma_one_session(w: Writing, session: Session, start_lsn: u64)
    requires
        takes_up(w),
        can_hold(w, session),
    ensures
        ({
            let w2 = after_session(w, session);
            &&& takes_up(w2)
            &&& w.s.max_flushed_lsn <= w2.s.max_flushed_lsn
            &&& w2.now == range_of(w2).0
            &&& w.now == range_of(w).0 ==> w.now <= w2.now
            &&& w2.now <= start_lsn ==> replay_of(w2, start_lsn) == replay_of(
                run(w, session.steps),
                start_lsn,
            )
            &&& w2.now <= start_lsn <= w.s.max_flushed_lsn ==> replay_of(
                w,
                start_lsn,
            ).0.is_prefix_of(replay_of(w2, start_lsn).0)
        }),
{
    let steps = session.steps;
    let w1 = run(w, steps);
    let w2 = opened(w1, session.begun, session.mani_size, session.s);
    let e = lemma_session(w, steps);
    lemma_sizes_anew(w, accepted(steps), w1, e);
    law_stopped_log_is_taken_up(w, steps, session.begun, session.mani_size, session.s);
    lemma_found_after(w, accepted(steps), w1, e, session.begun, session.mani_size);
    if w2.now <= start_lsn <= w.s.max_flushed_lsn {
        lemma_older_after(w, accepted(steps), w1, e, start_lsn);
    }
    if w.now == range_of(w).0 {
        lemma_smallest_ascends(w, steps, session.begun, session.mani_size);
    }
    if session.releases {
        law_released_log_is_taken_up(
            w2,
            if w2.now <= start_lsn {
                start_lsn
            } else {
                w2.now
            },
        );
        lemma_released_last(w2);
    }
}

/// The last rotation is never released.
proof fn lemma_released_last(w: Writing)
    requires
        w.rots.len() > 0,
    ensures
        released(w).rots.last() == w.rots.last(),
{
    lemma_unused_few(w.s.prefix, rot_names(w.rots), w.now);
}

proof fn lemma_sessions(w: Writing, sessions: Seq<Session>, start_lsn: u64)
    requires
        takes_up(w),
        can_hold_all(w, sessions),
        w.now == range_of(w).0,
    ensures
        ({
            let w2 = after_sessions(w, sessions);
            &&& takes_up(w2)
            &&& w.s.max_flushed_lsn <= w2.s.max_flushed_lsn
            &&& w.now <= w2.now
            &&& w2.now <= start_lsn <= w.s.max_flushed_lsn ==> replay_of(
                w,
                start_lsn,
            ).0.is_prefix_of(replay_of(w2, start_lsn).0)
        }),
    decreases sessions.len(),
{
    if sessions.len() == 0 {
        let x = replay_of(w, start_lsn).0;
        assert(x.subrange(0, x.len() as int) =~= x);
    } else {
        let w1 = after_session(w, sessions[0]);
        let w2 = after_sessions(w, sessions);
        lemma_one_session(w, sessions[0], start_lsn);
        lemma_sessions(w1, sessions.skip(1), start_lsn);
        if w2.now <= start_lsn <= w.s.max_flushed_lsn {
            lemma_prefix_chain(
                replay_of(w, start_lsn).0,
                replay_of(w1, start_lsn).0,
                replay_of(w2, start_lsn).0,
            );
        }
    }
}

/// Published entries outlast any number of sessions, wherever each of them stops, also in the middle
/// of an entry: a replay from the LSN of an entry that was published in `session` starts with exactly
/// the entries from that one on that were published in it, whatever has happened in the `sessions`
/// that follow, unless the entry is below the smallest LSN that opening the log finds. The log can be
/// taken up again after each of them, and neither the smallest nor the largest LSN that is found ever
/// goes down.
pub proof fn law_published_entries_outlast_sessions(
    w: Writing,
    session: Session,
    sessions: Seq<Session>,
    n: int,
)
    requires
        takes_up(w),
        can_hold(w, session),
        can_hold_all(after_session(w, session), sessions),
    ensures
        ({
            let all = accepted(session.steps);
            let k = published(w, session.steps, w.s.max_flushed_lsn) - w.s.max_flushed_lsn;
            let w1 = after_session(w, session);
            let w2 = after_sessions(w1, sessions);
            &&& takes_up(w2)
            &&& w.s.max_flushed_lsn + k <= w1.s.max_flushed_lsn <= w2.s.max_flushed_lsn
            &&& 0 <= k <= all.len()
            &&& w1.now <= w2.now
            &&& 0 <= n < k && all[n].lsn >= w2.now ==> all.subrange(n, k).is_prefix_of(
                replay_of(w2, all[n].lsn).0,
            )
        }),
{
    let all = accepted(session.steps);
    let max_lsn = w.s.max_flushed_lsn;
    let k = published(w, session.steps, max_lsn) - max_lsn;
    let w1 = after_session(w, session);
    let w2 = after_sessions(w1, sessions);
    law_taken_up_log_keeps_published_entries(w, session.steps, session.begun, session.mani_size);
    let lsn = all[n].lsn;
    lemma_one_session(w, session, lsn);
    lemma_sessions(w1, sessions, lsn);
    if 0 <= n < k && lsn >= w2.now {
        assert(starts_with(run(w, session.steps), all, n, k));
        assert(lsn == max_lsn + 1 + n);
        lemma_prefix_on(all, n, k, replay_of(w1, lsn).0, replay_of(w2, lsn).0);
    }
}

/// The entries that were taken since follow those of a complete log.
proof fn lemma_since_complete(w: Writing, parts: Seq<Seq<Entry>>, steps: Seq<Step>)
    requires
        goes_on(w, parts),
        consecutive(flat(parts) + accepted(steps), first_lsn(w)),
    ensures
        consecutive(accepted(steps), w.s.max_flushed_lsn + 1),
{
    let all = flat(parts) + accepted(steps);
    let new = accepted(steps);
    assert forall|i: int| 0 <= i < new.len() implies (#[trigger] new[i]).lsn
        == w.s.max_flushed_lsn + 1 + i by {
        assert(all[flat(parts).len() + i] == new[i]);
    }
}

/// Steps one after the other.
#[verifier::spinoff_prover]
proof fn lemma_run_split(w: Writing, steps: Seq<Step>, n: int)
    requires
        0 <= n <= steps.len(),
        can_run(w, steps),
    ensures
        can_run(w, steps.take(n)),
        can_run(run(w, steps.take(n)), steps.skip(n)),
        run(w, steps) == run(run(w, steps.take(n)), steps.skip(n)),
    decreases n,
{
    if n == 0 {
        assert(steps.skip(0) =~= steps);
    } else {
        let w1 = w.after(steps[0]);
        let head = steps.take(n);
        lemma_run_split(w1, steps.skip(1), n - 1);
        assert(head.skip(1) =~= steps.skip(1).take(n - 1));
        assert(steps.skip(1).skip(n - 1) =~= steps.skip(n));
        assert(head[0] == steps[0]);
        assert(run(w, head) == run(w1, head.skip(1)));
    }
}

proof fn lemma_accepted_split(steps: Seq<Step>, n: int)
    requires
        0 <= n <= steps.len(),
    ensures
        accepted(steps) == accepted(steps.take(n)) + accepted(steps.skip(n)),
    decreases n,
{
    if n == 0 {
        assert(steps.skip(0) =~= steps);
        assert(accepted(steps.take(0)) + accepted(steps) =~= accepted(steps));
    } else {
        lemma_accepted_split(steps.skip(1), n - 1);
        assert(steps.take(n).skip(1) =~= steps.skip(1).take(n - 1));
        assert(steps.skip(1).skip(n - 1) =~= steps.skip(n));
        assert(steps.take(n)[0] == steps[0]);
        assert(accepted(steps) =~= accepted(steps.take(n)) + accepted(steps.skip(n)));
    }
}

#[verifier::spinoff_prover]
proof fn lemma_published_split(w: Writing, steps: Seq<Step>, n: int, max_lsn: u64)
    requires
        0 <= n <= steps.len(),
    ensures
        published(w, steps, max_lsn) == published(
            run(w, steps.take(n)),
            steps.skip(n),
            published(w, steps.take(n), max_lsn),
        ),
    decreases n,
{
    if n == 0 {
        assert(steps.skip(0) =~= steps);
        reveal(published);
    } else {
        let w1 = w.after(steps[0]);
        let head = steps.take(n);
        let next = published_by(max_lsn, ops_of(w.s, steps[0]));
        assert(head.skip(1) =~= steps.skip(1).take(n - 1));
        assert(steps.skip(1).skip(n - 1) =~= steps.skip(n));
        assert(head[0] == steps[0]);
        lemma_published_first(w, steps, max_lsn);
        lemma_published_first(w, head, max_lsn);
        lemma_published_split(w1, steps.skip(1), n - 1, next);
    }
}

/// The largest LSN that has been persisted starts at what was found when the log was opened, never
/// goes down, and stays at or below the largest LSN that was handed out. `calls` are the calls on the
/// ring buffer from which the entries were taken, and `n` of the steps were taken before.
pub proof fn law_persisted_lsn_never_goes_down(
    w: Writing,
    steps: Seq<Step>,
    n: int,
    ring: LogRing,
    calls: Seq<LogCall>,
)
    requires
        takes_up(w),
        can_run(w, steps),
        0 <= n <= steps.len(),
        ring.wf(),
        ring.items.len() == 0,
        ring.next_lsn == w.s.max_flushed_lsn + 1,
        ring.next_lsn + history(ring, calls).taken.len() <= u64::MAX,
        history(ring, calls).given == accepted(steps),
    ensures
        ({
            let opened = w.s.max_flushed_lsn;
            let before = published(w, steps.take(n), opened);
            let after = published(w, steps, opened);
            opened <= before <= after < history(ring, calls).ring.next_lsn
        }),
{
    let h = history(ring, calls);
    let max_lsn = w.s.max_flushed_lsn;
    let first = max_lsn + 1;
    let none = Seq::<Entry>::empty();
    let head = accepted(steps.take(n));
    let tail = accepted(steps.skip(n));
    law_lsns_are_consecutive(ring, calls);
    assert(ring.items + h.taken =~= h.taken);
    assert forall|i: int| 0 <= i < h.given.len() implies (#[trigger] h.given[i]).lsn == first
        + i by {
        assert((h.given + h.ring.items)[i] == h.taken[i]);
    }
    lemma_accepted_split(steps, n);
    assert(none + accepted(steps) =~= h.given);
    assert(none + head =~= head);
    assert(head + tail =~= h.given);
    assert forall|i: int| 0 <= i < head.len() implies (#[trigger] head[i]).lsn == first + i by {
        assert(head[i] == h.given[i]);
    }
    let v = anew(w);
    let g = lemma_anew(w);
    lemma_run_split(w, steps, n);
    let j = lemma_mirrored_run(w.rots, w, v, g, first, none, 0, steps, max_lsn);
    let j1 = lemma_mirrored_run(w.rots, w, v, g, first, none, 0, steps.take(n), max_lsn);
    lemma_run_split(v, steps, n);
    lemma_published_split(v, steps, n, max_lsn);
    let g1 = lemma_run(v, g, first, none, steps.take(n));
    lemma_published_bounds(v, g, first, none, steps.take(n), max_lsn);
    let mid = run(v, steps.take(n));
    let before = published(v, steps.take(n), max_lsn);
    lemma_published_bounds(mid, g1, first, head, steps.skip(n), before);
    let g2 = lemma_run(v, g, first, none, steps);
    lemma_inv(run(v, steps), g2, first, h.given);
    assert(h.given.len() <= h.taken.len()) by {
        assert((h.given + h.ring.items).len() == h.taken.len());
    }
}

} // verus!
