//! That a log that holds certain entries is replayed as these entries.
use super::disk::{decode_header, Record, BLOCK_HEAD_SIZE};
use super::instance::{fresh_seek, leading};
use super::layout::{
    absorb_all, begun_entries, behind, blocks_hold, encoded, flat, lemma_absorb_behind,
    lemma_absorb_concat, lemma_blocks_aligned, lemma_find_entry, lemma_lines_up_concat,
    lemma_lines_up_ok, lemma_parse_from, lemma_parse_records, lines_up, nothing_read,
};
use super::names::{data_rot_info, is_generated, law_data_rot_names_keep_order, lsn_of};
use super::reader::{
    corrupt, no_such_entry, IterState, ReadSeen, ReadState, ReadWants, SeekSeen, SeekState, SeekWants,
};
use super::Entry;
use crate::byteorder::ByteOrder;
use crate::text::{lemma_ordered_once, sorted, text_lt};
use crate::ErrorView;
use vstd::prelude::*;

verus! {

/// A data rotation.
#[verifier::ext_equal]
pub struct Rot {
    pub name: Seq<char>,
    pub bytes: Seq<u8>,
}

/// The names of rotations.
pub open spec fn rot_names(rots: Seq<Rot>) -> Seq<Seq<char>> {
    rots.map_values(|r: Rot| r.name)
}

/// Whether entries have consecutive LSNs, the first of which is `base`.
pub open spec fn consecutive(entries: Seq<Entry>, base: int) -> bool {
    forall|i: int| 0 <= i < entries.len() ==> (#[trigger] entries[i]).lsn == base + i
}

/// The first part of an entry that goes on elsewhere: its LSN, and what there is of its payload.
pub type Broken = Option<(u64, Seq<u8>)>;

/// Whether these blocks, in a rotation whose first LSN is `base`, hold exactly these entries, and
/// behind them the first part of one more.
pub open spec fn blocks_end(
    base: int,
    blocks: Seq<Seq<Record>>,
    entries: Seq<Entry>,
    tail: Broken,
) -> bool {
    &&& lines_up(nothing_read(), base, flat(blocks))
    &&& absorb_all(nothing_read(), flat(blocks)) == Ok::<ReadState, ErrorView>(
        ReadState { entries, mid: tail },
    )
}

/// Whether these blocks, in a rotation whose first LSN is `base`, hold exactly these entries.
pub open spec fn blocks_say(base: int, blocks: Seq<Seq<Record>>, entries: Seq<Entry>) -> bool {
    blocks_end(base, blocks, entries, None)
}

/// Whether a rotation whose first LSN is `base` holds exactly these entries, and behind them the
/// first part of one more.
#[verifier::opaque]
pub open spec fn rot_ends(
    o: ByteOrder,
    bs: int,
    base: int,
    bytes: Seq<u8>,
    entries: Seq<Entry>,
    tail: Broken,
) -> bool {
    exists|blocks: Seq<Seq<Record>>|
        #[trigger] blocks_hold(o, bs, bytes, blocks) && blocks_end(base, blocks, entries, tail)
}

/// Whether a rotation whose first LSN is `base` holds exactly these entries.
pub open spec fn rot_holds(
    o: ByteOrder,
    bs: int,
    base: int,
    bytes: Seq<u8>,
    entries: Seq<Entry>,
) -> bool {
    rot_ends(o, bs, base, bytes, entries, None)
}

/// Whether a log's data rotations hold these entries, in these parts, and behind them the first part
/// of one more: their names are in order, each name keeps the LSN that the rotation's first entry has
/// or will have, only the last rotation may hold no entry, and only it may break off.
pub open spec fn log_ends(
    o: ByteOrder,
    bs: int,
    prefix: Seq<char>,
    rots: Seq<Rot>,
    parts: Seq<Seq<Entry>>,
    tail: Broken,
) -> bool {
    &&& rots.len() == parts.len()
    &&& forall|i: int|
        0 <= i < rots.len() ==> {
            let rot = #[trigger] rots[i];
            let lsn = lsn_of(prefix, rot.name) as int;
            &&& is_generated(prefix, rot.name)
            &&& rot_ends(o, bs, lsn, rot.bytes, parts[i], tail_of(rots.len() - i, tail))
            &&& consecutive(parts[i], lsn)
        }
    &&& forall|i: int, j: int|
        #![trigger rots[i], rots[j]]
        0 <= i < j < rots.len() ==> {
            &&& data_rot_info(prefix, rots[i].name).unwrap().0 < data_rot_info(
                prefix,
                rots[j].name,
            ).unwrap().0
            &&& parts[i].len() > 0
            &&& j == i + 1 ==> lsn_of(prefix, rots[j].name) == lsn_of(prefix, rots[i].name)
                + parts[i].len()
        }
}

/// What the first of so many rotations ends with when the last one ends with `tail`.
pub open spec fn tail_of(left: int, tail: Broken) -> Broken {
    if left <= 1 {
        tail
    } else {
        None
    }
}

/// Whether a log's data rotations hold exactly these entries, in these parts.
pub open spec fn log_holds(
    o: ByteOrder,
    bs: int,
    prefix: Seq<char>,
    rots: Seq<Rot>,
    parts: Seq<Seq<Entry>>,
) -> bool {
    log_ends(o, bs, prefix, rots, parts, None)
}

/// How a replay ends that comes to the end of a log that ends with `tail`.
pub open spec fn end_of(tail: Broken) -> Option<ErrorView> {
    match tail {
        None => None,
        Some(_) => Some(corrupt("Unended paritial log"@)),
    }
}

/// What a caller gets who takes entries from an iterator, and reads on when there are none, until
/// there is nothing more or something fails. `cur` is what is left of the current rotation, and
/// `later` is what the rotations hold that follow it.
#[verifier::opaque]
pub open spec fn replayed(it: IterState, cur: Seq<u8>, later: Seq<Seq<u8>>) -> (
    Seq<Entry>,
    Option<ErrorView>,
)
    decreases later.len(), cur.len(), it.read.entries.len(),
{
    match it.next_entry() {
        Some(Ok(entry)) => {
            let (entries, e) = replayed(it.advanced(), cur, later);
            (seq![entry] + entries, e)
        },
        Some(Err(e)) => (Seq::empty(), Some(e)),
        None => if 0 < it.block_size <= cur.len() {
            let ev = ReadSeen::Block(cur.take(it.block_size));
            match it.asks(ev) {
                ReadWants::Fail(e) => (Seq::empty(), Some(e)),
                _ => replayed(it.after(ev), cur.skip(it.block_size), later),
            }
        } else {
            match it.asks(ReadSeen::Eof) {
                ReadWants::OpenRot(_) => if later.len() == 0 {
                    (Seq::empty(), None)
                } else {
                    let next = it.after(ReadSeen::Eof);
                    match next.asks(ReadSeen::Opened(later[0].len() as u64)) {
                        ReadWants::Fail(e) => (Seq::empty(), Some(e)),
                        _ => replayed(next, later[0], later.skip(1)),
                    }
                },
                ReadWants::Fail(e) => (Seq::empty(), Some(e)),
                _ => (Seq::empty(), None),
            }
        },
    }
}

/// What a caller gets who searches a rotation from the block on that is looked at, and replays from
/// where the search ends.
pub open spec fn sought(s: SeekState, bytes: Seq<u8>, later: Seq<Seq<u8>>) -> (
    Seq<Entry>,
    Option<ErrorView>,
)
    decreases s.size - s.offset,
{
    let off = s.offset as int;
    let bs = s.iter.block_size;
    if !s.within() || bs <= 0 {
        (Seq::empty(), Some(no_such_entry()))
    } else {
        let header = SeekSeen::Header(bytes.subrange(off, off + BLOCK_HEAD_SIZE));
        match s.asks(header) {
            SeekWants::Fail(e) => (Seq::empty(), Some(e)),
            SeekWants::ReadBlock(_) => {
                let block = SeekSeen::Block(bytes.subrange(off, off + bs));
                match s.asks(block) {
                    SeekWants::Fail(e) => (Seq::empty(), Some(e)),
                    SeekWants::Found => replayed(s.after(block).iter, bytes.skip(off + bs), later),
                    _ => {
                        let (entries, e) = replayed(
                            s.after(block).iter,
                            bytes.skip(off + bs),
                            later,
                        );
                        if entries.len() == 0 && e is None {
                            (entries, Some(no_such_entry()))
                        } else {
                            (entries, e)
                        }
                    },
                }
            },
            _ => sought(s.skipped(), bytes, later),
        }
    }
}

/// What a caller gets who replays a log from `start_lsn` on: the entries, and what failed.
pub open spec fn replay(
    o: ByteOrder,
    bs: u32,
    prefix: Seq<char>,
    rots: Seq<Rot>,
    start_lsn: u64,
) -> (Seq<Entry>, Option<ErrorView>) {
    let names = rot_names(rots);
    let k = leading(prefix, names, start_lsn);
    if k == 0 {
        (
            Seq::empty(),
            Some(ErrorView::MiscError("Unable to find data rotation matching `start_lsn`"@)),
        )
    } else {
        let bytes = rots[k - 1].bytes;
        let later = rots.skip(k).map_values(|r: Rot| r.bytes);
        let s = fresh_seek(o, bs, start_lsn, names.skip(k));
        let ev = SeekSeen::Opened(bytes.len() as u64);
        match s.asks(ev) {
            SeekWants::Fail(e) => (Seq::empty(), Some(e)),
            _ => sought(s.after(ev), bytes, later),
        }
    }
}

/// Whether rotations that follow each other hold these entries, from the LSN `lsn` on.
spec fn later_hold(
    o: ByteOrder,
    bs: int,
    lsn: int,
    later: Seq<Seq<u8>>,
    parts: Seq<Seq<Entry>>,
    tail: Broken,
) -> bool
    decreases parts.len(),
{
    &&& later.len() == parts.len()
    &&& parts.len() > 0 ==> {
        &&& rot_ends(o, bs, lsn, later[0], parts[0], tail_of(parts.len() as int, tail))
        &&& consecutive(parts[0], lsn)
        &&& later[0].len() <= u64::MAX
        &&& later_hold(o, bs, lsn + parts[0].len(), later.skip(1), parts.skip(1), tail)
    }
}

/// Taking an entry that has been read.
proof fn lemma_takes_entry(it: IterState, cur: Seq<u8>, rest: Seq<Entry>, later: Seq<Seq<u8>>)
    requires
        it.read.entries.len() > 0,
        consecutive(it.read.entries + rest, it.next_lsn as int),
        it.next_lsn < u64::MAX,
    ensures
        ({
            let next = it.advanced();
            let (entries, e) = replayed(next, cur, later);
            &&& replayed(it, cur, later) == (seq![it.read.entries[0]] + entries, e)
            &&& consecutive(next.read.entries + rest, next.next_lsn as int)
            &&& next.next_lsn == it.next_lsn + 1
            &&& next == (IterState {
                read: ReadState { entries: it.read.entries.skip(1), ..it.read },
                next_lsn: next.next_lsn,
                ..it
            })
        }),
{
    reveal(replayed);
    let cached = it.read.entries;
    let next = it.advanced();
    assert((cached + rest)[0] == cached[0]);
    assert forall|i: int| 0 <= i < (next.read.entries + rest).len() implies (#[trigger] (
    next.read.entries + rest)[i]).lsn == next.next_lsn + i by {
        assert((next.read.entries + rest)[i] == (cached + rest)[i + 1]);
    }
}

/// Reading one more block.
proof fn lemma_reads_block(
    it: IterState,
    cur: Seq<u8>,
    blocks: Seq<Seq<Record>>,
    rest: Seq<Entry>,
    mid: Broken,
    later: Seq<Seq<u8>>,
) -> (r: (IterState, Seq<Entry>))
    requires
        0 < it.block_size,
        it.read.entries.len() == 0,
        blocks.len() > 0,
        blocks_hold(it.order, it.block_size, cur, blocks),
        absorb_all(ReadState { entries: Seq::empty(), mid: it.read.mid }, flat(blocks)) == Ok::<
            ReadState,
            ErrorView,
        >(ReadState { entries: rest, mid }),
    ensures
        ({
            let (next, rest1) = r;
            &&& next == (IterState { read: next.read, ..it })
            &&& rest == next.read.entries + rest1
            &&& absorb_all(
                ReadState { entries: Seq::empty(), mid: next.read.mid },
                flat(blocks.skip(1)),
            ) == Ok::<ReadState, ErrorView>(ReadState { entries: rest1, mid })
            &&& replayed(it, cur, later) == replayed(next, cur.skip(it.block_size), later)
        }),
{
    reveal(replayed);
    let bs = it.block_size;
    let block = cur.take(bs);
    let recs = blocks[0];
    let st = it.read;
    let used = BLOCK_HEAD_SIZE + encoded(it.order, recs).len();
    assert(st =~= ReadState { entries: Seq::empty(), mid: it.read.mid });
    lemma_absorb_concat(st, recs, flat(blocks.skip(1)));
    lemma_parse_records(it.order, st, recs, bs - used);
    let s1 = absorb_all(st, recs)->Ok_0;
    let s0 = ReadState { entries: Seq::empty(), mid: s1.mid };
    lemma_absorb_behind(s1.entries, s0, flat(blocks.skip(1)));
    assert(behind(s1.entries, s0) =~= s1);
    let rest1 = absorb_all(s0, flat(blocks.skip(1)))->Ok_0.entries;
    assert(rest =~= s1.entries + rest1);
    let next = it.after(ReadSeen::Block(block));
    assert(next.read == s1);
    (next, rest1)
}

/// Going on to the next rotation.
proof fn lemma_opens_rot(
    it: IterState,
    later: Seq<Seq<u8>>,
    parts: Seq<Seq<Entry>>,
    tail: Broken,
) -> (r: (IterState, Seq<Seq<Record>>))
    requires
        0 < it.block_size,
        it.read.entries.len() == 0,
        it.read.mid is None,
        it.rot_names.len() == later.len(),
        later.len() > 0,
        later_hold(it.order, it.block_size, it.next_lsn as int, later, parts, tail),
    ensures
        ({
            let (next, blocks) = r;
            &&& next == (IterState { rot_names: it.rot_names.skip(1), ..it })
            &&& blocks_hold(it.order, it.block_size, later[0], blocks)
            &&& absorb_all(
                ReadState { entries: Seq::empty(), mid: next.read.mid },
                flat(blocks),
            ) == Ok::<ReadState, ErrorView>(
                ReadState { entries: parts[0], mid: tail_of(later.len() as int, tail) },
            )
            &&& replayed(it, Seq::empty(), later) == replayed(next, later[0], later.skip(1))
        }),
{
    reveal(replayed);
    reveal(rot_ends);
    let bs = it.block_size;
    let next = it.after(ReadSeen::Eof);
    let lsn = it.next_lsn as int;
    let blocks = choose|b: Seq<Seq<Record>>|
        #[trigger] blocks_hold(it.order, bs, later[0], b) && blocks_end(
            lsn,
            b,
            parts[0],
            tail_of(later.len() as int, tail),
        );
    lemma_blocks_aligned(it.order, bs, later[0], blocks);
    assert(ReadState { entries: Seq::empty(), mid: next.read.mid } =~= nothing_read());
    (next, blocks)
}

/// The rest of a log is replayed as the entries that it holds: those that have been read, those in
/// the blocks that are left of the current rotation, and those in the rotations that follow it.
proof fn lemma_replayed(
    it: IterState,
    cur: Seq<u8>,
    blocks: Seq<Seq<Record>>,
    rest: Seq<Entry>,
    later: Seq<Seq<u8>>,
    parts: Seq<Seq<Entry>>,
    tail: Broken,
)
    requires
        0 < it.block_size,
        it.rot_names.len() == later.len(),
        blocks_hold(it.order, it.block_size, cur, blocks),
        absorb_all(ReadState { entries: Seq::empty(), mid: it.read.mid }, flat(blocks)) == Ok::<
            ReadState,
            ErrorView,
        >(ReadState { entries: rest, mid: tail_of(later.len() + 1int, tail) }),
        consecutive(it.read.entries + rest, it.next_lsn as int),
        it.next_lsn + it.read.entries.len() + rest.len() + flat(parts).len() <= u64::MAX,
        later_hold(
            it.order,
            it.block_size,
            it.next_lsn + it.read.entries.len() + rest.len(),
            later,
            parts,
            tail,
        ),
    ensures
        replayed(it, cur, later) == (it.read.entries + rest + flat(parts), end_of(tail)),
    decreases later.len(), cur.len(), it.read.entries.len(),
{
    let cached = it.read.entries;
    let bs = it.block_size;
    if cached.len() > 0 {
        lemma_takes_entry(it, cur, rest, later);
        let next = it.advanced();
        lemma_replayed(next, cur, blocks, rest, later, parts, tail);
        assert(seq![cached[0]] + (next.read.entries + rest + flat(parts)) =~= cached + rest + flat(
            parts,
        ));
    } else if blocks.len() > 0 {
        let (next, rest1) = lemma_reads_block(
            it,
            cur,
            blocks,
            rest,
            tail_of(later.len() + 1int, tail),
            later,
        );
        assert(cached + rest =~= next.read.entries + rest1);
        lemma_replayed(next, cur.skip(bs), blocks.skip(1), rest1, later, parts, tail);
        assert(next.read.entries + rest1 + flat(parts) =~= cached + rest + flat(parts));
    } else {
        assert(flat(blocks) =~= Seq::empty());
        assert(rest =~= Seq::empty());
        if later.len() == 0 {
            reveal(replayed);
            assert(flat(parts) =~= Seq::empty());
            assert(cached + rest + flat(parts) =~= Seq::empty());
        } else {
            assert(cur =~= Seq::empty());
            let (next, more) = lemma_opens_rot(it, later, parts, tail);
            assert(next.read.entries + parts[0] =~= parts[0]);
            lemma_replayed(next, later[0], more, parts[0], later.skip(1), parts.skip(1), tail);
            assert(next.read.entries + parts[0] + flat(parts.skip(1)) =~= cached + rest + flat(
                parts,
            ));
        }
    }
}

/// A header is decoded from the first bytes of a block alone.
pub proof fn lemma_header_of_block(o: ByteOrder, bytes: Seq<u8>, off: int, bs: int)
    requires
        0 <= off,
        BLOCK_HEAD_SIZE <= bs,
        off + bs <= bytes.len(),
    ensures
        decode_header(o, bytes.subrange(off, off + BLOCK_HEAD_SIZE)) == decode_header(
            o,
            bytes.subrange(off, off + bs),
        ),
{
    let h = bytes.subrange(off, off + BLOCK_HEAD_SIZE);
    let b = bytes.subrange(off, off + bs);
    assert(h.subrange(4, BLOCK_HEAD_SIZE as int) =~= b.subrange(4, BLOCK_HEAD_SIZE as int));
    assert(forall|i: int| 0 <= i < BLOCK_HEAD_SIZE ==> h[i] == b[i]);
}

/// What a search is in when it looks at the blocks that are left of a rotation: `st` is what a
/// reader of all blocks before would have read, `entries` is what the whole rotation holds, and the
/// search is for the entry number `m` of it.
spec fn seeking(
    s: SeekState,
    bytes: Seq<u8>,
    st: ReadState,
    blocks: Seq<Seq<Record>>,
    base: int,
    entries: Seq<Entry>,
    mid: Broken,
    m: int,
) -> bool {
    let bs = s.iter.block_size;
    &&& BLOCK_HEAD_SIZE <= bs
    &&& s.iter.read == nothing_read()
    &&& s.start_lsn == base + m
    &&& s.iter.next_lsn == s.start_lsn
    &&& s.size == bytes.len()
    &&& s.offset <= s.size
    &&& blocks_hold(s.iter.order, bs, bytes.skip(s.offset as int), blocks)
    &&& lines_up(st, base, flat(blocks))
    &&& absorb_all(st, flat(blocks)) == Ok::<ReadState, ErrorView>(
        ReadState { entries, mid },
    )
    &&& begun_entries(st) <= m < entries.len()
    &&& consecutive(entries, base)
}

/// The block that is looked at is the one to start in, and what is read of it.
proof fn lemma_starts(
    s: SeekState,
    bytes: Seq<u8>,
    st: ReadState,
    blocks: Seq<Seq<Record>>,
    base: int,
    entries: Seq<Entry>,
    mid: Broken,
    m: int,
) -> (r: (ReadState, Seq<Entry>))
    requires
        seeking(s, bytes, st, blocks, base, entries, mid, m),
        blocks.len() > 0,
        lines_up(st, base, blocks[0]),
        m < begun_entries(absorb_all(st, blocks[0])->Ok_0),
    ensures
        ({
            let (q, rest) = r;
            let off = s.offset as int;
            let bs = s.iter.block_size;
            &&& s.within()
            &&& s.starts_in(bytes.subrange(off, off + BLOCK_HEAD_SIZE))
            &&& s.parsed(bytes.subrange(off, off + bs)) == (q, None::<ErrorView>)
            &&& q.entries + rest == entries.skip(m)
            &&& absorb_all(
                ReadState { entries: Seq::empty(), mid: q.mid },
                flat(blocks.skip(1)),
            ) == Ok::<ReadState, ErrorView>(ReadState { entries: rest, mid })
        }),
{
    let o = s.iter.order;
    let bs = s.iter.block_size;
    let off = s.offset as int;
    let recs = blocks[0];
    let block = bytes.subrange(off, off + bs);
    let used = BLOCK_HEAD_SIZE + encoded(o, recs).len();
    assert(bytes.skip(off).take(bs) =~= block);
    lemma_header_of_block(o, bytes, off, bs);
    lemma_absorb_concat(st, recs, flat(blocks.skip(1)));
    lemma_lines_up_ok(st, base, recs);
    let st1 = absorb_all(st, recs)->Ok_0;
    let k = lemma_find_entry(st, base, recs, m);
    let before = absorb_all(st, recs.take(k))->Ok_0;
    assert(recs.take(k) + recs.skip(k) =~= recs);
    lemma_absorb_concat(st, recs.take(k), recs.skip(k));
    lemma_absorb_behind(before.entries, nothing_read(), recs.skip(k));
    assert(behind(before.entries, nothing_read()) =~= before);
    let q = absorb_all(nothing_read(), recs.skip(k))->Ok_0;
    assert(st1 == behind(before.entries, q));
    lemma_parse_from(o, s.start_lsn, nothing_read(), recs, k, bs - used);
    let q0 = ReadState { entries: Seq::empty(), mid: q.mid };
    let pre = before.entries + q.entries;
    lemma_absorb_behind(pre, q0, flat(blocks.skip(1)));
    assert(behind(pre, q0) =~= st1);
    let rest = absorb_all(q0, flat(blocks.skip(1)))->Ok_0.entries;
    assert(entries =~= pre + rest);
    assert(q.entries + rest =~= entries.skip(m));
    (q, rest)
}

/// A search in a rotation ends at the entry that it is for, and the replay goes on from there.
proof fn lemma_sought(
    s: SeekState,
    bytes: Seq<u8>,
    st: ReadState,
    blocks: Seq<Seq<Record>>,
    base: int,
    entries: Seq<Entry>,
    m: int,
    later: Seq<Seq<u8>>,
    parts: Seq<Seq<Entry>>,
    tail: Broken,
)
    requires
        seeking(s, bytes, st, blocks, base, entries, tail_of(later.len() + 1int, tail), m),
        s.iter.rot_names.len() == later.len(),
        base + entries.len() + flat(parts).len() <= u64::MAX,
        later_hold(s.iter.order, s.iter.block_size, base + entries.len(), later, parts, tail),
    ensures
        sought(s, bytes, later) == (entries.skip(m) + flat(parts), end_of(tail)),
    decreases blocks.len(),
{
    let o = s.iter.order;
    let bs = s.iter.block_size;
    let off = s.offset as int;
    if blocks.len() == 0 {
        assert(absorb_all(st, flat(blocks)) == Ok::<ReadState, ErrorView>(st));
    } else {
        let recs = blocks[0];
        lemma_lines_up_concat(st, base, recs, flat(blocks.skip(1)));
        lemma_lines_up_ok(st, base, recs);
        lemma_absorb_concat(st, recs, flat(blocks.skip(1)));
        let st1 = absorb_all(st, recs)->Ok_0;
        assert(bytes.skip(off).skip(bs) =~= bytes.skip(off + bs));
        if m < begun_entries(st1) {
            let mid = tail_of(later.len() + 1int, tail);
            let (q, rest) = lemma_starts(s, bytes, st, blocks, base, entries, mid, m);
            let block = SeekSeen::Block(bytes.subrange(off, off + bs));
            let it = s.after(block).iter;
            assert(it.read == q);
            assert forall|i: int| 0 <= i < (q.entries + rest).len() implies (#[trigger] (q.entries
                + rest)[i]).lsn == it.next_lsn + i by {
                assert(entries.skip(m)[i] == entries[m + i]);
            }
            lemma_replayed(it, bytes.skip(off + bs), blocks.skip(1), rest, later, parts, tail);
        } else {
            assert(bytes.skip(off).take(bs) =~= bytes.subrange(off, off + bs));
            lemma_header_of_block(o, bytes, off, bs);
            if blocks.len() == 1 {
                assert(absorb_all(st1, flat(blocks.skip(1))) == Ok::<ReadState, ErrorView>(st1));
            }
            lemma_sought(
                s.skipped(),
                bytes,
                st1,
                blocks.skip(1),
                base,
                entries,
                m,
                later,
                parts,
                tail,
            );
        }
    }
}

/// A log without its first rotation.
pub proof fn lemma_log_skips(
    o: ByteOrder,
    bs: int,
    prefix: Seq<char>,
    rots: Seq<Rot>,
    parts: Seq<Seq<Entry>>,
    tail: Broken,
)
    requires
        log_ends(o, bs, prefix, rots, parts, tail),
        rots.len() > 0,
    ensures
        log_ends(o, bs, prefix, rots.skip(1), parts.skip(1), tail),
        rots.len() > 1 ==> lsn_of(prefix, rots[1].name) == lsn_of(prefix, rots[0].name)
            + parts[0].len(),
{
    let r = rots.skip(1);
    let p = parts.skip(1);
    assert forall|i: int| 0 <= i < r.len() implies {
        let rot = #[trigger] r[i];
        let lsn = lsn_of(prefix, rot.name) as int;
        &&& is_generated(prefix, rot.name)
        &&& rot_ends(o, bs, lsn, rot.bytes, p[i], tail_of(r.len() - i, tail))
        &&& consecutive(p[i], lsn)
    } by {
        assert(r[i] == rots[i + 1]);
        assert(p[i] == parts[i + 1]);
    }
    assert forall|i: int, j: int|
        #![trigger r[i], r[j]]
        0 <= i < j < r.len() implies {
        &&& data_rot_info(prefix, r[i].name).unwrap().0 < data_rot_info(
            prefix,
            r[j].name,
        ).unwrap().0
        &&& p[i].len() > 0
        &&& j == i + 1 ==> lsn_of(prefix, r[j].name) == lsn_of(prefix, r[i].name) + p[i].len()
    } by {
        assert(r[i] == rots[i + 1]);
        assert(r[j] == rots[j + 1]);
        assert(p[i] == parts[i + 1]);
    }
    if rots.len() > 1 {
        assert(rots[0].name == rots[0].name && rots[1].name == rots[1].name);
    }
}

/// The contents of rotations.
pub open spec fn rot_bytes(rots: Seq<Rot>) -> Seq<Seq<u8>> {
    rots.map_values(|r: Rot| r.bytes)
}

proof fn lemma_later(
    o: ByteOrder,
    bs: int,
    prefix: Seq<char>,
    rots: Seq<Rot>,
    parts: Seq<Seq<Entry>>,
    tail: Broken,
    lsn: int,
)
    requires
        log_ends(o, bs, prefix, rots, parts, tail),
        rots.len() > 0 ==> lsn == lsn_of(prefix, rots[0].name),
        forall|i: int| 0 <= i < rots.len() ==> (#[trigger] rots[i]).bytes.len() <= u64::MAX,
    ensures
        later_hold(o, bs, lsn, rot_bytes(rots), parts, tail),
    decreases rots.len(),
{
    if rots.len() > 0 {
        lemma_log_skips(o, bs, prefix, rots, parts, tail);
        assert forall|i: int| 0 <= i < rots.skip(1).len() implies (#[trigger] rots.skip(
            1,
        )[i]).bytes.len() <= u64::MAX by {
            assert(rots.skip(1)[i] == rots[i + 1]);
        }
        lemma_later(o, bs, prefix, rots.skip(1), parts.skip(1), tail, lsn + parts[0].len());
        assert(rot_bytes(rots).skip(1) =~= rot_bytes(rots.skip(1)));
        assert(rot_bytes(rots)[0] == rots[0].bytes);
    }
}

/// The rotation in which a replay starts, and the number of its first entry in it.
proof fn lemma_chosen(
    o: ByteOrder,
    bs: int,
    prefix: Seq<char>,
    rots: Seq<Rot>,
    parts: Seq<Seq<Entry>>,
    tail: Broken,
    n: int,
) -> (r: (int, int))
    requires
        log_ends(o, bs, prefix, rots, parts, tail),
        0 <= n < flat(parts).len(),
    ensures
        ({
            let (i, m) = r;
            let start = flat(parts)[n].lsn;
            &&& 0 <= i < rots.len()
            &&& 0 <= m < parts[i].len()
            &&& leading(prefix, rot_names(rots), start) == i + 1
            &&& start == lsn_of(prefix, rots[i].name) + m
            &&& lsn_of(prefix, rots[0].name) + n == start
            &&& flat(parts).skip(n) == parts[i].skip(m) + flat(parts.skip(i + 1))
            &&& lsn_of(prefix, rots[i].name) + parts[i].len() + flat(parts.skip(i + 1)).len()
                == lsn_of(prefix, rots[0].name) + flat(parts).len()
            &&& i + 1 < rots.len() ==> lsn_of(prefix, rots[i + 1].name) == lsn_of(
                prefix,
                rots[i].name,
            ) + parts[i].len()
            &&& log_ends(o, bs, prefix, rots.skip(i + 1), parts.skip(i + 1), tail)
        }),
    decreases rots.len(),
{
    let names = rot_names(rots);
    let start = flat(parts)[n].lsn;
    let rest = flat(parts.skip(1));
    lemma_log_skips(o, bs, prefix, rots, parts, tail);
    assert(names.skip(1) =~= rot_names(rots.skip(1)));
    assert(names[0] == rots[0].name);
    if n < parts[0].len() {
        assert(flat(parts)[n] == parts[0][n]);
        assert(parts[0][n].lsn == lsn_of(prefix, rots[0].name) + n);
        assert(flat(parts).skip(n) =~= parts[0].skip(n) + rest);
        if rots.len() > 1 {
            assert(names.skip(1)[0] == rots[1].name);
        }
        assert(leading(prefix, names.skip(1), start) == 0);
        (0, n)
    } else {
        let n1 = n - parts[0].len();
        assert(flat(parts)[n] == rest[n1]);
        let (i, m) = lemma_chosen(o, bs, prefix, rots.skip(1), parts.skip(1), tail, n1);
        assert(parts.skip(1).skip(i + 1) =~= parts.skip(i + 2));
        assert(rots.skip(1).skip(i + 1) =~= rots.skip(i + 2));
        assert(flat(parts).skip(n) =~= rest.skip(n1));
        (i + 1, m)
    }
}

/// Reads give back what the log holds, also when it breaks off in the middle of an entry: a replay from
/// the LSN of any of the entries before gives exactly the entries from that one on, and then says that
/// the last one is not complete.
pub proof fn law_replay_of_broken_off_log(
    o: ByteOrder,
    bs: u32,
    prefix: Seq<char>,
    rots: Seq<Rot>,
    parts: Seq<Seq<Entry>>,
    tail: Broken,
    n: int,
)
    requires
        BLOCK_HEAD_SIZE <= bs,
        log_ends(o, bs as int, prefix, rots, parts, tail),
        forall|i: int| 0 <= i < rots.len() ==> (#[trigger] rots[i]).bytes.len() <= u64::MAX,
        lsn_of(prefix, rots[0].name) + flat(parts).len() <= u64::MAX,
        0 <= n < flat(parts).len(),
    ensures
        replay(o, bs, prefix, rots, flat(parts)[n].lsn) == (
            flat(parts).skip(n),
            end_of(tail),
        ),
{
    reveal(rot_ends);
    let start = flat(parts)[n].lsn;
    let (i, m) = lemma_chosen(o, bs as int, prefix, rots, parts, tail, n);
    let names = rot_names(rots);
    let bytes = rots[i].bytes;
    let base = lsn_of(prefix, rots[i].name) as int;
    let later = rots.skip(i + 1);
    let blocks = choose|b: Seq<Seq<Record>>|
        #[trigger] blocks_hold(o, bs as int, bytes, b) && blocks_end(
            base,
            b,
            parts[i],
            tail_of(rots.len() - i, tail),
        );
    lemma_blocks_aligned(o, bs as int, bytes, blocks);
    assert forall|j: int| 0 <= j < later.len() implies (#[trigger] later[j]).bytes.len()
        <= u64::MAX by {
        assert(later[j] == rots[i + 1 + j]);
    }
    if later.len() > 0 {
        assert(later[0] == rots[i + 1]);
    }
    lemma_later(o, bs as int, prefix, later, parts.skip(i + 1), tail, base + parts[i].len());
    let s = fresh_seek(o, bs, start, names.skip(i + 1));
    let s1 = s.after(SeekSeen::Opened(bytes.len() as u64));
    assert(s.iter.read =~= nothing_read());
    assert(bytes.skip(0) =~= bytes);
    lemma_sought(
        s1,
        bytes,
        nothing_read(),
        blocks,
        base,
        parts[i],
        m,
        rot_bytes(later),
        parts.skip(i + 1),
        tail,
    );
    assert(s1.within()) by {
        if bytes.len() < bs {
            assert(blocks.len() == 0);
            assert(flat(blocks) =~= Seq::empty());
            assert(parts[i] =~= Seq::empty());
        }
    }
}

/// Reads give back what the log holds: a replay from the LSN of any of a log's entries gives exactly
/// the entries from that one on, and then ends without an error.
pub proof fn law_replay_gives_entries(
    o: ByteOrder,
    bs: u32,
    prefix: Seq<char>,
    rots: Seq<Rot>,
    parts: Seq<Seq<Entry>>,
    n: int,
)
    requires
        BLOCK_HEAD_SIZE <= bs,
        log_holds(o, bs as int, prefix, rots, parts),
        forall|i: int| 0 <= i < rots.len() ==> (#[trigger] rots[i]).bytes.len() <= u64::MAX,
        lsn_of(prefix, rots[0].name) + flat(parts).len() <= u64::MAX,
        0 <= n < flat(parts).len(),
    ensures
        replay(o, bs, prefix, rots, flat(parts)[n].lsn) == (
            flat(parts).skip(n),
            None::<ErrorView>,
        ),
{
    law_replay_of_broken_off_log(o, bs, prefix, rots, parts, None, n);
}

/// The rotations of a log are listed in the order in which they were written: whatever lists their
/// names in ascending order gives them in that order.
pub proof fn law_rotations_are_listed_in_order(
    o: ByteOrder,
    bs: int,
    prefix: Seq<char>,
    rots: Seq<Rot>,
    parts: Seq<Seq<Entry>>,
    names: Seq<Seq<char>>,
)
    requires
        log_holds(o, bs, prefix, rots, parts),
        names.to_multiset() == rot_names(rots).to_multiset(),
        sorted(names),
    ensures
        names == rot_names(rots),
{
    let x = rot_names(rots);
    assert forall|i: int, j: int| 0 <= i < j < x.len() implies text_lt(
        #[trigger] x[i],
        #[trigger] x[j],
    ) by {
        let a = data_rot_info(prefix, rots[i].name).unwrap();
        let b = data_rot_info(prefix, rots[j].name).unwrap();
        law_data_rot_names_keep_order(prefix, a.0, a.1, b.0, b.1);
    }
    lemma_ordered_once(x, names);
}

/// Whatever the files hold, also if they are damaged, the entries that are handed out have consecutive
/// LSNs, from the one on that is expected.
proof fn lemma_replayed_consecutive(it: IterState, cur: Seq<u8>, later: Seq<Seq<u8>>)
    requires
        it.next_lsn + replayed(it, cur, later).0.len() <= u64::MAX,
    ensures
        consecutive(replayed(it, cur, later).0, it.next_lsn as int),
    decreases later.len(), cur.len(), it.read.entries.len(),
{
    reveal(replayed);
    match it.next_entry() {
        Some(Ok(entry)) => {
            let rest = replayed(it.advanced(), cur, later).0;
            lemma_replayed_consecutive(it.advanced(), cur, later);
            assert forall|i: int| 0 <= i < (seq![entry] + rest).len() implies (#[trigger] (
            seq![entry] + rest)[i]).lsn == it.next_lsn + i by {
                if i > 0 {
                    assert((seq![entry] + rest)[i] == rest[i - 1]);
                }
            }
        },
        Some(Err(e)) => {},
        None => if 0 < it.block_size <= cur.len() {
            let ev = ReadSeen::Block(cur.take(it.block_size));
            if !(it.asks(ev) is Fail) {
                lemma_replayed_consecutive(it.after(ev), cur.skip(it.block_size), later);
            }
        } else if it.asks(ReadSeen::Eof) is OpenRot && later.len() > 0 {
            let next = it.after(ReadSeen::Eof);
            if !(next.asks(ReadSeen::Opened(later[0].len() as u64)) is Fail) {
                lemma_replayed_consecutive(next, later[0], later.skip(1));
            }
        },
    }
}

proof fn lemma_sought_consecutive(s: SeekState, bytes: Seq<u8>, later: Seq<Seq<u8>>)
    requires
        s.iter.next_lsn + sought(s, bytes, later).0.len() <= u64::MAX,
    ensures
        consecutive(sought(s, bytes, later).0, s.iter.next_lsn as int),
    decreases s.size - s.offset,
{
    let off = s.offset as int;
    let bs = s.iter.block_size;
    if s.within() && bs > 0 {
        let header = SeekSeen::Header(bytes.subrange(off, off + BLOCK_HEAD_SIZE));
        match s.asks(header) {
            SeekWants::Fail(e) => {},
            SeekWants::ReadBlock(_) => {
                let block = SeekSeen::Block(bytes.subrange(off, off + bs));
                if !(s.asks(block) is Fail) {
                    lemma_replayed_consecutive(s.after(block).iter, bytes.skip(off + bs), later);
                }
            },
            _ => {
                lemma_sought_consecutive(s.skipped(), bytes, later);
            },
        }
    }
}

/// Whatever the files of a log hold, also if they are damaged or mixed up, a replay hands out entries
/// with consecutive LSNs only, from the one on that it was asked for.
pub proof fn law_replay_is_consecutive(
    o: ByteOrder,
    bs: u32,
    prefix: Seq<char>,
    rots: Seq<Rot>,
    start_lsn: u64,
)
    requires
        start_lsn + replay(o, bs, prefix, rots, start_lsn).0.len() <= u64::MAX,
    ensures
        consecutive(replay(o, bs, prefix, rots, start_lsn).0, start_lsn as int),
{
    let names = rot_names(rots);
    let k = leading(prefix, names, start_lsn);
    if k != 0 {
        let bytes = rots[k - 1].bytes;
        let later = rots.skip(k).map_values(|r: Rot| r.bytes);
        let s = fresh_seek(o, bs, start_lsn, names.skip(k));
        let ev = SeekSeen::Opened(bytes.len() as u64);
        if !(s.asks(ev) is Fail) {
            lemma_sought_consecutive(s.after(ev), bytes, later);
        }
    }
}

} // verus!
