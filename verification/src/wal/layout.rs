//! How entries lie in blocks, and that a block gives back the records that were put in it.
use super::disk::{
    decode_header, decode_mani, decode_record, mani_consumed, mani_entry, open_header,
    record_consumed, record_len, with_mani_entry, Header, Record, BLOCK_HEAD_SIZE, LOG_HEAD_SIZE,
    MANI_ENTRY_SIZE,
};
use super::flush::{sealed_block, zeros};
use super::reader::{absorb, absorb_first, parse_from, parse_records, records_end, ReadState};
use super::Entry;
use crate::byteorder::{
    law_u32_reads_back, law_u64_reads_back, lemma_u64_zero, overwritten, u32_at, u32_bytes, u64_at,
    u64_bytes, ByteOrder,
};
use crate::outside::crc32c_of;
use crate::ErrorView;
use vstd::prelude::*;

verus! {

// ---------------------------------------------------------------------------------------------
// Records
// ---------------------------------------------------------------------------------------------

proof fn lemma_bytes_len(o: ByteOrder)
    ensures
        forall|n: u32| (#[trigger] u32_bytes(o, n)).len() == 4,
        forall|n: u64| (#[trigger] u64_bytes(o, n)).len() == 8,
{
}

/// Where the parts of a record lie.
pub proof fn lemma_record_parts(o: ByteOrder, rec: Record)
    ensures
        rec.body(o).len() == 16 + rec.payload.len(),
        rec.bytes(o).len() == rec.size(),
        rec.bytes(o).subrange(0, 4) == u32_bytes(o, crc32c_of(rec.body(o))),
        rec.bytes(o).subrange(4, 8) == u32_bytes(o, rec.payload.len() as u32),
        rec.bytes(o).subrange(8, 16) == u64_bytes(o, rec.lsn),
        rec.bytes(o)[17] == rec.fullness.code(),
        rec.bytes(o).subrange(4, rec.size()) == rec.body(o),
        rec.bytes(o).subrange(LOG_HEAD_SIZE as int, rec.size()) == rec.payload,
{
    lemma_bytes_len(o);
    let b = rec.bytes(o);
    let len = rec.payload.len() as u32;
    let crc = crc32c_of(rec.body(o));
    assert(b.subrange(0, 4) =~= u32_bytes(o, crc));
    assert(b.subrange(4, 8) =~= u32_bytes(o, len));
    assert(b.subrange(8, 16) =~= u64_bytes(o, rec.lsn));
    assert(b.subrange(4, rec.size()) =~= rec.body(o));
    assert(b.subrange(LOG_HEAD_SIZE as int, rec.size()) =~= rec.payload);
}

/// A record that was written is read back, whatever follows it.
pub proof fn law_record_reads_back(o: ByteOrder, rec: Record, rest: Seq<u8>)
    requires
        rec.payload.len() <= u32::MAX,
    ensures
        decode_record(o, rec.bytes(o) + rest) == Ok::<Record, ErrorView>(rec),
        record_consumed(o, rec.bytes(o) + rest) == rec.size(),
        (rec.bytes(o) + rest).skip(rec.size()) == rest,
{
    let b = rec.bytes(o);
    let s = b + rest;
    lemma_record_parts(o, rec);
    assert(s.subrange(0, 4) =~= b.subrange(0, 4));
    assert(s.subrange(4, 8) =~= b.subrange(4, 8));
    assert(s.subrange(8, 16) =~= b.subrange(8, 16));
    law_u32_reads_back(o, s, 0, crc32c_of(rec.body(o)));
    law_u32_reads_back(o, s, 4, rec.payload.len() as u32);
    law_u64_reads_back(o, s, 8, rec.lsn);
    assert(s[17] == b[17]);
    assert(s.subrange(4, rec.size()) =~= rec.body(o));
    assert(s.subrange(LOG_HEAD_SIZE as int, rec.size()) =~= rec.payload);
    assert(record_len(o, s) == rec.payload.len());
    assert(s.skip(rec.size()) =~= rest);
}

/// A record is not taken for the end.
proof fn lemma_not_end(o: ByteOrder, rec: Record, rest: Seq<u8>)
    requires
        rec.payload.len() <= u32::MAX,
        rec.lsn > 0,
    ensures
        !records_end(o, rec.bytes(o) + rest),
{
    let b = rec.bytes(o);
    let s = b + rest;
    lemma_record_parts(o, rec);
    assert(s.subrange(8, 16) =~= b.subrange(8, 16));
    law_u64_reads_back(o, s, 8, rec.lsn);
    law_record_reads_back(o, rec, rest);
}

/// Zeros are taken for the end.
proof fn lemma_zeros_end(o: ByteOrder, n: int)
    requires
        0 <= n,
    ensures
        records_end(o, zeros(n)),
{
    if n >= LOG_HEAD_SIZE {
        lemma_u64_zero(o, zeros(n), 0);
        lemma_u64_zero(o, zeros(n), 8);
    }
}

// ---------------------------------------------------------------------------------------------
// Sequences of records
// ---------------------------------------------------------------------------------------------

/// Records, one after the other.
pub open spec fn encoded(o: ByteOrder, recs: Seq<Record>) -> Seq<u8>
    decreases recs.len(),
{
    if recs.len() == 0 {
        Seq::empty()
    } else {
        recs[0].bytes(o) + encoded(o, recs.skip(1))
    }
}

pub proof fn lemma_encoded_push(o: ByteOrder, recs: Seq<Record>, rec: Record)
    ensures
        encoded(o, recs.push(rec)) == encoded(o, recs) + rec.bytes(o),
    decreases recs.len(),
{
    if recs.len() == 0 {
        assert(recs.push(rec).skip(1) =~= Seq::empty());
        assert(encoded(o, Seq::empty()) =~= Seq::empty());
        assert(encoded(o, recs.push(rec)) =~= encoded(o, recs) + rec.bytes(o));
    } else {
        lemma_encoded_push(o, recs.skip(1), rec);
        assert(recs.push(rec).skip(1) =~= recs.skip(1).push(rec));
        assert(encoded(o, recs.push(rec)) =~= encoded(o, recs) + rec.bytes(o));
    }
}

/// The state after all of these records, or why one of them does not belong there.
pub open spec fn absorb_all(st: ReadState, recs: Seq<Record>) -> Result<ReadState, ErrorView>
    decreases recs.len(),
{
    if recs.len() == 0 {
        Ok(st)
    } else {
        match absorb(st, recs[0]) {
            Ok(next) => absorb_all(next, recs.skip(1)),
            Err(e) => Err(e),
        }
    }
}

pub proof fn lemma_absorb_concat(st: ReadState, a: Seq<Record>, b: Seq<Record>)
    ensures
        absorb_all(st, a + b) == (match absorb_all(st, a) {
            Ok(s) => absorb_all(s, b),
            Err(e) => Err(e),
        }),
    decreases a.len(),
{
    if a.len() == 0 {
        assert(a + b =~= b);
    } else {
        assert((a + b).skip(1) =~= a.skip(1) + b);
        match absorb(st, a[0]) {
            Ok(next) => lemma_absorb_concat(next, a.skip(1), b),
            Err(_) => {},
        }
    }
}

/// `st` with entries in front.
pub open spec fn behind(pre: Seq<Entry>, st: ReadState) -> ReadState {
    ReadState { entries: pre + st.entries, ..st }
}

/// The entries that are already there do not matter.
pub proof fn lemma_absorb_behind(pre: Seq<Entry>, st: ReadState, recs: Seq<Record>)
    ensures
        absorb_all(behind(pre, st), recs) == (match absorb_all(st, recs) {
            Ok(s) => Ok(behind(pre, s)),
            Err(e) => Err(e),
        }),
    decreases recs.len(),
{
    if recs.len() > 0 {
        match absorb(st, recs[0]) {
            Ok(next) => {
                assert(absorb(behind(pre, st), recs[0])->Ok_0 =~= behind(pre, next));
                lemma_absorb_behind(pre, next, recs.skip(1));
            },
            Err(_) => {},
        }
    }
}

/// What the records of a block are like: each has a length that its length field can hold, only
/// the first may continue an entry, and those behind the first have an LSN other than zero.
pub open spec fn block_records(recs: Seq<Record>) -> bool {
    &&& forall|i: int| 0 <= i < recs.len() ==> (#[trigger] recs[i]).payload.len() <= u32::MAX
    &&& forall|i: int|
        0 < i < recs.len() ==> ((#[trigger] recs[i]).fullness is Full || recs[i].fullness is First)
            && recs[i].lsn > 0
}

/// A block is read as the records in it.
pub proof fn lemma_parse_records(o: ByteOrder, st: ReadState, recs: Seq<Record>, pad: int)
    requires
        recs.len() > 0,
        0 <= pad,
        block_records(recs),
        absorb_all(st, recs) is Ok,
    ensures
        parse_records(o, st, encoded(o, recs) + zeros(pad)) == (
            absorb_all(st, recs)->Ok_0,
            None::<ErrorView>,
        ),
    decreases recs.len(),
{
    let src = encoded(o, recs) + zeros(pad);
    let tail = encoded(o, recs.skip(1)) + zeros(pad);
    assert(src =~= recs[0].bytes(o) + tail);
    law_record_reads_back(o, recs[0], tail);
    let next = absorb(st, recs[0])->Ok_0;
    if recs.len() == 1 {
        assert(tail =~= zeros(pad));
        lemma_zeros_end(o, pad);
        assert(absorb_all(next, recs.skip(1)) == Ok::<ReadState, ErrorView>(next));
    } else {
        let rest = recs.skip(1);
        assert forall|i: int| 0 <= i < rest.len() implies (#[trigger] rest[i]) == recs[i + 1] by {}
        assert(rest[0] == recs[1]);
        assert(tail =~= rest[0].bytes(o) + (encoded(o, rest.skip(1)) + zeros(pad)));
        lemma_not_end(o, rest[0], encoded(o, rest.skip(1)) + zeros(pad));
        lemma_parse_records(o, next, rest, pad);
    }
}

/// A block is read as the records in it when a replay starts with the first of them.
pub proof fn lemma_parse_from_here(
    o: ByteOrder,
    start_lsn: u64,
    st: ReadState,
    recs: Seq<Record>,
    pad: int,
)
    requires
        recs.len() > 0,
        0 <= pad,
        block_records(recs),
        recs[0].fullness is Full || recs[0].fullness is First,
        forall|i: int| 0 <= i < recs.len() ==> start_lsn <= (#[trigger] recs[i]).lsn,
        absorb_all(st, recs) is Ok,
    ensures
        parse_from(o, start_lsn, st, encoded(o, recs) + zeros(pad)) == (
            absorb_all(st, recs)->Ok_0,
            None::<ErrorView>,
        ),
    decreases recs.len(),
{
    let src = encoded(o, recs) + zeros(pad);
    let tail = encoded(o, recs.skip(1)) + zeros(pad);
    assert(src =~= recs[0].bytes(o) + tail);
    law_record_reads_back(o, recs[0], tail);
    let next = absorb(st, recs[0])->Ok_0;
    assert(Seq::<u8>::empty() + recs[0].payload =~= recs[0].payload);
    assert(absorb_first(st, recs[0]) == absorb(st, recs[0]));
    if recs.len() == 1 {
        assert(tail =~= zeros(pad));
        lemma_zeros_end(o, pad);
        assert(absorb_all(next, recs.skip(1)) == Ok::<ReadState, ErrorView>(next));
    } else {
        let rest = recs.skip(1);
        assert forall|i: int| 0 <= i < rest.len() implies (#[trigger] rest[i]) == recs[i + 1] by {}
        assert(rest[0] == recs[1]);
        assert(tail =~= rest[0].bytes(o) + (encoded(o, rest.skip(1)) + zeros(pad)));
        lemma_not_end(o, rest[0], encoded(o, rest.skip(1)) + zeros(pad));
        lemma_parse_from_here(o, start_lsn, next, rest, pad);
    }
}

/// A block is read as the records from a certain one on when a replay starts with that one.
pub proof fn lemma_parse_from(
    o: ByteOrder,
    start_lsn: u64,
    st: ReadState,
    recs: Seq<Record>,
    k: int,
    pad: int,
)
    requires
        0 <= k < recs.len(),
        0 <= pad,
        block_records(recs),
        recs[k].fullness is Full || recs[k].fullness is First,
        forall|i: int| 0 <= i < k ==> (#[trigger] recs[i]).lsn < start_lsn,
        forall|i: int| k <= i < recs.len() ==> start_lsn <= (#[trigger] recs[i]).lsn,
        absorb_all(st, recs.skip(k)) is Ok,
    ensures
        parse_from(o, start_lsn, st, encoded(o, recs) + zeros(pad)) == (
            absorb_all(st, recs.skip(k))->Ok_0,
            None::<ErrorView>,
        ),
    decreases k,
{
    if k == 0 {
        assert(recs.skip(0) =~= recs);
        lemma_parse_from_here(o, start_lsn, st, recs, pad);
    } else {
        let src = encoded(o, recs) + zeros(pad);
        let tail = encoded(o, recs.skip(1)) + zeros(pad);
        let rest = recs.skip(1);
        assert(src =~= recs[0].bytes(o) + tail);
        law_record_reads_back(o, recs[0], tail);
        assert forall|i: int| 0 <= i < rest.len() implies (#[trigger] rest[i]) == recs[i + 1] by {}
        assert(rest.skip(k - 1) =~= recs.skip(k));
        lemma_parse_from(o, start_lsn, st, rest, k - 1, pad);
    }
}

// ---------------------------------------------------------------------------------------------
// Blocks
// ---------------------------------------------------------------------------------------------

/// Completing the header of a block keeps what stands before the block and the records in it, and
/// the header then reads back as it was meant.
pub proof fn law_header_reads_back(
    o: ByteOrder,
    before: Seq<u8>,
    min_lsn: u64,
    max_lsn: u64,
    whole_min_lsn: u64,
    body: Seq<u8>,
)
    ensures
        ({
            let buf = before + open_header(o, min_lsn) + body;
            let sealed = sealed_block(o, buf, before.len() as int, max_lsn, whole_min_lsn);
            let block = sealed.skip(before.len() as int);
            &&& sealed.len() == buf.len()
            &&& sealed.take(before.len() as int) == before
            &&& decode_header(o, block) == Ok::<Header, ErrorView>(
                Header { min_lsn, max_lsn, whole_min_lsn },
            )
            &&& block.skip(BLOCK_HEAD_SIZE as int) == body
        }),
{
    lemma_bytes_len(o);
    let n = before.len() as int;
    let buf = before + open_header(o, min_lsn) + body;
    let b1 = overwritten(buf, n + 16, u64_bytes(o, max_lsn));
    let b2 = overwritten(b1, n + 24, u64_bytes(o, whole_min_lsn));
    let crc = crc32c_of(b2.subrange(n + 4, n + BLOCK_HEAD_SIZE));
    let sealed = overwritten(b2, n, u32_bytes(o, crc));
    let block = sealed.skip(n);
    let h = open_header(o, min_lsn);
    assert(h.subrange(0, 8) =~= u64_bytes(o, 0));
    assert(sealed == sealed_block(o, buf, n, max_lsn, whole_min_lsn));
    assert(sealed.take(n) =~= before);
    assert(block.skip(BLOCK_HEAD_SIZE as int) =~= body);
    assert(block.subrange(0, 4) =~= u32_bytes(o, crc));
    assert(block.subrange(8, 16) =~= u64_bytes(o, min_lsn));
    assert(block.subrange(16, 24) =~= u64_bytes(o, max_lsn));
    assert(block.subrange(24, 32) =~= u64_bytes(o, whole_min_lsn));
    assert(block.subrange(4, 32) =~= b2.subrange(n + 4, n + 32));
    assert(block.subrange(4, 8) =~= u64_bytes(o, 0).subrange(4, 8));
    lemma_u64_bytes_zero(o);
    assert(block[4] == block.subrange(4, 8)[0]);
    assert(block[5] == block.subrange(4, 8)[1]);
    assert(block[6] == block.subrange(4, 8)[2]);
    assert(block[7] == block.subrange(4, 8)[3]);
    law_u32_reads_back(o, block, 0, crc);
    law_u64_reads_back(o, block, 8, min_lsn);
    law_u64_reads_back(o, block, 16, max_lsn);
    law_u64_reads_back(o, block, 24, whole_min_lsn);
}

proof fn lemma_u64_bytes_zero(o: ByteOrder)
    ensures
        u64_bytes(o, 0) == zeros(8),
{
    assert(0u64 >> 8 == 0 && 0u64 >> 16 == 0 && 0u64 >> 24 == 0 && 0u64 >> 32 == 0 && 0u64 >> 40
        == 0 && 0u64 >> 48 == 0 && 0u64 >> 56 == 0) by (bit_vector);
    assert(u64_bytes(o, 0) =~= zeros(8));
}

/// A manifest entry that was written is read back, whatever follows it.
pub proof fn law_mani_entry_reads_back(o: ByteOrder, min_lsn: u64, rest: Seq<u8>)
    ensures
        mani_entry(o, min_lsn).len() == MANI_ENTRY_SIZE,
        decode_mani(o, mani_entry(o, min_lsn) + rest) == Ok::<u64, ErrorView>(min_lsn),
        mani_consumed(o, mani_entry(o, min_lsn) + rest) == MANI_ENTRY_SIZE,
{
    lemma_bytes_len(o);
    let whole = Seq::<u8>::empty() + u64_bytes(o, 0) + u64_bytes(o, min_lsn);
    let e = mani_entry(o, min_lsn);
    let s = e + rest;
    let crc = crc32c_of(whole.skip(4));
    assert(s.subrange(0, 4) =~= u32_bytes(o, crc));
    assert(s.subrange(8, 16) =~= u64_bytes(o, min_lsn));
    assert(s.subrange(4, 16) =~= whole.skip(4));
    law_u32_reads_back(o, s, 0, crc);
    law_u64_reads_back(o, s, 8, min_lsn);
}

/// Whether a block of `bs` bytes is complete and holds exactly these records.
pub open spec fn block_holds(o: ByteOrder, bs: int, block: Seq<u8>, recs: Seq<Record>) -> bool {
    let used = BLOCK_HEAD_SIZE + encoded(o, recs).len();
    &&& block.len() == bs
    &&& recs.len() > 0
    &&& block_records(recs)
    &&& decode_header(o, block) matches Ok(h) && h.min_lsn == recs[0].lsn && h.max_lsn
        == recs.last().lsn
    &&& used <= bs
    &&& block.skip(BLOCK_HEAD_SIZE as int) == encoded(o, recs) + zeros(bs - used)
}

/// Several sequences, one after the other.
pub open spec fn flat<T>(parts: Seq<Seq<T>>) -> Seq<T>
    decreases parts.len(),
{
    if parts.len() == 0 {
        Seq::empty()
    } else {
        parts[0] + flat(parts.skip(1))
    }
}

/// Whether `bytes` are complete blocks that hold exactly these records.
pub open spec fn blocks_hold(
    o: ByteOrder,
    bs: int,
    bytes: Seq<u8>,
    blocks: Seq<Seq<Record>>,
) -> bool
    decreases blocks.len(),
{
    if blocks.len() == 0 {
        bytes.len() == 0
    } else {
        &&& bytes.len() >= bs
        &&& block_holds(o, bs, bytes.take(bs), blocks[0])
        &&& blocks_hold(o, bs, bytes.skip(bs), blocks.skip(1))
    }
}

pub proof fn lemma_flat_concat<T>(a: Seq<Seq<T>>, b: Seq<Seq<T>>)
    ensures
        flat(a + b) == flat(a) + flat(b),
    decreases a.len(),
{
    if a.len() == 0 {
        assert(a + b =~= b);
        assert(flat(a) + flat(b) =~= flat(b));
    } else {
        lemma_flat_concat(a.skip(1), b);
        assert((a + b).skip(1) =~= a.skip(1) + b);
        assert(flat(a + b) =~= flat(a) + flat(b));
    }
}

pub proof fn lemma_blocks_concat(
    o: ByteOrder,
    bs: int,
    x: Seq<u8>,
    a: Seq<Seq<Record>>,
    y: Seq<u8>,
    b: Seq<Seq<Record>>,
)
    requires
        0 < bs,
        blocks_hold(o, bs, x, a),
        blocks_hold(o, bs, y, b),
    ensures
        blocks_hold(o, bs, x + y, a + b),
    decreases a.len(),
{
    if a.len() == 0 {
        assert(a + b =~= b);
        assert(x + y =~= y);
    } else {
        lemma_blocks_concat(o, bs, x.skip(bs), a.skip(1), y, b);
        assert((a + b).skip(1) =~= a.skip(1) + b);
        assert((x + y).skip(bs) =~= x.skip(bs) + y);
        assert((x + y).take(bs) =~= x.take(bs));
    }
}

pub proof fn lemma_blocks_aligned(o: ByteOrder, bs: int, bytes: Seq<u8>, blocks: Seq<Seq<Record>>)
    requires
        0 < bs,
        blocks_hold(o, bs, bytes, blocks),
    ensures
        bytes.len() as int % bs == 0,
    decreases blocks.len(),
{
    if blocks.len() == 0 {
        vstd::arithmetic::div_mod::lemma_small_mod(0, bs as nat);
    } else {
        lemma_blocks_aligned(o, bs, bytes.skip(bs), blocks.skip(1));
        vstd::arithmetic::div_mod::lemma_mod_add_multiples_vanish(bytes.len() - bs, bs);
    }
}

pub proof fn lemma_one_block(o: ByteOrder, bs: int, block: Seq<u8>, recs: Seq<Record>)
    requires
        0 < bs,
        block_holds(o, bs, block, recs),
    ensures
        blocks_hold(o, bs, block, seq![recs]),
        flat(seq![recs]) == recs,
{
    let one = seq![recs];
    assert(block.take(bs) =~= block);
    assert(one.skip(1) =~= Seq::empty());
    assert(blocks_hold(o, bs, block.skip(bs), one.skip(1)));
    assert(flat(one.skip(1)) =~= Seq::empty());
    assert(flat(one) =~= recs);
}

// ---------------------------------------------------------------------------------------------
// Entries
// ---------------------------------------------------------------------------------------------

/// Nothing has been read yet.
pub open spec fn nothing_read() -> ReadState {
    ReadState { entries: Seq::empty(), mid: None }
}

/// How many entries have been begun.
pub open spec fn begun_entries(st: ReadState) -> int {
    st.entries.len() + (if st.mid is Some {
        1int
    } else {
        0
    })
}

/// Whether records, read in the state `st`, belong to entries with consecutive LSNs, the first of
/// which is `base`, and no entry begins before the one before it ends.
pub open spec fn lines_up(st: ReadState, base: int, recs: Seq<Record>) -> bool
    decreases recs.len(),
{
    recs.len() > 0 ==> {
        &&& recs[0].lsn == base + st.entries.len()
        &&& recs[0].fullness is Full || recs[0].fullness is First ==> st.mid is None
        &&& absorb(st, recs[0]) is Ok
        &&& lines_up(absorb(st, recs[0])->Ok_0, base, recs.skip(1))
    }
}

pub proof fn lemma_lines_up_ok(st: ReadState, base: int, recs: Seq<Record>)
    requires
        lines_up(st, base, recs),
    ensures
        absorb_all(st, recs) is Ok,
        absorb_all(st, recs)->Ok_0.entries.len() >= st.entries.len(),
        recs.len() > 0 ==> recs.last().lsn == base + begun_entries(absorb_all(st, recs)->Ok_0) - 1,
        begun_entries(absorb_all(st, recs)->Ok_0) >= begun_entries(st),
        forall|i: int|
            0 <= i < recs.len() ==> (#[trigger] recs[i]).lsn >= base + st.entries.len(),
    decreases recs.len(),
{
    if recs.len() > 0 {
        let next = absorb(st, recs[0])->Ok_0;
        lemma_lines_up_ok(next, base, recs.skip(1));
        if recs.len() > 1 {
            assert(recs.skip(1).last() == recs.last());
        } else {
            assert(absorb_all(next, recs.skip(1)) == Ok::<ReadState, ErrorView>(next));
        }
        assert forall|i: int| 0 <= i < recs.len() implies (#[trigger] recs[i]).lsn >= base
            + st.entries.len() by {
            if i > 0 {
                assert(recs.skip(1)[i - 1] == recs[i]);
            }
        }
    }
}

pub proof fn lemma_lines_up_concat(st: ReadState, base: int, a: Seq<Record>, b: Seq<Record>)
    ensures
        lines_up(st, base, a + b) <==> lines_up(st, base, a) && lines_up(
            absorb_all(st, a)->Ok_0,
            base,
            b,
        ),
    decreases a.len(),
{
    if a.len() == 0 {
        assert(a + b =~= b);
    } else {
        assert((a + b).skip(1) =~= a.skip(1) + b);
        if absorb(st, a[0]) is Ok {
            lemma_lines_up_concat(absorb(st, a[0])->Ok_0, base, a.skip(1), b);
        }
    }
}

/// Where in a block the entry with the LSN `base + m` begins, when it does.
pub proof fn lemma_find_entry(st: ReadState, base: int, recs: Seq<Record>, m: int) -> (k: int)
    requires
        lines_up(st, base, recs),
        begun_entries(st) <= m < begun_entries(absorb_all(st, recs)->Ok_0),
    ensures
        0 <= k < recs.len(),
        forall|i: int| 0 <= i < k ==> (#[trigger] recs[i]).lsn < base + m,
        forall|i: int| k <= i < recs.len() ==> (#[trigger] recs[i]).lsn >= base + m,
        recs[k].fullness is Full || recs[k].fullness is First,
        absorb_all(st, recs.take(k)) is Ok,
        ({
            let s = absorb_all(st, recs.take(k))->Ok_0;
            &&& s.entries.len() == m
            &&& s.mid is None
            &&& lines_up(s, base, recs.skip(k))
        }),
    decreases recs.len(),
{
    let next = absorb(st, recs[0])->Ok_0;
    if begun_entries(next) <= m {
        let rest = recs.skip(1);
        let j = lemma_find_entry(next, base, rest, m);
        assert forall|i: int| 0 <= i < rest.len() implies (#[trigger] rest[i]) == recs[i + 1] by {}
        assert forall|i: int| 0 <= i < j + 1 implies (#[trigger] recs[i]).lsn < base + m by {
            if i > 0 {
                assert(rest[i - 1] == recs[i]);
            }
        }
        assert forall|i: int| j + 1 <= i < recs.len() implies (#[trigger] recs[i]).lsn >= base
            + m by {
            assert(rest[i - 1] == recs[i]);
        }
        assert(recs.take(j + 1).skip(1) =~= rest.take(j));
        assert(rest.skip(j) =~= recs.skip(j + 1));
        assert(recs.take(j + 1)[0] == recs[0]);
        j + 1
    } else {
        lemma_lines_up_ok(st, base, recs);
        assert(recs.take(0) =~= Seq::empty());
        assert(recs.skip(0) =~= recs);
        0
    }
}

/// Where the parts of a record, of an open header and of a manifest entry stand.
pub proof fn law_parts_on_disk(o: ByteOrder, rec: Record, lsn: u64)
    requires
        rec.payload.len() <= u32::MAX,
    ensures
        ({
            let b = rec.bytes(o);
            &&& b.len() == 20 + rec.payload.len()
            &&& u32_at(o, b, 0) == crc32c_of(b.skip(4))
            &&& u32_at(o, b, 4) == rec.payload.len()
            &&& u64_at(o, b, 8) == rec.lsn
            &&& b[16] == 0 && b[17] == rec.fullness.code() && b[18] == 0 && b[19] == 0
            &&& b.skip(20) == rec.payload
        }),
        ({
            let h = open_header(o, lsn);
            &&& h.len() == 32
            &&& h.subrange(0, 8) == zeros(8)
            &&& u64_at(o, h, 8) == lsn
            &&& h.subrange(16, 32) == zeros(16)
        }),
        ({
            let m = mani_entry(o, lsn);
            &&& m.len() == 16
            &&& u32_at(o, m, 0) == crc32c_of(m.skip(4))
            &&& m.subrange(4, 8) == zeros(4)
            &&& u64_at(o, m, 8) == lsn
        }),
{
    lemma_bytes_len(o);
    lemma_u64_bytes_zero(o);
    let b = rec.bytes(o);
    lemma_record_parts(o, rec);
    assert(b.skip(4) =~= rec.body(o));
    assert(b.skip(20) =~= rec.payload);
    law_u32_reads_back(o, b, 0, crc32c_of(rec.body(o)));
    law_u32_reads_back(o, b, 4, rec.payload.len() as u32);
    law_u64_reads_back(o, b, 8, rec.lsn);
    let h = open_header(o, lsn);
    assert(h.subrange(0, 8) =~= zeros(8));
    assert(h.subrange(8, 16) =~= u64_bytes(o, lsn));
    assert(h.subrange(16, 32) =~= zeros(16));
    law_u64_reads_back(o, h, 8, lsn);
    let whole = Seq::<u8>::empty() + u64_bytes(o, 0) + u64_bytes(o, lsn);
    let m = mani_entry(o, lsn);
    assert(m.skip(4) =~= whole.skip(4));
    assert(m.subrange(0, 4) =~= u32_bytes(o, crc32c_of(whole.skip(4))));
    assert(m.subrange(4, 8) =~= zeros(4));
    assert(m.subrange(8, 16) =~= u64_bytes(o, lsn));
    law_u32_reads_back(o, m, 0, crc32c_of(whole.skip(4)));
    law_u64_reads_back(o, m, 8, lsn);
}

/// A manifest entry is appended to what is there: sixteen bytes, the last eight of which hold the LSN. The
/// checksum in front of all is that of everything behind it.
pub proof fn law_mani_entry_is_appended(o: ByteOrder, buf: Seq<u8>, lsn: u64)
    ensures
        ({
            let n = buf.len() as int;
            let m = with_mani_entry(o, buf, lsn);
            &&& m.len() == n + 16
            &&& u32_at(o, m, 0) == crc32c_of(m.skip(4))
            &&& forall|j: int| 4 <= j < n ==> m[j] == buf[j]
            &&& forall|j: int| n <= j < n + 8 && j >= 4 ==> m[j] == 0
            &&& u64_at(o, m, n + 8) == lsn
        }),
{
    lemma_bytes_len(o);
    lemma_u64_bytes_zero(o);
    let n = buf.len() as int;
    let whole = buf + u64_bytes(o, 0) + u64_bytes(o, lsn);
    let m = with_mani_entry(o, buf, lsn);
    assert(m.skip(4) =~= whole.skip(4));
    assert(m.subrange(0, 4) =~= u32_bytes(o, crc32c_of(whole.skip(4))));
    assert forall|j: int| n <= j < n + 8 && j >= 4 implies m[j] == 0 by {
        assert(m[j] == whole[j]);
        assert(whole[j] == u64_bytes(o, 0)[j - n]);
    }
    assert(m.subrange(n + 8, n + 16) =~= u64_bytes(o, lsn));
    law_u32_reads_back(o, m, 0, crc32c_of(whole.skip(4)));
    law_u64_reads_back(o, m, n + 8, lsn);
}

} // verus!
