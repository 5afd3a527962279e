//! Integers as bytes, in either byte order.
use crate::outside::u16_to_ne_bytes;
use vstd::prelude::*;

verus! {

/// The order in which the bytes of an integer are laid out.
#[derive(Clone, Copy, Debug, PartialEq, Eq, Structural)]
pub enum ByteOrder {
    Little,
    Big,
}

/// The order of the machine that runs the program. It differs from machine to machine, so nothing is
/// known of it but that it stays the same.
pub open spec fn native_order() -> ByteOrder {
    match vstd::endian::endianness() {
        vstd::endian::Endian::Little => ByteOrder::Little,
        vstd::endian::Endian::Big => ByteOrder::Big,
    }
}

/// `s` with the bytes from position `i` on replaced by those of `t`.
pub open spec fn overwritten(s: Seq<u8>, i: int, t: Seq<u8>) -> Seq<u8> {
    s.take(i) + t + s.skip(i + t.len())
}

/// The bytes of a `u32`.
pub open spec fn u32_bytes(o: ByteOrder, n: u32) -> Seq<u8> {
    match o {
        ByteOrder::Little => seq![n as u8, (n >> 8) as u8, (n >> 16) as u8, (n >> 24) as u8],
        ByteOrder::Big => seq![(n >> 24) as u8, (n >> 16) as u8, (n >> 8) as u8, n as u8],
    }
}

/// The bytes of a `u64`.
pub open spec fn u64_bytes(o: ByteOrder, n: u64) -> Seq<u8> {
    match o {
        ByteOrder::Little => seq![
            n as u8,
            (n >> 8) as u8,
            (n >> 16) as u8,
            (n >> 24) as u8,
            (n >> 32) as u8,
            (n >> 40) as u8,
            (n >> 48) as u8,
            (n >> 56) as u8,
        ],
        ByteOrder::Big => seq![
            (n >> 56) as u8,
            (n >> 48) as u8,
            (n >> 40) as u8,
            (n >> 32) as u8,
            (n >> 24) as u8,
            (n >> 16) as u8,
            (n >> 8) as u8,
            n as u8,
        ],
    }
}

/// A `u32` from its bytes, the lowest first.
pub open spec fn u32_join(a: u8, b: u8, c: u8, d: u8) -> u32 {
    (a as u32) | (b as u32) << 8 | (c as u32) << 16 | (d as u32) << 24
}

/// A `u64` from its bytes, the lowest first.
pub open spec fn u64_join(a: u8, b: u8, c: u8, d: u8, e: u8, f: u8, g: u8, h: u8) -> u64 {
    (a as u64) | (b as u64) << 8 | (c as u64) << 16 | (d as u64) << 24 | (e as u64) << 32 | (
    f as u64) << 40 | (g as u64) << 48 | (h as u64) << 56
}

/// The `u32` that stands at position `i`.
pub open spec fn u32_at(o: ByteOrder, s: Seq<u8>, i: int) -> u32 {
    match o {
        ByteOrder::Little => u32_join(s[i], s[i + 1], s[i + 2], s[i + 3]),
        ByteOrder::Big => u32_join(s[i + 3], s[i + 2], s[i + 1], s[i]),
    }
}

/// The `u64` that stands at position `i`.
pub open spec fn u64_at(o: ByteOrder, s: Seq<u8>, i: int) -> u64 {
    match o {
        ByteOrder::Little => u64_join(
            s[i],
            s[i + 1],
            s[i + 2],
            s[i + 3],
            s[i + 4],
            s[i + 5],
            s[i + 6],
            s[i + 7],
        ),
        ByteOrder::Big => u64_join(
            s[i + 7],
            s[i + 6],
            s[i + 5],
            s[i + 4],
            s[i + 3],
            s[i + 2],
            s[i + 1],
            s[i],
        ),
    }
}

/// A `u32` reads back as it was written.
pub proof fn law_u32_reads_back(o: ByteOrder, s: Seq<u8>, i: int, n: u32)
    requires
        0 <= i,
        i + 4 <= s.len(),
        s.subrange(i, i + 4) == u32_bytes(o, n),
    ensures
        u32_at(o, s, i) == n,
{
    let t = s.subrange(i, i + 4);
    assert(t[0] == s[i] && t[1] == s[i + 1] && t[2] == s[i + 2] && t[3] == s[i + 3]);
    assert(((n as u8) as u32) | (((n >> 8) as u8) as u32) << 8 | (((n >> 16) as u8) as u32) << 16
        | (((n >> 24) as u8) as u32) << 24 == n) by (bit_vector);
}

/// A `u64` reads back as it was written.
pub proof fn law_u64_reads_back(o: ByteOrder, s: Seq<u8>, i: int, n: u64)
    requires
        0 <= i,
        i + 8 <= s.len(),
        s.subrange(i, i + 8) == u64_bytes(o, n),
    ensures
        u64_at(o, s, i) == n,
{
    let t = s.subrange(i, i + 8);
    assert(t[0] == s[i] && t[1] == s[i + 1] && t[2] == s[i + 2] && t[3] == s[i + 3] && t[4] == s[i
        + 4] && t[5] == s[i + 5] && t[6] == s[i + 6] && t[7] == s[i + 7]);
    assert(((n as u8) as u64) | (((n >> 8) as u8) as u64) << 8 | (((n >> 16) as u8) as u64) << 16
        | (((n >> 24) as u8) as u64) << 24 | (((n >> 32) as u8) as u64) << 32 | (((n >> 40)
        as u8) as u64) << 40 | (((n >> 48) as u8) as u64) << 48 | (((n >> 56) as u8) as u64) << 56
        == n) by (bit_vector);
}

/// Eight bytes read as zero exactly if they are all zero, whatever the order.
pub proof fn lemma_u64_zero(o: ByteOrder, s: Seq<u8>, i: int)
    ensures
        u64_at(o, s, i) == 0 <==> (s[i] == 0 && s[i + 1] == 0 && s[i + 2] == 0 && s[i + 3] == 0
            && s[i + 4] == 0 && s[i + 5] == 0 && s[i + 6] == 0 && s[i + 7] == 0),
{
    let (a, b, c, d) = (s[i], s[i + 1], s[i + 2], s[i + 3]);
    let (e, f, g, h) = (s[i + 4], s[i + 5], s[i + 6], s[i + 7]);
    assert((a as u64) | (b as u64) << 8 | (c as u64) << 16 | (d as u64) << 24 | (e as u64) << 32 | (
    f as u64) << 40 | (g as u64) << 48 | (h as u64) << 56 == 0 <==> (a == 0 && b == 0 && c == 0
        && d == 0 && e == 0 && f == 0 && g == 0 && h == 0)) by (bit_vector);
    assert((h as u64) | (g as u64) << 8 | (f as u64) << 16 | (e as u64) << 24 | (d as u64) << 32 | (
    c as u64) << 40 | (b as u64) << 48 | (a as u64) << 56 == 0 <==> (a == 0 && b == 0 && c == 0
        && d == 0 && e == 0 && f == 0 && g == 0 && h == 0)) by (bit_vector);
}

fn set_bytes(buf: &mut Vec<u8>, i: usize, t: &Vec<u8>)
    requires
        i + t@.len() <= old(buf)@.len(),
    ensures
        final(buf)@ == overwritten(old(buf)@, i as int, t@),
{
    let mut k: usize = 0;
    while k < t.len()
        invariant
            k <= t@.len(),
            i + t.len() <= buf.len(),
            buf@ == overwritten(old(buf)@, i as int, t@.take(k as int)),
            buf@.len() == old(buf)@.len(),
        decreases t@.len() - k,
    {
        let ghost before = buf@;
        buf.set(i + k, t[k]);
        proof {
            assert(buf@ =~= overwritten(old(buf)@, i as int, t@.take(k + 1)));
        }
        k += 1;
    }
    assert(t@.take(k as int) =~= t@);
}

impl ByteOrder {
    /// The order in which a machine that lays out the number one as `sample` stores its integers.
    pub fn of_sample(sample: &[u8; 2]) -> (o: ByteOrder)
        ensures
            o == (if sample@[0] == 1 {
                ByteOrder::Little
            } else {
                ByteOrder::Big
            }),
    {
        if sample[0] == 1 {
            ByteOrder::Little
        } else {
            ByteOrder::Big
        }
    }

    /// The order of the machine that runs the program.
    pub fn native() -> (o: ByteOrder)
        ensures
            o == native_order(),
    {
        let sample = u16_to_ne_bytes(1);
        assert(1u16 as u8 == 1 && (1u16 >> 8) as u8 == 0) by (bit_vector);
        ByteOrder::of_sample(&sample)
    }

    /// Replaces the four bytes at position `i` by those of a `u32`.
    pub fn set_u32(self, buf: &mut Vec<u8>, i: usize, n: u32)
        requires
            i + 4 <= old(buf)@.len(),
        ensures
            final(buf)@ == overwritten(old(buf)@, i as int, u32_bytes(self, n)),
    {
        let mut t: Vec<u8> = Vec::new();
        self.put_u32(&mut t, n);
        set_bytes(buf, i, &t);
    }

    /// Replaces the eight bytes at position `i` by those of a `u64`.
    pub fn set_u64(self, buf: &mut Vec<u8>, i: usize, n: u64)
        requires
            i + 8 <= old(buf)@.len(),
        ensures
            final(buf)@ == overwritten(old(buf)@, i as int, u64_bytes(self, n)),
    {
        let mut t: Vec<u8> = Vec::new();
        self.put_u64(&mut t, n);
        set_bytes(buf, i, &t);
    }

    /// Appends the bytes of a `u32`.
    pub fn put_u32(self, buf: &mut Vec<u8>, n: u32)
        ensures
            final(buf)@ == old(buf)@ + u32_bytes(self, n),
    {
        let a: u8 = #[verifier::truncate] (n as u8);
        let b: u8 = #[verifier::truncate] ((n >> 8) as u8);
        let c: u8 = #[verifier::truncate] ((n >> 16) as u8);
        let d: u8 = #[verifier::truncate] ((n >> 24) as u8);
        match self {
            ByteOrder::Little => {
                buf.push(a);
                buf.push(b);
                buf.push(c);
                buf.push(d);
            },
            ByteOrder::Big => {
                buf.push(d);
                buf.push(c);
                buf.push(b);
                buf.push(a);
            },
        }
        assert(buf@ =~= old(buf)@ + u32_bytes(self, n));
    }

    /// Appends the bytes of a `u64`.
    pub fn put_u64(self, buf: &mut Vec<u8>, n: u64)
        ensures
            final(buf)@ == old(buf)@ + u64_bytes(self, n),
    {
        let a: u8 = #[verifier::truncate] (n as u8);
        let b: u8 = #[verifier::truncate] ((n >> 8) as u8);
        let c: u8 = #[verifier::truncate] ((n >> 16) as u8);
        let d: u8 = #[verifier::truncate] ((n >> 24) as u8);
        let e: u8 = #[verifier::truncate] ((n >> 32) as u8);
        let f: u8 = #[verifier::truncate] ((n >> 40) as u8);
        let g: u8 = #[verifier::truncate] ((n >> 48) as u8);
        let h: u8 = #[verifier::truncate] ((n >> 56) as u8);
        match self {
            ByteOrder::Little => {
                buf.push(a);
                buf.push(b);
                buf.push(c);
                buf.push(d);
                buf.push(e);
                buf.push(f);
                buf.push(g);
                buf.push(h);
            },
            ByteOrder::Big => {
                buf.push(h);
                buf.push(g);
                buf.push(f);
                buf.push(e);
                buf.push(d);
                buf.push(c);
                buf.push(b);
                buf.push(a);
            },
        }
        assert(buf@ =~= old(buf)@ + u64_bytes(self, n));
    }

    /// Reads the `u32` at position `i`.
    pub fn get_u32(self, s: &[u8], i: usize) -> (n: u32)
        requires
            i + 4 <= s.len(),
        ensures
            n == u32_at(self, s@, i as int),
    {
        let (a, b, c, d) = match self {
            ByteOrder::Little => (s[i], s[i + 1], s[i + 2], s[i + 3]),
            ByteOrder::Big => (s[i + 3], s[i + 2], s[i + 1], s[i]),
        };
        (a as u32) | (b as u32) << 8 | (c as u32) << 16 | (d as u32) << 24
    }

    /// Reads the `u64` at position `i`.
    pub fn get_u64(self, s: &[u8], i: usize) -> (n: u64)
        requires
            i + 8 <= s.len(),
        ensures
            n == u64_at(self, s@, i as int),
    {
        let (a, b, c, d, e, f, g, h) = match self {
            ByteOrder::Little => (
                s[i],
                s[i + 1],
                s[i + 2],
                s[i + 3],
                s[i + 4],
                s[i + 5],
                s[i + 6],
                s[i + 7],
            ),
            ByteOrder::Big => (
                s[i + 7],
                s[i + 6],
                s[i + 5],
                s[i + 4],
                s[i + 3],
                s[i + 2],
                s[i + 1],
                s[i],
            ),
        };
        (a as u64) | (b as u64) << 8 | (c as u64) << 16 | (d as u64) << 24 | (e as u64) << 32 | (
        f as u64) << 40 | (g as u64) << 48 | (h as u64) << 56
    }
}

/// The bytes of a `u32` are its digits to the base 256, the lowest first in one order and the highest
/// first in the other.
pub proof fn law_u32_bytes_are_digits(n: u32)
    ensures
        u32_bytes(ByteOrder::Little, n).len() == 4,
        u32_bytes(ByteOrder::Big, n) == u32_bytes(ByteOrder::Little, n).reverse(),
        ({
            let b = u32_bytes(ByteOrder::Little, n);
            n == b[0] + 256 * b[1] + 65536 * b[2] + 16777216 * b[3]
        }),
{
    let (a, b, c, d) = (n as u8, (n >> 8) as u8, (n >> 16) as u8, (n >> 24) as u8);
    assert(n == (n as u8) + 256 * ((n >> 8) as u8) + 65536 * ((n >> 16) as u8) + 16777216 * ((n
        >> 24) as u8)) by (bit_vector);
    assert(u32_bytes(ByteOrder::Big, n) =~= u32_bytes(ByteOrder::Little, n).reverse());
}

/// The bytes of a `u64` are its digits to the base 256, the lowest first in one order and the highest
/// first in the other.
pub proof fn law_u64_bytes_are_digits(n: u64)
    ensures
        u64_bytes(ByteOrder::Little, n).len() == 8,
        u64_bytes(ByteOrder::Big, n) == u64_bytes(ByteOrder::Little, n).reverse(),
        ({
            let b = u64_bytes(ByteOrder::Little, n);
            n == b[0] + 0x100 * b[1] + 0x10000 * b[2] + 0x1000000 * b[3] + 0x100000000 * b[4]
                + 0x10000000000 * b[5] + 0x1000000000000 * b[6] + 0x100000000000000 * b[7]
        }),
{
    assert(n == (n as u8) + 0x100 * ((n >> 8) as u8) + 0x10000 * ((n >> 16) as u8) + 0x1000000 * ((n
        >> 24) as u8) + 0x100000000 * ((n >> 32) as u8) + 0x10000000000 * ((n >> 40) as u8)
        + 0x1000000000000 * ((n >> 48) as u8) + 0x100000000000000 * ((n >> 56) as u8))
        by (bit_vector);
    assert(u64_bytes(ByteOrder::Big, n) =~= u64_bytes(ByteOrder::Little, n).reverse());
}

/// Replacing bytes changes these bytes only.
pub proof fn law_overwriting_replaces(s: Seq<u8>, i: int, t: Seq<u8>, j: int)
    requires
        0 <= i,
        i + t.len() <= s.len(),
        0 <= j < s.len(),
    ensures
        overwritten(s, i, t).len() == s.len(),
        overwritten(s, i, t)[j] == (if i <= j < i + t.len() {
            t[j - i]
        } else {
            s[j]
        }),
{
}

/// The order of the machine is the one in which it lays out its integers.
pub proof fn law_native_order()
    ensures
        native_order() == ByteOrder::Little <==> vstd::endian::endianness()
            == vstd::endian::Endian::Little,
{
}

} // verus!
