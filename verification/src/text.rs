//! Decimal numbers and prefixes in file names.
use vstd::prelude::*;
use vstd::string::{StrSliceExecFns, StringExecFns};

verus! {

/// The digit of a number below ten.
pub open spec fn digit(d: nat) -> char {
    if d == 0 {
        '0'
    } else if d == 1 {
        '1'
    } else if d == 2 {
        '2'
    } else if d == 3 {
        '3'
    } else if d == 4 {
        '4'
    } else if d == 5 {
        '5'
    } else if d == 6 {
        '6'
    } else if d == 7 {
        '7'
    } else if d == 8 {
        '8'
    } else {
        '9'
    }
}

/// Whether a character is a decimal digit.
pub open spec fn is_digit(c: char) -> bool {
    '0' <= c && c <= '9'
}

/// What a digit counts.
pub open spec fn digit_value(c: char) -> nat {
    (c as nat - '0' as nat) as nat
}

/// The last `width` decimal digits of `n`, with leading zeros.
pub open spec fn decimal(n: nat, width: nat) -> Seq<char>
    decreases width,
{
    if width == 0 {
        Seq::empty()
    } else {
        decimal(n / 10, (width - 1) as nat).push(digit(n % 10))
    }
}

/// Whether `s` consists of digits only.
pub open spec fn all_digits(s: Seq<char>) -> bool {
    forall|i: int| 0 <= i < s.len() ==> is_digit(#[trigger] s[i])
}

/// The number that a sequence of digits denotes.
pub open spec fn value(s: Seq<char>) -> nat
    decreases s.len(),
{
    if s.len() == 0 {
        0
    } else {
        10 * value(s.drop_last()) + digit_value(s.last())
    }
}

/// `s` without a plus sign in front.
pub open spec fn unsigned(s: Seq<char>) -> Seq<char> {
    if s.len() > 0 && s[0] == '+' {
        s.skip(1)
    } else {
        s
    }
}

/// The number that a text denotes: digits, maybe after a plus sign, and no more than `max`.
pub open spec fn number(s: Seq<char>, max: nat) -> Option<nat> {
    let t = unsigned(s);
    if t.len() > 0 && all_digits(t) && value(t) <= max {
        Some(value(t))
    } else {
        None
    }
}

/// Whether `name` starts with `prefix`.
pub open spec fn has_prefix(name: Seq<char>, prefix: Seq<char>) -> bool {
    prefix.len() <= name.len() && name.take(prefix.len() as int) == prefix
}

/// Whether `a` comes before `b` in the order of texts: at the first place where they differ, `a`
/// has the smaller character or has ended.
pub open spec fn text_lt(a: Seq<char>, b: Seq<char>) -> bool {
    exists|k: int|
        {
            &&& 0 <= k <= a.len()
            &&& k < b.len()
            &&& #[trigger] a.take(k) == b.take(k)
            &&& k == a.len() || a[k] < b[k]
        }
}

/// The texts of a sequence of strings.
pub open spec fn texts(names: Seq<String>) -> Seq<Seq<char>> {
    names.map_values(|s: String| s@)
}

/// Whether no text is followed by one that comes before it.
pub open spec fn sorted(names: Seq<Seq<char>>) -> bool {
    forall|i: int, j: int|
        0 <= i < j < names.len() ==> !text_lt(#[trigger] names[j], #[trigger] names[i])
}

fn digit_text(d: u64) -> (s: &'static str)
    requires
        d < 10,
    ensures
        s@ == seq![digit(d as nat)],
{
    proof {
        reveal_strlit("0");
        reveal_strlit("1");
        reveal_strlit("2");
        reveal_strlit("3");
        reveal_strlit("4");
        reveal_strlit("5");
        reveal_strlit("6");
        reveal_strlit("7");
        reveal_strlit("8");
        reveal_strlit("9");
    }
    let s = match d {
        0 => "0",
        1 => "1",
        2 => "2",
        3 => "3",
        4 => "4",
        5 => "5",
        6 => "6",
        7 => "7",
        8 => "8",
        _ => "9",
    };
    assert(s@ =~= seq![digit(d as nat)]);
    s
}

/// Appends the last `width` decimal digits of `n`, with leading zeros.
pub fn push_decimal(s: &mut String, n: u64, width: usize)
    ensures
        final(s)@ == old(s)@ + decimal(n as nat, width as nat),
    decreases width,
{
    if width > 0 {
        push_decimal(s, n / 10, width - 1);
        s.append(digit_text(n % 10));
    }
    assert(s@ =~= old(s)@ + decimal(n as nat, width as nat));
}

/// Whether `name` starts with `prefix`.
pub fn starts_with(name: &str, prefix: &str) -> (r: bool)
    ensures
        r == has_prefix(name@, prefix@),
{
    let n: usize = prefix.unicode_len();
    if name.unicode_len() < n {
        return false;
    }
    let mut i: usize = 0;
    while i < n
        invariant
            n == prefix@.len(),
            i <= n <= name@.len(),
            forall|j: int| 0 <= j < i ==> name@[j] == prefix@[j],
        decreases n - i,
    {
        if name.get_char(i) != prefix.get_char(i) {
            assert(name@.take(n as int)[i as int] != prefix@[i as int]);
            return false;
        }
        i += 1;
    }
    assert(name@.take(n as int) =~= prefix@);
    true
}

/// Cutting digits off the end leaves a smaller number.
proof fn lemma_value_take(s: Seq<char>, i: int)
    requires
        0 <= i <= s.len(),
    ensures
        value(s.take(i)) <= value(s),
    decreases s.len(),
{
    if i < s.len() {
        lemma_value_take(s.drop_last(), i);
        assert(s.drop_last().take(i) =~= s.take(i));
    } else {
        assert(s.take(i) =~= s);
    }
}

/// Reads a number of at most `max`: digits, maybe after a plus sign.
pub fn parse_number(s: &str, max: u64) -> (r: Option<u64>)
    ensures
        match number(s@, max as nat) {
            Some(n) => r == Some(n as u64) && n <= max,
            None => r is None,
        },
{
    let len: usize = s.unicode_len();
    let mut from: usize = 0;
    if len > 0 && s.get_char(0) == '+' {
        from = 1;
    }
    let ghost t = unsigned(s@);
    assert(t =~= s@.skip(from as int));
    if from == len {
        return None;
    }
    let mut i: usize = from;
    let mut n: u64 = 0;
    while i < len
        invariant
            len == s@.len(),
            from <= i <= len,
            t == s@.skip(from as int),
            t == unsigned(s@),
            n == value(t.take(i - from)),
            n <= max,
            forall|j: int| 0 <= j < i - from ==> is_digit(#[trigger] t[j]),
        decreases len - i,
    {
        let c = s.get_char(i);
        assert(c == t[i - from]);
        if c < '0' || '9' < c {
            return None;
        }
        let d: u64 = (c as u32 - '0' as u32) as u64;
        proof {
            let p = t.take(i - from + 1);
            assert(p.drop_last() =~= t.take(i - from));
            assert(p.last() == c);
            lemma_value_take(t, i - from + 1);
        }
        if n > max / 10 {
            assert(10 * n + d > max);
            return None;
        }
        let m: u64 = n * 10;
        if d > max - m {
            return None;
        }
        n = m + d;
        i += 1;
    }
    assert(t.take(len - from) =~= t);
    Some(n)
}

/// A number below `10^width` reads back from its digits.
pub proof fn law_decimal_reads_back(n: nat, width: nat)
    requires
        n < pow10(width),
    ensures
        decimal(n, width).len() == width,
        all_digits(decimal(n, width)),
        value(decimal(n, width)) == n,
    decreases width,
{
    if width > 0 {
        let w = (width - 1) as nat;
        assert(n / 10 < pow10(w)) by {
            assert(pow10(width) == 10 * pow10(w));
        }
        law_decimal_reads_back(n / 10, w);
        let s = decimal(n / 10, w);
        let t = decimal(n, width);
        assert(t.drop_last() =~= s);
    }
}

/// Among numbers below `10^width`, the smaller one has the digits that come first.
pub proof fn law_decimal_keeps_order(n: nat, m: nat, width: nat)
    requires
        n < m < pow10(width),
    ensures
        text_lt(decimal(n, width), decimal(m, width)),
    decreases width,
{
    if width > 0 {
        let w = (width - 1) as nat;
        assert(pow10(width) == 10 * pow10(w));
        let a = decimal(n, width);
        let b = decimal(m, width);
        let p = decimal(n / 10, w);
        let q = decimal(m / 10, w);
        assert(n / 10 < pow10(w));
        assert(m / 10 < pow10(w));
        law_decimal_reads_back(n / 10, w);
        law_decimal_reads_back(m / 10, w);
        if n / 10 < m / 10 {
            law_decimal_keeps_order(n / 10, m / 10, w);
            let k = choose|k: int|
                {
                    &&& 0 <= k <= p.len()
                    &&& k < q.len()
                    &&& #[trigger] p.take(k) == q.take(k)
                    &&& k == p.len() || p[k] < q[k]
                };
            assert(a.take(k) =~= p.take(k));
            assert(b.take(k) =~= q.take(k));
            assert(a[k] == p[k] && b[k] == q[k]);
        } else {
            assert(n / 10 == m / 10);
            assert(a.take(w as int) =~= p);
            assert(b.take(w as int) =~= q);
            assert(a[w as int] == digit(n % 10));
            assert(b[w as int] == digit(m % 10));
        }
    }
}

/// What comes after a common beginning decides the order.
pub proof fn lemma_text_lt_after(p: Seq<char>, a: Seq<char>, b: Seq<char>)
    requires
        text_lt(a, b),
    ensures
        text_lt(p + a, p + b),
{
    let k = choose|k: int|
        {
            &&& 0 <= k <= a.len()
            &&& k < b.len()
            &&& #[trigger] a.take(k) == b.take(k)
            &&& k == a.len() || a[k] < b[k]
        };
    let n = p.len() as int;
    assert((p + a).take(n + k) =~= p + a.take(k));
    assert((p + b).take(n + k) =~= p + b.take(k));
    if k < a.len() {
        assert((p + a)[n + k] == a[k]);
    }
    assert((p + b)[n + k] == b[k]);
}

/// What follows does not matter where texts of equal length differ.
pub proof fn lemma_text_lt_before(a: Seq<char>, b: Seq<char>, x: Seq<char>, y: Seq<char>)
    requires
        text_lt(a, b),
        a.len() == b.len(),
    ensures
        text_lt(a + x, b + y),
{
    let k = choose|k: int|
        {
            &&& 0 <= k <= a.len()
            &&& k < b.len()
            &&& #[trigger] a.take(k) == b.take(k)
            &&& k == a.len() || a[k] < b[k]
        };
    assert((a + x).take(k) =~= a.take(k));
    assert((b + y).take(k) =~= b.take(k));
    assert((a + x)[k] == a[k] && (b + y)[k] == b[k]);
}

/// Ten to the power of `k`.
pub open spec fn pow10(k: nat) -> nat
    decreases k,
{
    if k == 0 {
        1
    } else {
        10 * pow10((k - 1) as nat)
    }
}

/// The powers that bound the numbers of ten and of twenty digits.
pub proof fn lemma_pow10()
    ensures
        pow10(10) == 10000000000,
        pow10(20) == 100000000000000000000,
{
    reveal_with_fuel(pow10, 21);
}

/// Texts that are strictly ascending are the only ascending arrangement of these texts.
pub proof fn lemma_ordered_once(x: Seq<Seq<char>>, y: Seq<Seq<char>>)
    requires
        forall|i: int, j: int|
            0 <= i < j < x.len() ==> text_lt(#[trigger] x[i], #[trigger] x[j]),
        sorted(y),
        x.to_multiset() == y.to_multiset(),
    ensures
        x == y,
    decreases x.len(),
{
    broadcast use vstd::seq_lib::group_to_multiset_ensures;

    assert(x.len() == x.to_multiset().len());
    assert(y.len() == y.to_multiset().len());
    if x.len() > 0 {
        assert(y.to_multiset().count(x[0]) > 0) by {
            assert(x.contains(x[0]));
        }
        assert(x.to_multiset().count(y[0]) > 0) by {
            assert(y.contains(y[0]));
        }
        let k = x.index_of(y[0]);
        let m = y.index_of(x[0]);
        assert(x[k] == y[0] && y[m] == x[0]);
        assert(x[0] == y[0]);
        let x1 = x.remove(0);
        let y1 = y.remove(0);
        assert forall|i: int, j: int| 0 <= i < j < x1.len() implies text_lt(
            #[trigger] x1[i],
            #[trigger] x1[j],
        ) by {
            assert(x1[i] == x[i + 1] && x1[j] == x[j + 1]);
        }
        assert(sorted(y1)) by {
            assert forall|i: int, j: int| 0 <= i < j < y1.len() implies !text_lt(
                #[trigger] y1[j],
                #[trigger] y1[i],
            ) by {
                assert(y1[i] == y[i + 1] && y1[j] == y[j + 1]);
            }
        }
        lemma_ordered_once(x1, y1);
        assert(x =~= seq![x[0]] + x1);
        assert(y =~= seq![y[0]] + y1);
    }
}

/// A text denotes a number exactly if it consists of at least one digit, maybe after a plus sign, and
/// the number is in the range that is asked for. Then it is the number that the digits denote.
pub proof fn law_number(t: Seq<char>, max: nat)
    requires
        t.len() > 0,
        t[0] != '+',
    ensures
        number(t, max) == number(seq!['+'] + t, max),
        number(t, max) is Some <==> value(t) <= max && forall|i: int|
            0 <= i < t.len() ==> '0' <= #[trigger] t[i] && t[i] <= '9',
        number(t, max) is Some ==> number(t, max) == Some(value(t)),
        number(Seq::empty(), max) is None,
        number(seq!['+'], max) is None,
        number(seq!['+', '+'] + t, max) is None,
{
    assert((seq!['+', '+'] + t).skip(1)[0] == '+');
    assert((seq!['+'] + t).skip(1) =~= t);
    assert(seq!['+'].skip(1) =~= Seq::<char>::empty());
}

/// A digit more makes ten times the number, and what the digit counts.
pub proof fn law_value_is_positional(s: Seq<char>, d: nat)
    requires
        d < 10,
    ensures
        value(s.push(digit(d))) == 10 * value(s) + d,
        value(Seq::empty()) == 0,
{
    assert(s.push(digit(d)).drop_last() =~= s);
}

/// A text starts with a prefix exactly if the prefix and something behind it make the text.
pub proof fn law_has_prefix(name: Seq<char>, prefix: Seq<char>, tail: Seq<char>)
    ensures
        has_prefix(prefix + tail, prefix),
        has_prefix(name, prefix) ==> name == prefix + name.skip(prefix.len() as int),
{
    assert((prefix + tail).take(prefix.len() as int) =~= prefix);
    if has_prefix(name, prefix) {
        assert(name =~= name.take(prefix.len() as int) + name.skip(prefix.len() as int));
    }
}

/// Of two different texts just one comes before the other: where they differ first, the characters
/// decide, and the shorter one comes first when it is the beginning of the other.
pub proof fn law_texts_are_ordered(p: Seq<char>, c: char, d: char, x: Seq<char>, y: Seq<char>)
    ensures
        c < d ==> text_lt(p.push(c) + x, p.push(d) + y) && !text_lt(p.push(d) + y, p.push(c) + x),
        text_lt(p, p.push(c) + x),
        !text_lt(p.push(c) + x, p),
        !text_lt(p, p),
{
    let n = p.len() as int;
    let a = p.push(c) + x;
    let b = p.push(d) + y;
    assert(a.take(n) =~= p);
    assert(b.take(n) =~= p);
    assert(p.take(n) =~= p);
    assert(a[n] == c && b[n] == d);
    if c < d && text_lt(b, a) {
        let k = choose|k: int|
            {
                &&& 0 <= k <= b.len()
                &&& k < a.len()
                &&& #[trigger] b.take(k) == a.take(k)
                &&& k == b.len() || b[k] < a[k]
            };
        if k < n {
            assert(a.take(n)[k] == b.take(n)[k]);
        } else if k > n {
            assert(a.take(k)[n] == b.take(k)[n]);
        }
    }
    if text_lt(a, p) {
        let k = choose|k: int|
            {
                &&& 0 <= k <= a.len()
                &&& k < p.len()
                &&& #[trigger] a.take(k) == p.take(k)
                &&& k == a.len() || a[k] < p[k]
            };
        assert(a.take(n)[k] == p[k]);
    }
}

} // verus!
