//! The rotations of the log's data. A rotation's name keeps the rotation's number and the LSN of
//! its first entry.
use crate::appender::RotNameProvider;
use crate::text::{
    decimal, has_prefix, law_decimal_keeps_order, law_decimal_reads_back, lemma_text_lt_after,
    lemma_pow10, lemma_text_lt_before, number, parse_number, push_decimal, starts_with, text_lt,
    texts,
};
use vstd::prelude::*;
use vstd::string::{StrSliceExecFns, StringExecFns};

verus! {

/// The name of a data rotation.
pub open spec fn data_rot_name(prefix: Seq<char>, rot_no: u32, lsn: u64) -> Seq<char> {
    prefix + decimal(rot_no as nat, 10) + seq!['.'] + decimal(lsn as nat, 20)
}

/// The number and the LSN in the name of a data rotation.
pub open spec fn data_rot_info(prefix: Seq<char>, name: Seq<char>) -> Option<(u32, u64)> {
    let tail = name.skip(prefix.len() as int);
    if has_prefix(name, prefix) && tail.len() == 31 && tail[10] == '.' {
        match (number(tail.take(10), u32::MAX as nat), number(tail.skip(11), u64::MAX as nat)) {
            (Some(rot_no), Some(lsn)) => Some((rot_no as u32, lsn as u64)),
            _ => None,
        }
    } else {
        None
    }
}

/// Whether a name is one that the log gives to a data rotation.
pub open spec fn is_generated(prefix: Seq<char>, name: Seq<char>) -> bool {
    match data_rot_info(prefix, name) {
        Some((rot_no, lsn)) => name == data_rot_name(prefix, rot_no, lsn),
        None => false,
    }
}

/// The name provider of the log's data.
pub struct WalDataRotNameProvider {
    pub prefix: String,
    /// The LSN of the first entry that the next rotation will hold.
    pub next_lsn: u64,
}

impl WalDataRotNameProvider {
    /// A provider for a log of which nothing has been flushed yet.
    pub fn new(prefix: &str) -> (r: Self)
        ensures
            r.prefix@ == prefix@,
            r.next_lsn == 1,
    {
        WalDataRotNameProvider { prefix: prefix.to_string(), next_lsn: 1 }
    }

    /// Notes that all entries up to `lsn` belong to the rotations that are there.
    pub fn set_flush_lsn(&mut self, lsn: u64)
        requires
            lsn < u64::MAX,
        ensures
            *final(self) == (WalDataRotNameProvider { next_lsn: (lsn + 1) as u64, ..*old(self) }),
    {
        self.next_lsn = lsn + 1;
    }

    /// Reads the number and the LSN off a name.
    pub fn parse_rot_name(&self, name: &str) -> (r: Option<(u32, u64)>)
        ensures
            r == data_rot_info(self.prefix@, name@),
    {
        if !starts_with(name, self.prefix.as_str()) {
            return None;
        }
        let from: usize = self.prefix.as_str().unicode_len();
        let to: usize = name.unicode_len();
        let tail = name.substring_char(from, to);
        assert(tail@ =~= name@.skip(self.prefix@.len() as int));
        if to - from != 31 || tail.get_char(10) != '.' {
            return None;
        }
        let head = tail.substring_char(0, 10);
        let rest = tail.substring_char(11, 31);
        assert(head@ =~= tail@.take(10));
        assert(rest@ =~= tail@.skip(11));
        match (parse_number(head, u32::MAX as u64), parse_number(rest, u64::MAX)) {
            (Some(rot_no), Some(lsn)) => Some((rot_no as u32, lsn)),
            _ => None,
        }
    }
}

impl RotNameProvider for WalDataRotNameProvider {
    open spec fn name_of(&self, rot_no: u32) -> Seq<char> {
        data_rot_name(self.prefix@, rot_no, self.next_lsn)
    }

    open spec fn is_rot(&self, name: Seq<char>) -> bool {
        data_rot_info(self.prefix@, name) is Some
    }

    open spec fn rot_no_of(&self, name: Seq<char>) -> Option<u32> {
        match data_rot_info(self.prefix@, name) {
            Some((rot_no, _)) => Some(rot_no),
            None => None,
        }
    }

    fn gen_rot_name(&self, rot_no: u32) -> (r: String) {
        proof {
            reveal_strlit(".");
        }
        let mut name = self.prefix.clone();
        push_decimal(&mut name, rot_no as u64, 10);
        name.append(".");
        push_decimal(&mut name, self.next_lsn, 20);
        assert("."@ =~= seq!['.']);
        name
    }

    fn accepts(&self, name: &str) -> (r: bool) {
        self.parse_rot_name(name).is_some()
    }

    fn parse_rot_no(&self, name: &str) -> (r: Option<u32>) {
        match self.parse_rot_name(name) {
            Some((rot_no, _)) => Some(rot_no),
            None => None,
        }
    }
}

/// The LSN in the name of a data rotation.
pub open spec fn lsn_of(prefix: Seq<char>, name: Seq<char>) -> u64 {
    data_rot_info(prefix, name).unwrap().1
}

/// How many of the first rotations hold only entries below `min_lsn`: each of them is followed by
/// one that starts at `min_lsn` or below.
pub open spec fn unused_rots(prefix: Seq<char>, names: Seq<Seq<char>>, min_lsn: u64) -> int
    decreases names.len(),
{
    if names.len() < 2 || lsn_of(prefix, names[1]) > min_lsn {
        0
    } else {
        1 + unused_rots(prefix, names.skip(1), min_lsn)
    }
}

/// The LSN at which the next rotation falls out of use, given how many already have.
pub open spec fn next_unused_lsn(prefix: Seq<char>, names: Seq<Seq<char>>, unused: int) -> u64 {
    if unused + 1 < names.len() {
        lsn_of(prefix, names[unused + 1])
    } else {
        u64::MAX
    }
}

/// Says how many of the first rotations are of no use any more, and at which smallest needed LSN
/// the next one will be.
pub fn no_use_rots(rnp: &WalDataRotNameProvider, names: &Vec<String>, min_lsn: u64) -> (r: (
    usize,
    u64,
))
    requires
        forall|i: int|
            0 <= i < names@.len() ==> data_rot_info(rnp.prefix@, #[trigger] texts(names@)[i])
                is Some,
    ensures
        r.0 == unused_rots(rnp.prefix@, texts(names@), min_lsn),
        r.0 == 0 || r.0 < names@.len(),
        r.1 == next_unused_lsn(rnp.prefix@, texts(names@), r.0 as int),
{
    let ghost all = texts(names@);
    let ghost prefix = rnp.prefix@;
    let mut idx: usize = 1;
    assert(all.skip(0) =~= all);
    while idx < names.len()
        invariant
            all == texts(names@),
            prefix == rnp.prefix@,
            1 <= idx,
            idx <= names@.len() || idx == 1,
            forall|i: int|
                0 <= i < names@.len() ==> data_rot_info(rnp.prefix@, #[trigger] all[i]) is Some,
            unused_rots(prefix, all, min_lsn) == idx - 1 + unused_rots(
                prefix,
                all.skip(idx - 1),
                min_lsn,
            ),
        decreases names@.len() - idx,
    {
        assert(all[idx as int] == names@[idx as int]@);
        assert(all.skip(idx - 1)[1] == all[idx as int]);
        let (_, lsn) = rnp.parse_rot_name(names[idx].as_str()).unwrap();
        if lsn > min_lsn {
            return (idx - 1, lsn);
        }
        assert(all.skip(idx - 1).skip(1) =~= all.skip(idx as int));
        idx += 1;
    }
    (idx - 1, u64::MAX)
}

/// The name of a data rotation gives back the number and the LSN it was made from.
pub proof fn law_data_rot_name_reads_back(prefix: Seq<char>, rot_no: u32, lsn: u64)
    ensures
        data_rot_info(prefix, data_rot_name(prefix, rot_no, lsn)) == Some((rot_no, lsn)),
{
    lemma_pow10();
    let a = decimal(rot_no as nat, 10);
    let b = decimal(lsn as nat, 20);
    law_decimal_reads_back(rot_no as nat, 10);
    law_decimal_reads_back(lsn as nat, 20);
    let name = data_rot_name(prefix, rot_no, lsn);
    let tail = name.skip(prefix.len() as int);
    assert(tail =~= a + seq!['.'] + b);
    assert(name.take(prefix.len() as int) =~= prefix);
    assert(tail.take(10) =~= a);
    assert(tail.skip(11) =~= b);
    assert(a[0] != '+' && b[0] != '+');
}

/// The names of data rotations are in the order of their numbers.
pub proof fn law_data_rot_names_keep_order(prefix: Seq<char>, m: u32, lsn_m: u64, n: u32, lsn_n: u64)
    requires
        m < n,
    ensures
        text_lt(data_rot_name(prefix, m, lsn_m), data_rot_name(prefix, n, lsn_n)),
{
    lemma_pow10();
    let a = decimal(m as nat, 10);
    let b = decimal(n as nat, 10);
    let x = seq!['.'] + decimal(lsn_m as nat, 20);
    let y = seq!['.'] + decimal(lsn_n as nat, 20);
    law_decimal_reads_back(m as nat, 10);
    law_decimal_reads_back(n as nat, 10);
    law_decimal_keeps_order(m as nat, n as nat, 10);
    lemma_text_lt_before(a, b, x, y);
    lemma_text_lt_after(prefix, a + x, b + y);
    assert(data_rot_name(prefix, m, lsn_m) =~= prefix + (a + x));
    assert(data_rot_name(prefix, n, lsn_n) =~= prefix + (b + y));
}

/// Just those rotations are of no use any more that hold only entries below the smallest needed LSN: up
/// to the last one that starts at that LSN or below, which is kept, as is everything behind it.
pub proof fn law_unused_rotations(prefix: Seq<char>, names: Seq<Seq<char>>, min_lsn: u64)
    ensures
        ({
            let k = unused_rots(prefix, names, min_lsn);
            &&& 0 <= k
            &&& names.len() > 0 ==> k < names.len()
            &&& forall|i: int| 1 <= i <= k ==> lsn_of(prefix, #[trigger] names[i]) <= min_lsn
            &&& k + 1 < names.len() ==> lsn_of(prefix, names[k + 1]) > min_lsn
        }),
    decreases names.len(),
{
    if names.len() >= 2 && lsn_of(prefix, names[1]) <= min_lsn {
        let rest = names.skip(1);
        law_unused_rotations(prefix, rest, min_lsn);
        let k = unused_rots(prefix, names, min_lsn);
        assert forall|i: int| 1 <= i <= k implies lsn_of(prefix, #[trigger] names[i])
            <= min_lsn by {
            if i > 1 {
                assert(rest[i - 1] == names[i]);
            }
        }
        if k + 1 < names.len() {
            assert(rest[k] == names[k + 1]);
        }
    }
}

/// What is reported of the rotations that are left is when the next one falls out of use: below that LSN
/// none of them does, and from it on one more does. The last one never does.
pub proof fn law_next_unused_rotation(
    prefix: Seq<char>,
    names: Seq<Seq<char>>,
    min_lsn: u64,
    later_lsn: u64,
)
    requires
        min_lsn <= later_lsn,
    ensures
        ({
            let k = unused_rots(prefix, names, min_lsn);
            let next = next_unused_lsn(prefix, names, k);
            &&& min_lsn < next || next == u64::MAX
            &&& k + 1 >= names.len() ==> next == u64::MAX
            &&& later_lsn < next ==> unused_rots(prefix, names, later_lsn) == k
            &&& later_lsn >= next && k + 1 < names.len() ==> unused_rots(prefix, names, later_lsn)
                > k
        }),
    decreases names.len(),
{
    law_unused_rotations(prefix, names, min_lsn);
    law_unused_rotations(prefix, names, later_lsn);
    let k = unused_rots(prefix, names, min_lsn);
    let m = unused_rots(prefix, names, later_lsn);
    if m < k {
        assert(lsn_of(prefix, names[m + 1]) <= min_lsn);
    }
    if m > k {
        assert(lsn_of(prefix, names[k + 1]) <= later_lsn);
    }
}

/// A name is that of a data rotation exactly if it consists of the prefix, ten characters that denote a
/// number of the range of rotation numbers, a dot, and twenty characters that denote an LSN. In the names
/// that the log gives, all of these characters are digits.
pub proof fn law_data_rot_names(
    prefix: Seq<char>,
    a: Seq<char>,
    dot: char,
    b: Seq<char>,
    name: Seq<char>,
)
    requires
        a.len() == 10,
        b.len() == 20,
    ensures
        data_rot_info(prefix, prefix + a + seq![dot] + b) is Some <==> {
            &&& dot == '.'
            &&& number(a, u32::MAX as nat) is Some
            &&& number(b, u64::MAX as nat) is Some
        },
        data_rot_info(prefix, prefix + a + seq!['.'] + b) matches Some((rot_no, lsn)) ==> {
            &&& number(a, u32::MAX as nat) == Some(rot_no as nat)
            &&& number(b, u64::MAX as nat) == Some(lsn as nat)
        },
        data_rot_info(prefix, name) is Some ==> {
            &&& name.len() == prefix.len() + 31
            &&& name.take(prefix.len() as int) == prefix
            &&& name[prefix.len() + 10int] == '.'
        },
        forall|rot_no: u32, lsn: u64| #[trigger]
            data_rot_name(prefix, rot_no, lsn).len() == prefix.len() + 31,
        forall|rot_no: u32, lsn: u64| #[trigger]
            data_rot_name(prefix, rot_no, lsn) == prefix + decimal(rot_no as nat, 10) + seq!['.']
                + decimal(lsn as nat, 20),
{
    let n = prefix.len() as int;
    let x = prefix + a + seq![dot] + b;
    let y = prefix + a + seq!['.'] + b;
    assert(x.take(n) =~= prefix);
    assert(y.take(n) =~= prefix);
    assert(x.skip(n).take(10) =~= a);
    assert(y.skip(n).take(10) =~= a);
    assert(x.skip(n)[10] == dot);
    assert(y.skip(n)[10] == '.');
    assert(x.skip(n).skip(11) =~= b);
    assert(y.skip(n).skip(11) =~= b);
    assert forall|rot_no: u32, lsn: u64| #[trigger]
        data_rot_name(prefix, rot_no, lsn).len() == prefix.len() + 31 by {
        lemma_pow10();
        law_decimal_reads_back(rot_no as nat, 10);
        law_decimal_reads_back(lsn as nat, 20);
    }
}

/// A provider gives the next rotation a name with the number that it is asked for and the LSN behind the
/// last one that was flushed. It reads back the numbers in such names, and takes no other file for a
/// rotation.
pub proof fn law_provider_names(p: WalDataRotNameProvider, rot_no: u32, name: Seq<char>)
    ensures
        data_rot_info(p.prefix@, p.name_of(rot_no)) == Some((rot_no, p.next_lsn)),
        p.is_rot(p.name_of(rot_no)),
        p.rot_no_of(p.name_of(rot_no)) == Some(rot_no),
        p.is_rot(name) <==> data_rot_info(p.prefix@, name) is Some,
        p.rot_no_of(name) == (match data_rot_info(p.prefix@, name) {
            Some((no, _)) => Some(no),
            None => None,
        }),
{
    law_data_rot_name_reads_back(p.prefix@, rot_no, p.next_lsn);
}

} // verus!
