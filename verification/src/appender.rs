//! An appender with rotation support. Payloads are persisted by appending, and a new rotation is
//! started when some condition is met (e.g. the rotation's size reaches a threshold).
//!
//! The types here keep the names, numbers and sizes, and decide; the files themselves are opened,
//! written and listed by the caller.
use crate::io::OpenOptions;
use crate::outside::sort_names;
use crate::text::{
    all_digits, decimal, has_prefix, law_decimal_keeps_order, law_decimal_reads_back, lemma_pow10,
    lemma_text_lt_after, number, parse_number, push_decimal, sorted, starts_with, text_lt, texts,
    value,
};
use crate::{Error, ErrorView};
use vstd::prelude::*;
use vstd::string::{StrSliceExecFns, StringExecFns};

verus! {

/// A provider of rotation names.
pub trait RotNameProvider: Sized {
    /// The name of the rotation whose number is `rot_no`.
    spec fn name_of(&self, rot_no: u32) -> Seq<char>;

    /// Whether a file of that name is a rotation.
    spec fn is_rot(&self, name: Seq<char>) -> bool;

    /// The rotation number in a name.
    spec fn rot_no_of(&self, name: Seq<char>) -> Option<u32>;

    /// Generates a rotation name for the rotation whose number is `rot_no`.
    fn gen_rot_name(&self, rot_no: u32) -> (r: String)
        ensures
            r@ == self.name_of(rot_no),
    ;

    /// Tells whether a file of that name is a rotation.
    fn accepts(&self, name: &str) -> (r: bool)
        ensures
            r == self.is_rot(name@),
    ;

    /// Reads the rotation number off a name.
    fn parse_rot_no(&self, name: &str) -> (r: Option<u32>)
        ensures
            r == self.rot_no_of(name@),
    ;

    /// Lists rotation names, in ascending order (the latest rotation is the last), given the names
    /// of all files in the directory.
    fn list_rot_names(&self, files: Vec<String>) -> (r: Vec<String>)
        ensures
            texts(r@).to_multiset() == texts(files@).filter(|n: Seq<char>| self.is_rot(n))
                .to_multiset(),
            sorted(texts(r@)),
            forall|i: int| 0 <= i < r@.len() ==> self.is_rot(#[trigger] texts(r@)[i]),
    {
        let mut names: Vec<String> = Vec::new();
        let mut i: usize = 0;
        proof {
            assert(texts(files@).take(0) =~= Seq::empty());
            reveal(Seq::filter);
            assert(texts(names@) =~= Seq::empty());
        }
        while i < files.len()
            invariant
                i <= files@.len(),
                texts(names@) == texts(files@).take(i as int).filter(
                    |n: Seq<char>| self.is_rot(n),
                ),
            decreases files@.len() - i,
        {
            proof {
                let all = texts(files@);
                assert(all.take(i + 1).drop_last() =~= all.take(i as int));
                assert(all.take(i + 1).last() == files@[i as int]@);
                reveal(Seq::filter);
            }
            if self.accepts(files[i].as_str()) {
                let ghost before = names@;
                names.push(files[i].clone());
                assert(texts(names@) =~= texts(before).push(files@[i as int]@));
            }
            i += 1;
        }
        assert(texts(files@).take(i as int) =~= texts(files@));
        sort_names(&mut names);
        proof {
            let pred = |n: Seq<char>| self.is_rot(n);
            let listed = texts(names@);
            assert forall|i: int| 0 <= i < names@.len() implies self.is_rot(
                #[trigger] listed[i],
            ) by {
                assert(listed.contains(listed[i]));
                lemma_listed(texts(files@), listed, pred, listed[i]);
            }
        }
        names
    }

    /// Restores the number and the name of the latest rotation, given the names of all files in
    /// the directory. If no rotation exists, `None` is returned.
    fn restore_latest_rot_info(&self, files: Vec<String>) -> (r: Result<
        Option<(u32, String)>,
        Error,
    >)
        ensures
            match r {
                Ok(None) => forall|n: Seq<char>|
                    texts(files@).contains(n) ==> !self.is_rot(n),
                Ok(Some((no, name))) => {
                    &&& self.rot_no_of(name@) == Some(no)
                    &&& texts(files@).contains(name@)
                    &&& self.is_rot(name@)
                    &&& forall|m: Seq<char>|
                        texts(files@).contains(m) && self.is_rot(m) ==> !text_lt(name@, m)
                },
                Err(e) => exists|n: Seq<char>|
                    {
                        &&& #[trigger] texts(files@).contains(n)
                        &&& self.is_rot(n)
                        &&& forall|m: Seq<char>|
                            texts(files@).contains(m) && self.is_rot(m) ==> !text_lt(n, m)
                        &&& self.rot_no_of(n) is None
                        &&& e@ == ErrorView::MiscError(unrestorable_text(n))
                    },
            },
    {
        let ghost all = texts(files@);
        let ghost pred = |n: Seq<char>| self.is_rot(n);
        let mut names = self.list_rot_names(files);
        let ghost listed = texts(names@);
        proof {
            assert forall|n: Seq<char>| listed.contains(n) <==> all.contains(n) && self.is_rot(
                n,
            ) by {
                lemma_listed(all, listed, pred, n);
            }
        }
        if names.len() == 0 {
            return Ok(None);
        }
        let last: usize = names.len() - 1;
        let name = names.remove(last);
        proof {
            assert(listed[last as int] == name@);
            assert(listed.contains(name@));
            assert forall|m: Seq<char>| all.contains(m) && self.is_rot(m) implies !text_lt(
                name@,
                m,
            ) by {
                assert(listed.contains(m));
                let k = listed.index_of(m);
                assert(listed[k] == m);
                if k == last {
                    lemma_text_lt_irreflexive(m);
                }
            }
        }
        match self.parse_rot_no(name.as_str()) {
            Some(no) => Ok(Some((no, name))),
            None => Err(Error::MiscError(unrestorable(name.as_str()))),
        }
    }
}

/// Whether `name` is the last of the rotations among `files`.
pub open spec fn is_latest<P: RotNameProvider>(p: P, files: Seq<Seq<char>>, name: Seq<char>) -> bool {
    &&& files.contains(name)
    &&& p.is_rot(name)
    &&& forall|m: Seq<char>| files.contains(m) && p.is_rot(m) ==> !text_lt(name, m)
}

/// A rotation that is behind all others is the latest one.
proof fn lemma_unrestorable<P: RotNameProvider>(p: P, files: Seq<Seq<char>>, e: ErrorView)
    requires
        exists|n: Seq<char>|
            {
                &&& #[trigger] files.contains(n)
                &&& p.is_rot(n)
                &&& forall|m: Seq<char>| files.contains(m) && p.is_rot(m) ==> !text_lt(n, m)
                &&& p.rot_no_of(n) is None
                &&& e == ErrorView::MiscError(unrestorable_text(n))
            },
    ensures
        exists|n: Seq<char>|
            {
                &&& #[trigger] is_latest(p, files, n)
                &&& p.rot_no_of(n) is None
                &&& e == ErrorView::MiscError(unrestorable_text(n))
            },
{
    let n = choose|n: Seq<char>|
        {
            &&& #[trigger] files.contains(n)
            &&& p.is_rot(n)
            &&& forall|m: Seq<char>| files.contains(m) && p.is_rot(m) ==> !text_lt(n, m)
            &&& p.rot_no_of(n) is None
            &&& e == ErrorView::MiscError(unrestorable_text(n))
        };
    assert(is_latest(p, files, n));
}

/// The message about a rotation whose name has no number.
pub open spec fn unrestorable_text(name: Seq<char>) -> Seq<char> {
    "Failed to restore rotation number from `"@ + name + "`"@
}

fn unrestorable(name: &str) -> (r: String)
    ensures
        r@ == unrestorable_text(name@),
{
    let mut s = String::from_str("Failed to restore rotation number from `");
    s.append(name);
    s.append("`");
    s
}

proof fn lemma_text_lt_irreflexive(a: Seq<char>)
    ensures
        !text_lt(a, a),
{
}

proof fn lemma_listed(
    files: Seq<Seq<char>>,
    listed: Seq<Seq<char>>,
    pred: spec_fn(Seq<char>) -> bool,
    n: Seq<char>,
)
    requires
        listed.to_multiset() == files.filter(pred).to_multiset(),
    ensures
        listed.contains(n) <==> files.contains(n) && pred(n),
{
    broadcast use {
        vstd::seq_lib::group_to_multiset_ensures,
        vstd::seq_lib::group_filter_ensures,
    };

    let kept = files.filter(pred);
    assert(listed.contains(n) <==> listed.to_multiset().count(n) > 0);
    assert(kept.contains(n) <==> kept.to_multiset().count(n) > 0);
    if kept.contains(n) {
        let i = kept.index_of(n);
        assert(pred(kept[i]));
        files.lemma_filter_contains_rev(pred, n);
    }
    if files.contains(n) && pred(n) {
        let i = files.index_of(n);
        assert(kept.contains(files[i]));
    }
}

/// The default rotation name provider. A rotation's name is a prefix followed by the rotation's
/// number.
pub struct DefaultRotNameProvider {
    pub prefix: String,
}

impl DefaultRotNameProvider {
    pub fn new(prefix: &str) -> (r: Self)
        ensures
            r.prefix@ == prefix@,
    {
        DefaultRotNameProvider { prefix: prefix.to_string() }
    }
}

impl RotNameProvider for DefaultRotNameProvider {
    open spec fn name_of(&self, rot_no: u32) -> Seq<char> {
        self.prefix@ + decimal(rot_no as nat, 10)
    }

    open spec fn is_rot(&self, name: Seq<char>) -> bool {
        has_prefix(name, self.prefix@)
    }

    open spec fn rot_no_of(&self, name: Seq<char>) -> Option<u32> {
        match number(name.skip(self.prefix@.len() as int), u32::MAX as nat) {
            Some(n) if has_prefix(name, self.prefix@) => Some(n as u32),
            _ => None,
        }
    }

    fn gen_rot_name(&self, rot_no: u32) -> (r: String) {
        let mut name = self.prefix.clone();
        push_decimal(&mut name, rot_no as u64, 10);
        name
    }

    fn accepts(&self, name: &str) -> (r: bool) {
        starts_with(name, self.prefix.as_str())
    }

    fn parse_rot_no(&self, name: &str) -> (r: Option<u32>) {
        if !starts_with(name, self.prefix.as_str()) {
            return None;
        }
        let from: usize = self.prefix.as_str().unicode_len();
        let to: usize = name.unicode_len();
        let sub = name.substring_char(from, to);
        assert(sub@ =~= name@.skip(self.prefix@.len() as int));
        match parse_number(sub, u32::MAX as u64) {
            Some(n) => Some(n as u32),
            None => None,
        }
    }
}

/// A rotator, which decides when an appender goes on to a new rotation.
pub trait Rotator: Sized {
    /// Whether a rotation of that size is to be followed by a new one.
    spec fn is_full(&self, rot_size: u64) -> bool;

    /// Tells whether the next appending needs a new rotation.
    ///
    /// Parameters:
    /// - `rot_size`: The existing size of the current rotation.
    fn needs_new_rot(&self, rot_size: u64) -> (r: bool)
        ensures
            r == self.is_full(rot_size),
    ;
}

/// The default [`Rotator`]: a rotation is full when its size has reached a threshold.
pub struct DefaultRotator<P: RotNameProvider> {
    pub latest_rot_name: Option<String>,
    pub cur_rot_no: u32,
    pub max_rot: u32,
    pub rot_size_max: u64,
    pub rnp: P,
}

/// The rotation that appending starts with.
pub struct FirstRot {
    pub name: String,
    /// Whether it was there before, so that its size counts.
    pub existing: bool,
}

/// What a switch to a new rotation takes.
pub struct NewRot {
    /// How many of the oldest rotations are to be removed first.
    pub remove: usize,
    /// The name of the new rotation.
    pub name: String,
    /// The number of the new rotation.
    pub rot_no: u32,
}

impl NewRot {
    /// The rotations after the switch.
    pub open spec fn performed_on(self, names: Seq<Seq<char>>) -> Seq<Seq<char>> {
        names.skip(self.remove as int).push(self.name@)
    }
}

/// The rotations after one more was added: the oldest ones go if there are too many.
pub open spec fn rots_after(max_rot: u32, names: Seq<Seq<char>>, new: Seq<char>) -> Seq<Seq<char>> {
    let all = names.push(new);
    if max_rot != 0 && all.len() > max_rot {
        all.skip(all.len() - max_rot)
    } else {
        all
    }
}

/// The rotations after several were added.
pub open spec fn rots_after_all(
    max_rot: u32,
    names: Seq<Seq<char>>,
    new: Seq<Seq<char>>,
) -> Seq<Seq<char>>
    decreases new.len(),
{
    if new.len() == 0 {
        names
    } else {
        rots_after(max_rot, rots_after_all(max_rot, names, new.drop_last()), new.last())
    }
}

/// Whatever rotations were there, as soon as one is added there are never more than allowed, and those
/// that are left are the latest ones.
pub proof fn law_rotations_are_bounded(
    max_rot: u32,
    names: Seq<Seq<char>>,
    new: Seq<Seq<char>>,
)
    requires
        max_rot > 0,
    ensures
        ({
            let all = names + new;
            let left = rots_after_all(max_rot, names, new);
            &&& new.len() > 0 ==> left.len() <= max_rot
            &&& left == all.skip(all.len() - left.len())
            &&& all.len() <= max_rot ==> left == all
            &&& all.len() >= max_rot ==> left.len() >= max_rot
        }),
    decreases new.len(),
{
    let all = names + new;
    if new.len() == 0 {
        assert(all =~= names);
        assert(all.skip(0) =~= names);
    } else {
        law_rotations_are_bounded(max_rot, names, new.drop_last());
        let before = names + new.drop_last();
        let b = rots_after_all(max_rot, names, new.drop_last());
        let left = rots_after_all(max_rot, names, new);
        assert(all =~= before.push(new.last()));
        assert(left =~= all.skip(all.len() - left.len()));
    }
}

impl<P: RotNameProvider> Rotator for DefaultRotator<P> {
    open spec fn is_full(&self, rot_size: u64) -> bool {
        rot_size >= self.rot_size_max
    }

    fn needs_new_rot(&self, rot_size: u64) -> (r: bool) {
        rot_size >= self.rot_size_max
    }
}

impl DefaultRotator<DefaultRotNameProvider> {
    /// Creates a rotator with the default names, given the names of all files in the directory.
    ///
    /// Parameters:
    /// - `prefix`: The rotation name prefix.
    /// - `max_rot`: The maximum number of rotations allowed. `0` indicates no limit.
    /// - `rot_size_max`: The rotation size threshold to decide to switch to a new rotation.
    pub fn new(prefix: &str, max_rot: u32, rot_size_max: u64, files: Vec<String>) -> (r: Result<
        Self,
        Error,
    >)
        ensures
            opened(
                max_rot,
                rot_size_max,
                |p: DefaultRotNameProvider| p.prefix@ == prefix@,
                texts(files@),
                r,
            ),
    {
        let rnp = DefaultRotNameProvider::new(prefix);
        let r = Self::with_rot_name_resolver(max_rot, rot_size_max, rnp, files);
        r
    }
}

/// What a rotator starts with, given the files that are there.
pub open spec fn opened<P: RotNameProvider>(
    max_rot: u32,
    rot_size_max: u64,
    rnp_ok: spec_fn(P) -> bool,
    files: Seq<Seq<char>>,
    r: Result<DefaultRotator<P>, Error>,
) -> bool {
    match r {
        Ok(rot) => {
            &&& rot.max_rot == max_rot
            &&& rot.rot_size_max == rot_size_max
            &&& rnp_ok(rot.rnp)
            &&& match rot.latest_rot_name {
                None => rot.cur_rot_no == 0 && forall|n: Seq<char>|
                    files.contains(n) ==> !rot.rnp.is_rot(n),
                Some(name) => is_latest(rot.rnp, files, name@) && rot.rnp.rot_no_of(name@) == Some(
                    rot.cur_rot_no,
                ),
            }
        },
        Err(e) => exists|p: P, n: Seq<char>|
            {
                &&& rnp_ok(p)
                &&& #[trigger] is_latest(p, files, n)
                &&& p.rot_no_of(n) is None
                &&& e@ == ErrorView::MiscError(unrestorable_text(n))
            },
    }
}

impl<P: RotNameProvider> DefaultRotator<P> {
    /// Creates a rotator with the names of a given [`RotNameProvider`], given the names of all
    /// files in the directory.
    ///
    /// Parameters:
    /// - `max_rot`: The maximum number of rotations allowed. `0` indicates no limit.
    /// - `rot_size_max`: The rotation size threshold to decide to switch to a new rotation.
    /// - `rnp`: The provided [`RotNameProvider`].
    pub fn with_rot_name_resolver(
        max_rot: u32,
        rot_size_max: u64,
        rnp: P,
        files: Vec<String>,
    ) -> (r: Result<Self, Error>)
        ensures
            opened(max_rot, rot_size_max, |p: P| p == rnp, texts(files@), r),
    {
        let mut out = DefaultRotator {
            latest_rot_name: None,
            cur_rot_no: 0,
            max_rot,
            rot_size_max,
            rnp,
        };
        let ghost all = texts(files@);
        let info = out.rnp.restore_latest_rot_info(files);
        match info {
            Ok(None) => Ok(out),
            Ok(Some((no, rot_name))) => {
                out.cur_rot_no = no;
                out.latest_rot_name = Some(rot_name);
                Ok(out)
            },
            Err(e) => {
                proof {
                    lemma_unrestorable(rnp, all, e@);
                }
                Err(e)
            },
        }
    }

    /// Finds the latest rotation that is there, given the names of all files in the directory.
    pub fn restore_latest_rot(&self, files: Vec<String>) -> (r: Result<Option<String>, Error>)
        ensures
            match r {
                Ok(None) => forall|n: Seq<char>|
                    texts(files@).contains(n) ==> !self.rnp.is_rot(n),
                Ok(Some(name)) => is_latest(self.rnp, texts(files@), name@) && self.rnp.rot_no_of(
                    name@,
                ) is Some,
                Err(e) => exists|n: Seq<char>|
                    {
                        &&& #[trigger] is_latest(self.rnp, texts(files@), n)
                        &&& self.rnp.rot_no_of(n) is None
                        &&& e@ == ErrorView::MiscError(unrestorable_text(n))
                    },
            },
    {
        let ghost all = texts(files@);
        match self.rnp.restore_latest_rot_info(files) {
            Ok(None) => Ok(None),
            Ok(Some((_, rot_name))) => Ok(Some(rot_name)),
            Err(e) => {
                proof {
                    lemma_unrestorable(self.rnp, all, e@);
                }
                Err(e)
            },
        }
    }

    /// Names the rotation that appending starts with: the latest one that was there, or the one
    /// with the current number. A second call starts with the current number.
    pub fn init_appending(&mut self) -> (first: FirstRot)
        ensures
            *final(self) == (DefaultRotator { latest_rot_name: None, ..*old(self) }),
            match old(self).latest_rot_name {
                Some(name) => first.existing && first.name@ == name@,
                None => !first.existing && first.name@ == old(self).rnp.name_of(
                    old(self).cur_rot_no,
                ),
            },
    {
        match self.latest_rot_name.take() {
            Some(name) => FirstRot { name, existing: true },
            None => FirstRot { name: self.rnp.gen_rot_name(self.cur_rot_no), existing: false },
        }
    }

    /// Says what a switch to a new rotation takes, given the rotations that are there.
    pub fn new_rot(&self, rot_names: &Vec<String>) -> (n: NewRot)
        requires
            self.cur_rot_no < u32::MAX,
        ensures
            n.rot_no == self.cur_rot_no + 1,
            n.name@ == self.rnp.name_of(n.rot_no),
            n.remove == (if self.max_rot != 0 && rot_names@.len() >= self.max_rot {
                rot_names@.len() + 1 - self.max_rot
            } else {
                0
            }),
            n.performed_on(texts(rot_names@)) == rots_after(
                self.max_rot,
                texts(rot_names@),
                n.name@,
            ),
    {
        let remove: usize = if self.max_rot != 0 && rot_names.len() >= self.max_rot as usize {
            rot_names.len() - (self.max_rot as usize - 1)
        } else {
            0
        };
        let rot_no: u32 = self.cur_rot_no + 1;
        let n = NewRot { remove, name: self.rnp.gen_rot_name(rot_no), rot_no };
        assert(n.performed_on(texts(rot_names@)) =~= rots_after(
            self.max_rot,
            texts(rot_names@),
            n.name@,
        ));
        n
    }

    /// Notes that the rotation with that number is the current one now.
    pub fn switched(&mut self, rot_no: u32)
        ensures
            *final(self) == (DefaultRotator { cur_rot_no: rot_no, ..*old(self) }),
    {
        self.cur_rot_no = rot_no;
    }

    /// How a rotation is opened for appending.
    pub fn write_options(direct_io: bool) -> (r: OpenOptions)
        ensures
            r == (OpenOptions {
                read: false,
                write: false,
                create: true,
                append: true,
                direct: direct_io,
            }),
    {
        OpenOptions::new().with_append(true).with_create(true).with_direct(direct_io)
    }

    /// How a rotation is opened for reading.
    pub fn read_options(direct_io: bool) -> (r: OpenOptions)
        ensures
            r == (OpenOptions {
                read: false,
                write: false,
                create: true,
                append: true,
                direct: direct_io,
            }),
    {
        OpenOptions::new().with_append(true).with_create(true).with_direct(direct_io)
    }
}

/// An appender with rotation support: it keeps the size of the current rotation.
pub struct RotAppender<R: Rotator> {
    pub direct_io: bool,
    pub esize: u64,
    pub rot: R,
}

impl<R: Rotator> RotAppender<R> {
    /// Creates an appender on a rotation whose size is `esize`.
    pub fn new(rot: R, direct_io: bool, esize: u64) -> (r: Self)
        ensures
            r == (RotAppender { direct_io, esize, rot }),
    {
        RotAppender { direct_io, esize, rot }
    }

    /// Notes that `asize` bytes were appended to the current rotation, and tells whether the
    /// appender has to switch to a new one now.
    ///
    /// Parameters:
    /// - `asize`: The size of the payload.
    /// - `rotatable`: Whether switching is allowed after this payload. Usually it's `true` but
    /// sometimes it's `false` for some reason (e.g. data integrity).
    pub fn append(&mut self, asize: u64, rotatable: bool) -> (new_rot: bool)
        requires
            old(self).esize + asize <= u64::MAX,
        ensures
            final(self).esize == old(self).esize + asize,
            final(self).rot == old(self).rot,
            final(self).direct_io == old(self).direct_io,
            new_rot == (rotatable && old(self).rot.is_full((old(self).esize + asize) as u64)),
    {
        self.esize = self.esize + asize;
        rotatable && self.rot.needs_new_rot(self.esize)
    }

    /// Notes that a new rotation, which is empty, is the current one.
    pub fn switched(&mut self)
        ensures
            *final(self) == (RotAppender { esize: 0, ..*old(self) }),
    {
        self.esize = 0;
    }

    /// Tells whether the next appending needs a new rotation.
    pub fn needs_new_rot(&self) -> (r: bool)
        ensures
            r == self.rot.is_full(self.esize),
    {
        self.rot.needs_new_rot(self.esize)
    }

    /// Gets a reference to the inner [`Rotator`].
    pub fn get_rotator(&self) -> (r: &R)
        ensures
            *r == self.rot,
    {
        &self.rot
    }
}

/// The default name of a rotation gives back the number it was made from.
pub proof fn law_default_rot_name_reads_back(p: DefaultRotNameProvider, rot_no: u32)
    ensures
        p.is_rot(p.name_of(rot_no)),
        p.rot_no_of(p.name_of(rot_no)) == Some(rot_no),
{
    lemma_pow10();
    let d = decimal(rot_no as nat, 10);
    let name = p.name_of(rot_no);
    law_decimal_reads_back(rot_no as nat, 10);
    assert(name.skip(p.prefix@.len() as int) =~= d);
    assert(name.take(p.prefix@.len() as int) =~= p.prefix@);
    assert(d[0] != '+');
}

/// The default names of rotations are in the order of their numbers.
pub proof fn law_default_rot_names_keep_order(p: DefaultRotNameProvider, m: u32, n: u32)
    requires
        m < n,
    ensures
        text_lt(p.name_of(m), p.name_of(n)),
{
    lemma_pow10();
    law_decimal_reads_back(m as nat, 10);
    law_decimal_reads_back(n as nat, 10);
    law_decimal_keeps_order(m as nat, n as nat, 10);
    lemma_text_lt_after(p.prefix@, decimal(m as nat, 10), decimal(n as nat, 10));
}

/// The latest rotation is the one with the highest number.
pub proof fn law_latest_rot_has_highest_number(
    p: DefaultRotNameProvider,
    files: Seq<Seq<char>>,
    latest: u32,
    rot_no: u32,
)
    requires
        is_latest(p, files, p.name_of(latest)),
        files.contains(p.name_of(rot_no)),
    ensures
        rot_no <= latest,
{
    law_default_rot_name_reads_back(p, rot_no);
    if rot_no > latest {
        law_default_rot_names_keep_order(p, latest, rot_no);
    }
}

/// A rotation is followed by a new one from the threshold on, and not before.
pub proof fn law_full_from_threshold_on<P: RotNameProvider>(rot: DefaultRotator<P>, rot_size: u64)
    ensures
        rot.is_full(rot_size) <==> rot_size >= rot.rot_size_max,
{
}

/// Without a limit on the number of rotations, none of them is removed.
pub proof fn law_rotations_without_limit_stay(names: Seq<Seq<char>>, new: Seq<Seq<char>>)
    ensures
        rots_after_all(0, names, new) == names + new,
    decreases new.len(),
{
    if new.len() == 0 {
        assert(names + new =~= names);
    } else {
        law_rotations_without_limit_stay(names, new.drop_last());
        assert((names + new.drop_last()).push(new.last()) =~= names + new);
    }
}

/// A default name is the prefix and ten digits, and every file that has the prefix is a rotation. The
/// number of a rotation is the one that follows the prefix, if it is in the range of rotation numbers.
pub proof fn law_default_rot_names(p: DefaultRotNameProvider, rot_no: u32, tail: Seq<char>)
    ensures
        p.name_of(rot_no).len() == p.prefix@.len() + 10,
        p.name_of(rot_no).take(p.prefix@.len() as int) == p.prefix@,
        all_digits(p.name_of(rot_no).skip(p.prefix@.len() as int)),
        value(p.name_of(rot_no).skip(p.prefix@.len() as int)) == rot_no,
        p.is_rot(p.prefix@ + tail),
        p.rot_no_of(p.prefix@ + tail) == (match number(tail, u32::MAX as nat) {
            Some(n) => Some(n as u32),
            None => None,
        }),
        forall|name: Seq<char>| #[trigger]
            p.is_rot(name) ==> name == p.prefix@ + name.skip(p.prefix@.len() as int),
        forall|name: Seq<char>| !p.is_rot(name) ==> (#[trigger] p.rot_no_of(name)) is None,
{
    lemma_pow10();
    law_decimal_reads_back(rot_no as nat, 10);
    let n = p.prefix@.len() as int;
    assert(p.name_of(rot_no).take(n) =~= p.prefix@);
    assert(p.name_of(rot_no).skip(n) =~= decimal(rot_no as nat, 10));
    assert((p.prefix@ + tail).take(n) =~= p.prefix@);
    assert((p.prefix@ + tail).skip(n) =~= tail);
    assert forall|name: Seq<char>| #[trigger] p.is_rot(name) implies name == p.prefix@
        + name.skip(n) by {
        assert(name =~= name.take(n) + name.skip(n));
    }
}

/// A rotator goes on from what is there: if there is a rotation, it starts with the latest one and its
/// number, and fails exactly if that one has no number. If there is none, it starts with the number zero.
pub proof fn law_rotator_goes_on<P: RotNameProvider>(
    max_rot: u32,
    rot_size_max: u64,
    rnp: P,
    files: Seq<Seq<char>>,
    r: Result<DefaultRotator<P>, Error>,
    name: Seq<char>,
)
    requires
        opened(max_rot, rot_size_max, |p: P| p == rnp, files, r),
        files.contains(name),
        rnp.is_rot(name),
    ensures
        match r {
            Ok(rot) => {
                &&& rot.max_rot == max_rot
                &&& rot.rot_size_max == rot_size_max
                &&& rot.rnp == rnp
                &&& rot.latest_rot_name matches Some(latest) && {
                    &&& files.contains(latest@)
                    &&& rnp.is_rot(latest@)
                    &&& !text_lt(latest@, name)
                    &&& rnp.rot_no_of(latest@) == Some(rot.cur_rot_no)
                }
            },
            Err(e) => exists|n: Seq<char>|
                {
                    &&& #[trigger] files.contains(n)
                    &&& rnp.is_rot(n)
                    &&& !text_lt(n, name)
                    &&& rnp.rot_no_of(n) is None
                    &&& e@ == ErrorView::MiscError(
                        "Failed to restore rotation number from `"@ + n + "`"@,
                    )
                },
        },
{
    if let Err(e) = r {
        let (p, n) = choose|p: P, n: Seq<char>|
            {
                &&& p == rnp
                &&& #[trigger] is_latest(p, files, n)
                &&& p.rot_no_of(n) is None
                &&& e@ == ErrorView::MiscError(unrestorable_text(n))
            };
        assert(files.contains(n));
    }
}

/// Without a rotation, a rotator starts with the number zero.
pub proof fn law_first_rotation_is_zero<P: RotNameProvider>(
    max_rot: u32,
    rot_size_max: u64,
    rnp: P,
    files: Seq<Seq<char>>,
    r: Result<DefaultRotator<P>, Error>,
)
    requires
        opened(max_rot, rot_size_max, |p: P| p == rnp, files, r),
        forall|n: Seq<char>| files.contains(n) ==> !rnp.is_rot(n),
    ensures
        r matches Ok(rot) && {
            &&& rot.max_rot == max_rot
            &&& rot.rot_size_max == rot_size_max
            &&& rot.rnp == rnp
            &&& rot.latest_rot_name is None
            &&& rot.cur_rot_no == 0
        },
{
    if let Err(e) = r {
        let (p, n) = choose|p: P, n: Seq<char>|
            {
                &&& p == rnp
                &&& #[trigger] is_latest(p, files, n)
                &&& p.rot_no_of(n) is None
                &&& e@ == ErrorView::MiscError(unrestorable_text(n))
            };
        assert(files.contains(n));
    }
}

} // verus!
