//! A ring buffer of fixed capacity: what is pushed first is popped first.
use crate::{Error, ErrorView};
use vstd::arithmetic::power2::{lemma_pow2_adds, lemma_pow2_pos, lemma_pow2_strictly_increases, pow2};
use vstd::prelude::*;

verus! {

/// What a [`RingBuffer`] holds.
#[verifier::ext_equal]
pub struct Ring<T> {
    pub capacity: int,
    /// From the oldest to the newest.
    pub items: Seq<T>,
    /// The slot that the next value goes to.
    pub next_slot: int,
}

impl<T> Ring<T> {
    pub open spec fn is_full(self) -> bool {
        self.items.len() == self.capacity
    }

    pub open spec fn pushed(self, value: T) -> Ring<T> {
        Ring {
            items: self.items.push(value),
            next_slot: if self.next_slot + 1 == self.capacity {
                0
            } else {
                self.next_slot + 1
            },
            ..self
        }
    }

    pub open spec fn popped(self) -> Ring<T> {
        if self.items.len() == 0 {
            self
        } else {
            Ring { items: self.items.skip(1), ..self }
        }
    }

    pub open spec fn oldest(self) -> Option<T> {
        if self.items.len() == 0 {
            None
        } else {
            Some(self.items[0])
        }
    }

    /// No more than the capacity is ever held.
    pub open spec fn wf(self) -> bool {
        &&& self.items.len() <= self.capacity
        &&& 0 <= self.next_slot < self.capacity
    }
}

/// A ring buffer.
pub struct RingBuffer<T> {
    cells: Vec<Option<T>>,
    mask: usize,
    /// How many values have been popped, modulo the range of the type.
    head: usize,
    /// How many values have been pushed, modulo the range of the type.
    tail: usize,
}

/// How many values there are between two positions.
spec fn distance(head: usize, tail: usize) -> int {
    if head <= tail {
        tail - head
    } else {
        tail - head + usize::MAX + 1
    }
}

/// The slot of the value that is `i` behind the position `head`.
spec fn slot(head: usize, i: int, cap: int) -> int {
    (head + i) % cap
}

impl<T> View for RingBuffer<T> {
    type V = Ring<T>;

    closed spec fn view(&self) -> Ring<T> {
        let cap = self.cells@.len() as int;
        Ring {
            capacity: cap,
            items: Seq::new(
                distance(self.head, self.tail) as nat,
                |i: int| self.cells@[slot(self.head, i, cap)]->0,
            ),
            next_slot: self.tail as int % cap,
        }
    }
}

/// The number of positions is a multiple of the capacity.
proof fn lemma_positions(order: nat, cap: int)
    requires
        order < usize::BITS,
        cap == pow2(order),
    ensures
        0 < cap,
        (usize::MAX + 1) % cap == 0,
        cap <= usize::MAX,
{
    vstd::arithmetic::power2::lemma2_to64();
    vstd::arithmetic::power2::lemma2_to64_rest();
    lemma_pow2_pos(order);
    let rest = (usize::BITS - order) as nat;
    lemma_pow2_adds(order, rest);
    assert(usize::MAX + 1 == pow2(usize::BITS as nat));
    vstd::arithmetic::div_mod::lemma_mod_multiples_basic(pow2(rest) as int, cap);
    assert(pow2(rest) * cap == cap * pow2(rest)) by (nonlinear_arith);
    lemma_pow2_strictly_increases(order, usize::BITS as nat);
}

/// The slot at the tail, and the slots behind a head that moved by one.
proof fn lemma_slots(head: usize, tail: usize, cap: int)
    requires
        0 < cap,
        (usize::MAX + 1) % cap == 0,
    ensures
        tail as int % cap == slot(head, distance(head, tail), cap),
{
    if head > tail {
        vstd::arithmetic::div_mod::lemma_add_mod_noop(tail as int, usize::MAX + 1, cap);
        vstd::arithmetic::div_mod::lemma_mod_twice(tail as int, cap);
    }
}

proof fn lemma_next_slot(head: usize, next: usize, i: int, cap: int)
    requires
        0 < cap,
        (usize::MAX + 1) % cap == 0,
        next == head + 1 || (head == usize::MAX && next == 0),
    ensures
        slot(next, i, cap) == slot(head, i + 1, cap),
{
    if next == 0 {
        vstd::arithmetic::div_mod::lemma_add_mod_noop(i, usize::MAX + 1, cap);
        vstd::arithmetic::div_mod::lemma_mod_twice(i, cap);
    }
}

/// Different values have different slots.
proof fn lemma_distinct(head: usize, i: int, j: int, cap: int)
    requires
        0 <= i < j < cap,
    ensures
        slot(head, i, cap) != slot(head, j, cap),
{
    let a = head + i;
    let b = head + j;
    if a % cap == b % cap {
        vstd::arithmetic::div_mod::lemma_fundamental_div_mod(a, cap);
        vstd::arithmetic::div_mod::lemma_fundamental_div_mod(b, cap);
        let d = b / cap - a / cap;
        assert(cap * (b / cap) - cap * (a / cap) == cap * d) by (nonlinear_arith)
            requires
                d == b / cap - a / cap,
        ;
        assert(false) by (nonlinear_arith)
            requires
                0 < cap * d < cap,
                0 < cap,
        ;
    }
}

proof fn lemma_slot_after(x: int, cap: int)
    requires
        0 < cap,
        0 <= x,
    ensures
        (x + 1) % cap == (if x % cap + 1 == cap {
            0
        } else {
            x % cap + 1
        }),
{
    vstd::arithmetic::div_mod::lemma_fundamental_div_mod(x, cap);
    let q = x / cap;
    if x % cap + 1 == cap {
        assert(x + 1 == (q + 1) * cap + 0) by (nonlinear_arith)
            requires
                x == cap * q + x % cap,
                x % cap + 1 == cap,
        ;
        vstd::arithmetic::div_mod::lemma_fundamental_div_mod_converse(x + 1, cap, q + 1, 0);
    } else {
        vstd::arithmetic::div_mod::lemma_mod_bound(x, cap);
        assert(x + 1 == q * cap + (x % cap + 1)) by (nonlinear_arith)
            requires
                x == cap * q + x % cap,
        ;
        vstd::arithmetic::div_mod::lemma_fundamental_div_mod_converse(x + 1, cap, q, x % cap + 1);
    }
}

/// What pushing a value changes.
proof fn lemma_pushed<T>(rb: RingBuffer<T>, new: RingBuffer<T>, value: T)
    requires
        rb.wf(),
        distance(rb.head, rb.tail) < rb.cells@.len(),
        new.head == rb.head,
        new.mask == rb.mask,
        new.tail == rb.tail + 1 || (rb.tail == usize::MAX && new.tail == 0),
        new.cells@ == rb.cells@.update(
            rb.tail as int % (rb.cells@.len() as int),
            Some(value),
        ),
    ensures
        new@ == rb@.pushed(value),
        new.wf(),
{
    rb.lemma_wf();
    let cap = rb.cells@.len() as int;
    let count = distance(rb.head, rb.tail);
    assert(distance(new.head, new.tail) == count + 1);
    assert forall|i: int|
        #![trigger slot(rb.head, i, cap)]
        0 <= i < cap && i != count implies new.cells@[slot(rb.head, i, cap)]
        == rb.cells@[slot(rb.head, i, cap)] by {
        if i < count {
            lemma_distinct(rb.head, i, count, cap);
        } else {
            lemma_distinct(rb.head, count, i, cap);
        }
    }
    assert(new@.items =~= rb@.items.push(value));
    if rb.tail == usize::MAX {
        lemma_slot_after(usize::MAX as int, cap);
        vstd::arithmetic::div_mod::lemma_small_mod(0, cap as nat);
    } else {
        lemma_slot_after(rb.tail as int, cap);
    }
}

/// What popping a value changes.
proof fn lemma_popped<T>(rb: RingBuffer<T>, new: RingBuffer<T>)
    requires
        rb.wf(),
        0 < distance(rb.head, rb.tail),
        new.tail == rb.tail,
        new.mask == rb.mask,
        new.head == rb.head + 1 || (rb.head == usize::MAX && new.head == 0),
        new.cells@ == rb.cells@.update(rb.head as int % (rb.cells@.len() as int), None),
    ensures
        new@ == rb@.popped(),
        new.wf(),
{
    rb.lemma_wf();
    let cap = rb.cells@.len() as int;
    let count = distance(rb.head, rb.tail);
    assert(distance(new.head, new.tail) == count - 1);
    assert forall|i: int|
        #![trigger slot(new.head, i, cap)]
        0 <= i < cap implies (if i < cap - 1 {
        slot(new.head, i, cap) == slot(rb.head, i + 1, cap) && new.cells@[slot(new.head, i, cap)]
            == rb.cells@[slot(rb.head, i + 1, cap)]
    } else {
        slot(new.head, i, cap) == slot(rb.head, 0, cap)
    }) by {
        lemma_next_slot(rb.head, new.head, i, cap);
        if i < cap - 1 {
            lemma_distinct(rb.head, 0, i + 1, cap);
        } else {
            vstd::arithmetic::div_mod::lemma_mod_add_multiples_vanish(rb.head as int, cap);
        }
    }
    assert(new@.items =~= rb@.items.skip(1));
}

impl<T> RingBuffer<T> {
    /// Exactly the slots between head and tail are in use.
    pub closed spec fn wf(&self) -> bool {
        let cap = self.cells@.len() as int;
        let count = distance(self.head, self.tail);
        &&& exists|order: nat|
            #![trigger pow2(order)]
            {
                &&& order < usize::BITS
                &&& cap == pow2(order)
            }
        &&& self.mask == cap - 1
        &&& count <= cap
        &&& forall|i: int|
            #![trigger slot(self.head, i, cap)]
            0 <= i < cap ==> (self.cells@[slot(self.head, i, cap)] is Some <==> i < count)
    }

    proof fn lemma_wf(&self)
        requires
            self.wf(),
        ensures
            0 < self.cells@.len() <= usize::MAX,
            (usize::MAX + 1) % (self.cells@.len() as int) == 0,
            self.tail as int % (self.cells@.len() as int) == slot(
                self.head,
                distance(self.head, self.tail),
                self.cells@.len() as int,
            ),
            self.tail & self.mask == self.tail as int % (self.cells@.len() as int),
            self.head & self.mask == self.head as int % (self.cells@.len() as int),
            self@.wf(),
    {
        let cap = self.cells@.len() as int;
        let order = choose|order: nat|
            #![trigger pow2(order)]
            {
                &&& order < usize::BITS
                &&& cap == pow2(order)
            };
        lemma_positions(order, cap);
        lemma_slots(self.head, self.tail, cap);
        vstd::bits::lemma_usize_low_bits_mask_is_mod(self.tail, order);
        vstd::bits::lemma_usize_low_bits_mask_is_mod(self.head, order);
    }

    /// There are never more values than the capacity.
    pub proof fn law_within_capacity(&self)
        requires
            self.wf(),
        ensures
            self@.wf(),
    {
        self.lemma_wf();
    }

    /// Creates a ring buffer. The capacity is 2^k, where k is the value of the parameter
    /// `size_order`.
    pub fn new(size_order: u8) -> (r: Result<Self, Error>)
        requires
            size_order < usize::BITS,
        ensures
            match r {
                Ok(rb) => {
                    &&& rb.wf()
                    &&& pow2(size_order as nat) <= isize::MAX
                    &&& rb@ == (Ring {
                        capacity: pow2(size_order as nat) as int,
                        items: Seq::<T>::empty(),
                        next_slot: 0,
                    })
                },
                Err(e) => {
                    &&& pow2(size_order as nat) > isize::MAX
                    &&& e@ == ErrorView::InvalidArgument("`size_order` is too large"@)
                },
            },
    {
        proof {
            lemma_positions(size_order as nat, pow2(size_order as nat) as int);
            vstd::bits::lemma_usize_shl_is_mul(1, size_order as usize);
        }
        let size: usize = 1usize << size_order;
        let max_isize: usize = isize::MAX as usize;
        if size > max_isize {
            return Err(Error::InvalidArgument("`size_order` is too large".to_string()));
        }
        let mut cells: Vec<Option<T>> = Vec::with_capacity(size);
        let mut i: usize = 0;
        while i < size
            invariant
                i <= size,
                cells@.len() == i,
                forall|j: int| 0 <= j < i ==> cells@[j] is None,
            decreases size - i,
        {
            cells.push(None);
            i += 1;
        }
        let rb = RingBuffer { cells, mask: size - 1, head: 0, tail: 0 };
        proof {
            assert(rb@.items =~= Seq::<T>::empty());
            vstd::arithmetic::div_mod::lemma_small_mod(0, size as nat);
        }
        Ok(rb)
    }

    /// Pushes a value into the ring buffer.
    pub fn push(&mut self, value: T) -> (r: Result<(&mut T, usize), Error>)
        requires
            old(self).wf(),
        ensures
            match r {
                Ok((v, slot)) => {
                    &&& !old(self)@.is_full()
                    &&& *v == value
                    &&& slot == old(self)@.next_slot
                    &&& final(self)@ == old(self)@.pushed(*final(v))
                    &&& final(self).wf()
                },
                Err(e) => {
                    &&& old(self)@.is_full()
                    &&& e@ == ErrorView::RingBufferFull
                    &&& *final(self) == *old(self)
                },
            },
            r is Ok <==> old(self)@.items.len() < old(self)@.capacity,
    {
        proof {
            self.lemma_wf();
        }
        let tail: usize = self.tail;
        if tail.wrapping_sub(self.head) > self.mask {
            return Err(Error::RingBufferFull);
        }
        let idx: usize = tail & self.mask;
        self.tail = tail.wrapping_add(1);
        self.cells[idx] = Some(value);
        match &mut self.cells[idx] {
            Some(v) => {
                proof {
                    assert(after_borrow(self).cells@ =~= old(self).cells@.update(
                        idx as int,
                        Some(*final(v)),
                    ));
                    lemma_pushed(*old(self), *after_borrow(self), *final(v));
                }
                Ok((v, idx))
            },
            None => Err(Error::RingBufferFull),
        }
    }

    /// Pops a value from the ring buffer.
    pub fn pop(&mut self) -> (r: Option<T>)
        requires
            old(self).wf(),
        ensures
            r == old(self)@.oldest(),
            final(self)@ == old(self)@.popped(),
            final(self).wf(),
    {
        proof {
            self.lemma_wf();
        }
        let head: usize = self.head;
        if head == self.tail {
            return None;
        }
        let idx: usize = head & self.mask;
        proof {
            assert(slot(self.head, 0, self.cells@.len() as int) == idx);
        }
        let value = self.cells[idx].take();
        self.head = head.wrapping_add(1);
        proof {
            assert(self.cells@ =~= old(self).cells@.update(idx as int, None));
            lemma_popped(*old(self), *self);
        }
        value
    }

    /// Pushes a value into the ring buffer (used in single producer case).
    pub fn push_for_sp(&mut self, value: T) -> (r: Result<(&mut T, usize), Error>)
        requires
            old(self).wf(),
        ensures
            match r {
                Ok((v, slot)) => {
                    &&& !old(self)@.is_full()
                    &&& *v == value
                    &&& slot == old(self)@.next_slot
                    &&& final(self)@ == old(self)@.pushed(*final(v))
                    &&& final(self).wf()
                },
                Err(e) => {
                    &&& old(self)@.is_full()
                    &&& e@ == ErrorView::RingBufferFull
                    &&& *final(self) == *old(self)
                },
            },
            r is Ok <==> old(self)@.items.len() < old(self)@.capacity,
    {
        self.push(value)
    }

    /// Pops a value from the ring buffer (used in single consumer case).
    pub fn pop_for_sc(&mut self) -> (r: Option<T>)
        requires
            old(self).wf(),
        ensures
            r == old(self)@.oldest(),
            final(self)@ == old(self)@.popped(),
            final(self).wf(),
    {
        self.pop()
    }
}

/// A call on a ring buffer.
pub enum RingCall<T> {
    Push(T),
    Pop,
}

/// A ring buffer, with what it took and what it gave back since some time.
#[verifier::ext_equal]
pub struct History<T> {
    pub ring: Ring<T>,
    pub taken: Seq<T>,
    pub given: Seq<T>,
}

/// The history after one more call: a push on a full ring buffer and a pop on an empty one change
/// nothing.
pub open spec fn called<T>(h: History<T>, call: RingCall<T>) -> History<T> {
    match call {
        RingCall::Push(value) => if h.ring.is_full() {
            h
        } else {
            History { ring: h.ring.pushed(value), taken: h.taken.push(value), ..h }
        },
        RingCall::Pop => match h.ring.oldest() {
            Some(value) => History { ring: h.ring.popped(), given: h.given.push(value), ..h },
            None => h,
        },
    }
}

/// The history of calls from a given ring buffer on.
pub open spec fn history<T>(ring: Ring<T>, calls: Seq<RingCall<T>>) -> History<T>
    decreases calls.len(),
{
    if calls.len() == 0 {
        History { ring, taken: Seq::empty(), given: Seq::empty() }
    } else {
        called(history(ring, calls.drop_last()), calls.last())
    }
}

/// First in, first out: whatever is called, what was given back is what was there at first and then
/// what was taken, in that order, up to what is still there. And there is never more than the
/// capacity.
pub proof fn law_fifo<T>(ring: Ring<T>, calls: Seq<RingCall<T>>)
    requires
        ring.wf(),
    ensures
        ({
            let h = history(ring, calls);
            &&& h.given + h.ring.items == ring.items + h.taken
            &&& h.ring.wf()
            &&& h.ring.capacity == ring.capacity
        }),
    decreases calls.len(),
{
    if calls.len() == 0 {
        let h = history(ring, calls);
        assert(h.given + h.ring.items =~= ring.items + h.taken);
    } else {
        law_fifo(ring, calls.drop_last());
        let b = history(ring, calls.drop_last());
        let h = history(ring, calls);
        match calls.last() {
            RingCall::Push(value) => {
                if !b.ring.is_full() {
                    assert(h.given + h.ring.items =~= (b.given + b.ring.items).push(value));
                    assert(ring.items + h.taken =~= (ring.items + b.taken).push(value));
                }
            },
            RingCall::Pop => {
                if b.ring.items.len() > 0 {
                    assert(h.given + h.ring.items =~= b.given + b.ring.items);
                }
            },
        }
    }
}

/// A call does what it says: a value is taken exactly if there are fewer values than the capacity, and
/// the oldest one is given back, if there is one. Nothing else changes.
pub proof fn law_calls<T>(h: History<T>, value: T)
    requires
        h.ring.wf(),
    ensures
        ({
            let ring = h.ring;
            let h2 = called(h, RingCall::Push(value));
            let h3 = called(h, RingCall::Pop);
            &&& if ring.items.len() < ring.capacity {
                &&& h2.taken == h.taken.push(value)
                &&& h2.ring.items == ring.items.push(value)
                &&& h2.ring.capacity == ring.capacity
                &&& h2.ring.next_slot == (ring.next_slot + 1) % ring.capacity
                &&& h2.given == h.given
            } else {
                h2 == h
            }
            &&& if ring.items.len() > 0 {
                &&& h3.given == h.given.push(ring.items[0])
                &&& seq![ring.items[0]] + h3.ring.items == ring.items
                &&& h3.ring.capacity == ring.capacity
                &&& h3.ring.next_slot == ring.next_slot
                &&& h3.taken == h.taken
            } else {
                h3 == h
            }
        }),
{
    let ring = h.ring;
    if ring.items.len() > 0 {
        assert(seq![ring.items[0]] + ring.items.skip(1) =~= ring.items);
    }
    if ring.next_slot + 1 == ring.capacity {
        vstd::arithmetic::div_mod::lemma_mod_self_0(ring.capacity);
    } else {
        vstd::arithmetic::div_mod::lemma_small_mod(
            (ring.next_slot + 1) as nat,
            ring.capacity as nat,
        );
    }
}

/// Values are refused only when the ring buffer is full: after any calls, there is room for a value
/// exactly if fewer values than the capacity have been taken and not been given back.
pub proof fn law_refused_only_when_full<T>(ring: Ring<T>, calls: Seq<RingCall<T>>)
    requires
        ring.wf(),
    ensures
        ({
            let h = history(ring, calls);
            h.ring.is_full() <==> ring.items.len() + h.taken.len() - h.given.len() == ring.capacity
        }),
{
    law_fifo(ring, calls);
    let h = history(ring, calls);
    assert((h.given + h.ring.items).len() == (ring.items + h.taken).len());
}

} // verus!
