use vstd::prelude::*;

verus! {

/// `x % c` for `0 <= x < 2 * c`, written without the remainder.
proof fn lemma_wrap(x: int, c: int)
    requires
        0 < c,
        0 <= x < 2 * c,
    ensures
        x % c == (if x < c { x } else { x - c }),
{
    if x < c {
        vstd::arithmetic::div_mod::lemma_fundamental_div_mod_converse(x, c, 0, x);
    } else {
        vstd::arithmetic::div_mod::lemma_fundamental_div_mod_converse(x, c, 1, x - c);
    }
}

/// The contents after pushing `value` onto `s` in a buffer of capacity `cap`:
/// `value` is appended, and when `s` is already full its first element drops out.
pub open spec fn pushed<T>(s: Seq<T>, cap: nat, value: T) -> Seq<T> {
    if s.len() < cap {
        s.push(value)
    } else {
        s.skip(1).push(value)
    }
}

/// `s` rotated left by `k`: its elements from position `k` on, followed by
/// its first `k` elements.
pub open spec fn rotated<T>(s: Seq<T>, k: int) -> Seq<T> {
    s.skip(k) + s.take(k)
}

/// The contents after pushing each of `xs` in turn, starting from `s`, in a
/// buffer of capacity `cap`.
pub open spec fn pushed_all<T>(s: Seq<T>, cap: nat, xs: Seq<T>) -> Seq<T>
    decreases xs.len(),
{
    if xs.len() == 0 {
        s
    } else {
        pushed_all(pushed(s, cap, xs[0]), cap, xs.skip(1))
    }
}

/// The last `cap` elements of `s` (all of `s` when it is not longer than `cap`).
pub open spec fn newest<T>(s: Seq<T>, cap: nat) -> Seq<T> {
    if s.len() <= cap {
        s
    } else {
        s.skip(s.len() - cap)
    }
}

/// Values can be pushed indefinitely: pushing `xs` one by one onto contents
/// `s` of a buffer with capacity `cap` leaves exactly the newest `cap`
/// values of `s` followed by `xs`, the earliest ones having been overwritten.
pub proof fn law_pushes_keep_newest<T>(s: Seq<T>, cap: nat, xs: Seq<T>)
    requires
        cap > 0,
        s.len() <= cap,
    ensures
        pushed_all(s, cap, xs) == newest(s + xs, cap),
    decreases xs.len(),
{
    if xs.len() == 0 {
        assert(s + xs =~= s);
    } else {
        let p = pushed(s, cap, xs[0]);
        law_pushes_keep_newest(p, cap, xs.skip(1));
        assert(p == newest(s.push(xs[0]), cap)) by {
            if s.len() == cap {
                assert(s.skip(1).push(xs[0]) =~= s.push(xs[0]).skip(1));
            }
        }
        let a = s.push(xs[0]);
        let b = xs.skip(1);
        assert(a + b =~= s + xs);
        if a.len() > cap {
            assert(a.skip(1) + b =~= (a + b).skip(1));
            if (a + b).skip(1).len() > cap {
                assert((a.skip(1) + b).skip((a.skip(1) + b).len() - cap) =~= (a + b).skip((a + b).len() - cap));
            }
        }
    }
}

/// `get` reads by logical position: below the length it finds the element at
/// that position; past the length it finds nothing; at the length it finds
/// something only on a full buffer, where that position wraps round to the
/// oldest element's slot.
pub proof fn law_get_positions<T>(b: RingBuf<T>, index: int)
    requires
        b.wf(),
        0 <= index,
    ensures
        index < b@.len() ==> b.read_position(index) == Some(index),
        index > b@.len() ==> b.read_position(index) is None,
        index == b@.len() ==> (b.read_position(index) is Some <==> b@.len() == b.capacity()),
        b.read_position(index) matches Some(p) ==> 0 <= p < b@.len()
            && (b.head_slot() + p) % (b.capacity() as int) == (b.head_slot() + index) % (b.capacity() as int),
{
    b.lemma_shape_facts();
    if index <= b@.len() {
        lemma_wrap(b.head_slot() + index, b.capacity() as int);
        lemma_wrap(b.head_slot() as int, b.capacity() as int);
    }
}

/// `into_slice` and `as_slice` list the elements in slot order: the element
/// listed at place `m` is the one at view position `p(m)`, each element is
/// listed once (the places are a rotation of the positions), and the slots
/// `(head + p(m)) % capacity` holding them strictly increase with `m`.
pub proof fn law_slot_order<T>(b: RingBuf<T>)
    requires
        b.wf(),
    ensures
        ({
            let len = b@.len() as int;
            let cap = b.capacity() as int;
            let k = b.slot_order_start();
            let pos = |m: int| if m < len - k { k + m } else { m - (len - k) };
            &&& 0 <= k <= len
            &&& (len > 0 ==> k < len)
            &&& forall|m: int| 0 <= m < len ==> 0 <= #[trigger] pos(m) < len
                && rotated(b@, k)[m] == b@[pos(m)]
            &&& forall|m1: int, m2: int|
                0 <= m1 < m2 < len ==> (b.head_slot() + #[trigger] pos(m1)) % cap < (b.head_slot() + #[trigger] pos(m2)) % cap
        }),
{
    b.lemma_shape_facts();
    let len = b@.len() as int;
    let cap = b.capacity() as int;
    let h = b.head_slot() as int;
    let k = b.slot_order_start();
    let pos = |m: int| if m < len - k { k + m } else { m - (len - k) };
    assert forall|m: int| 0 <= m < len implies 0 <= #[trigger] pos(m) < len
        && rotated(b@, k)[m] == b@[pos(m)] by {}
    assert forall|m1: int, m2: int| 0 <= m1 < m2 < len implies
        (h + #[trigger] pos(m1)) % cap < (h + #[trigger] pos(m2)) % cap by {
        lemma_wrap(h + pos(m1), cap);
        lemma_wrap(h + pos(m2), cap);
    }
}

/// A new buffer of capacity `cap` that receives the pushes `xs` and no pops
/// holds the newest `cap` of them, oldest first.
pub proof fn law_fresh_buffer_keeps_newest<T>(cap: nat, xs: Seq<T>)
    requires
        cap > 0,
    ensures
        pushed_all(Seq::<T>::empty(), cap, xs) == newest(xs, cap),
{
    law_pushes_keep_newest(Seq::<T>::empty(), cap, xs);
    assert(Seq::<T>::empty() + xs =~= xs);
}

/// The buffer never holds more elements than its capacity, and its cursors
/// stay in range with the tail `len` slots (cyclically) after the head.
pub proof fn law_shape<T>(b: RingBuf<T>)
    requires
        b.wf(),
    ensures
        0 < b.capacity(),
        b@.len() <= b.capacity(),
        b.head_slot() < b.capacity(),
        b.tail_slot() < b.capacity(),
        b.tail_slot() == (b.head_slot() + b@.len()) % b.capacity(),
{
}

/// What `pop` takes back is what the last `push` wrote: popping right after
/// pushing `v` yields `v`, and when the buffer was not full it restores the
/// contents from before the push.
pub proof fn law_pop_undoes_push<T>(s: Seq<T>, cap: nat, v: T)
    requires
        cap > 0,
        s.len() <= cap,
    ensures
        pushed(s, cap, v).len() > 0,
        pushed(s, cap, v).last() == v,
        s.len() < cap ==> pushed(s, cap, v).drop_last() == s,
        s.len() == cap ==> pushed(s, cap, v).drop_last() == s.skip(1),
{
    assert(s.push(v).drop_last() =~= s);
    if s.len() > 0 {
        assert(s.skip(1).push(v).drop_last() =~= s.skip(1));
    }
}

/// A fixed-size, circular data structure. Values can be pushed indefinitely;
/// once the capacity is exhausted each push overwrites the earliest entry.
pub struct RingBuf<T> {
    /// The number of elements the buffer can hold
    cap: usize,
    /// The current number of elements stored in the buffer
    len: usize,
    /// The slot of the oldest element
    head: usize,
    /// The slot the next pushed element goes to
    tail: usize,
    /// One slot per unit of capacity
    slots: Vec<Option<T>>,
}

impl<T> View for RingBuf<T> {
    type V = Seq<T>;

    /// The stored elements, oldest first.
    closed spec fn view(&self) -> Seq<T> {
        Seq::new(self.len as nat, |i: int| self.slots@[(self.head + i) % (self.cap as int)]->0)
    }
}

impl<T> RingBuf<T> {
    /// The number of elements the buffer can hold.
    pub closed spec fn capacity(&self) -> nat {
        self.cap as nat
    }

    /// The slot that holds the oldest element.
    pub closed spec fn head_slot(&self) -> nat {
        self.head as nat
    }

    /// The slot the next pushed element is written to.
    pub closed spec fn tail_slot(&self) -> nat {
        self.tail as nat
    }

    /// The slot that holds the element at logical position `i`.
    closed spec fn slot_of(&self, i: int) -> int {
        (self.head + i) % (self.cap as int)
    }

    /// The shape facts of a well-formed buffer, in terms of its public specs.
    proof fn lemma_shape_facts(&self)
        requires
            self.wf(),
        ensures
            0 < self.capacity(),
            self@.len() <= self.capacity(),
            self.head_slot() < self.capacity(),
            self.tail_slot() < self.capacity(),
    {
    }

    /// How many slots `j` lies after the head slot, going round cyclically.
    closed spec fn offset_of(&self, j: int) -> int {
        if j >= self.head { j - self.head } else { j - self.head + self.cap }
    }

    /// The cursors and the slot vector agree in shape.
    closed spec fn shape_wf(&self) -> bool {
        &&& self.cap > 0
        &&& self.slots@.len() == self.cap
        &&& self.len <= self.cap
        &&& self.head < self.cap
        &&& self.tail < self.cap
        &&& self.tail == (self.head + self.len) % (self.cap as int)
    }

    /// Every logical position from `from` on holds an element.
    closed spec fn live_from(&self, from: int) -> bool {
        forall|i: int| from <= i < self.len ==> (#[trigger] self.slots@[self.slot_of(i)]) is Some
    }

    /// The slots that hold no stored element are empty.
    closed spec fn dead_empty(&self) -> bool {
        forall|j: int| 0 <= j < self.cap && self.offset_of(j) >= self.len ==> (#[trigger] self.slots@[j]) is None
    }

    /// Well-formedness: what every operation keeps.
    pub closed spec fn wf(&self) -> bool {
        &&& self.shape_wf()
        &&& self.live_from(0)
        &&& self.dead_empty()
    }

    /// Facts about `slot_of`: it lies in `0..cap` and is written without `%`.
    proof fn lemma_slot_of(&self, i: int)
        requires
            self.shape_wf(),
            0 <= i <= self.cap,
        ensures
            self.slot_of(i) == (if self.head + i < self.cap { self.head + i } else { self.head + i - self.cap }),
            0 <= self.slot_of(i) < self.cap,
            i < self.cap ==> self.offset_of(self.slot_of(i)) == i,
    {
        lemma_wrap(self.head + i, self.cap as int);
    }

    /// Facts about `offset_of`: it lies in `0..cap` and `slot_of` undoes it.
    proof fn lemma_offset_of(&self, j: int)
        requires
            self.shape_wf(),
            0 <= j < self.cap,
        ensures
            0 <= self.offset_of(j) < self.cap,
            self.slot_of(self.offset_of(j)) == j,
    {
        self.lemma_slot_of(self.offset_of(j));
    }

    /// Replacing the element at logical position `index` (by writing another
    /// `Some` into its slot) keeps the buffer well formed and changes only
    /// that position of the view.
    proof fn lemma_replace_slot(self, index: int)
        requires
            self.wf(),
            0 <= index < self.len,
        ensures
            forall|post: Self|
                #![trigger post.wf()]
                #![trigger post.view()]
                post.cap == self.cap && post.len == self.len && post.head == self.head
                    && post.tail == self.tail
                    && post.slots@ == self.slots@.update(self.slot_of(index), post.slots@[self.slot_of(index)])
                    && post.slots@[self.slot_of(index)] is Some
                    ==> post.wf() && post@ == self@.update(index, post.slots@[self.slot_of(index)]->0),
    {
        self.lemma_slot_of(index);
        assert forall|post: Self|
            post.cap == self.cap && post.len == self.len && post.head == self.head
                && post.tail == self.tail
                && post.slots@ == self.slots@.update(self.slot_of(index), post.slots@[self.slot_of(index)])
                && post.slots@[self.slot_of(index)] is Some
            implies post.wf() && post@ == self@.update(index, post.slots@[self.slot_of(index)]->0) by {
            assert forall|i: int| 0 <= i < post.len implies (#[trigger] post.slots@[post.slot_of(i)]) is Some by {
                self.lemma_slot_of(i);
            }
            assert forall|i: int| 0 <= i < post.len implies #[trigger] post@[i] == self@.update(index, post.slots@[self.slot_of(index)]->0)[i] by {
                self.lemma_slot_of(i);
            }
            assert(post@ =~= self@.update(index, post.slots@[self.slot_of(index)]->0));
        }
    }

    /// Writing `None` into a slot that is already empty changes nothing.
    proof fn lemma_empty_slot_stays(self, j: int)
        requires
            self.wf(),
            0 <= j < self.cap,
            self.slots@[j] is None,
        ensures
            forall|post: Self|
                #![trigger post.wf()]
                #![trigger post.view()]
                post.cap == self.cap && post.len == self.len && post.head == self.head
                    && post.tail == self.tail
                    && post.slots@ == self.slots@.update(j, None::<T>)
                    ==> post.wf() && post@ == self@,
    {
        assert(self.slots@.update(j, None::<T>) =~= self.slots@);
        assert forall|post: Self|
            post.cap == self.cap && post.len == self.len && post.head == self.head
                && post.tail == self.tail
                && post.slots@ == self.slots@.update(j, None::<T>)
            implies post.wf() && post@ == self@ by {
            assert(post.slots@ =~= self.slots@);
            assert forall|i: int| 0 <= i < post.len implies (#[trigger] post.slots@[post.slot_of(i)]) is Some by {
                assert(self.slots@[self.slot_of(i)] is Some);
            }
            assert(post@ =~= self@);
        }
    }

    /// The position in the view that `get(index)` reads: `index` itself
    /// below the length; position 0 (the oldest element, whose slot comes
    /// right after the newest one) for `index == len` on a full buffer;
    /// nothing otherwise.
    pub open spec fn read_position(&self, index: int) -> Option<int> {
        if 0 <= index < self@.len() {
            Some(index)
        } else if index == self@.len() && self@.len() == self.capacity() {
            Some(0)
        } else {
            None
        }
    }

    /// The position in the view of the element in the lowest-numbered
    /// occupied slot: 0 while the elements do not wrap past the last slot,
    /// otherwise the position of the element in slot 0.
    pub open spec fn slot_order_start(&self) -> int {
        if self.head_slot() + self@.len() <= self.capacity() {
            0
        } else {
            self.capacity() - self.head_slot()
        }
    }

    /// Creates an empty buffer that holds up to `capacity` elements.
    pub fn new(capacity: usize) -> (r: Self)
        requires
            vstd::layout::size_of::<T>() != 0,
            capacity > 0,
        ensures
            r.wf(),
            r@ == Seq::<T>::empty(),
            r.capacity() == capacity,
            r.head_slot() == 0,
            r.tail_slot() == 0,
    {
        let mut slots: Vec<Option<T>> = Vec::new();
        let mut k: usize = 0;
        while k < capacity
            invariant
                k <= capacity,
                slots@.len() == k,
                forall|j: int| 0 <= j < k ==> slots@[j] == None::<T>,
            decreases capacity - k,
        {
            slots.push(None);
            k = k + 1;
        }
        let r = RingBuf { cap: capacity, len: 0, head: 0, tail: 0, slots };
        proof {
            lemma_wrap(0, capacity as int);
            assert forall|j: int| 0 <= j < r.cap && r.offset_of(j) >= r.len implies (#[trigger] r.slots@[j]) is None by {
                assert(slots@[j] == None::<T>);
            }
        }
        assert(r@ =~= Seq::<T>::empty());
        r
    }

    /// The slot `index` positions after the head, for `index` up to the length.
    fn index_conv(&self, index: usize) -> (r: Option<usize>)
        requires
            self.shape_wf(),
        ensures
            r == (if index <= self.len { Some(self.slot_of(index as int) as usize) } else { None::<usize> }),
            r matches Some(k) ==> k < self.cap,
    {
        if index > self.len {
            return None;
        }
        proof {
            self.lemma_slot_of(index as int);
        }
        let out = if index < self.cap - self.head {
            self.head + index
        } else {
            index - (self.cap - self.head)
        };
        Some(out)
    }

    /// What `get(index)` finds in the slot `index` positions after the head.
    proof fn lemma_read_position(&self, index: int)
        requires
            self.wf(),
            0 <= index <= self.len,
        ensures
            0 <= self.slot_of(index) < self.cap,
            self.read_position(index) is Some <==> self.slots@[self.slot_of(index)] is Some,
            self.read_position(index) matches Some(p) ==> 0 <= p < self.len
                && self.slot_of(p) == self.slot_of(index),
    {
        self.lemma_slot_of(index);
        self.lemma_slot_of(0);
    }

    /// Moves the head cursor one slot forward, wrapping at the capacity.
    fn inc_head(&mut self)
        requires
            old(self).head < old(self).cap,
        ensures
            final(self).head == (old(self).head + 1) % (old(self).cap as int),
            final(self).cap == old(self).cap,
            final(self).len == old(self).len,
            final(self).tail == old(self).tail,
            final(self).slots == old(self).slots,
    {
        proof {
            lemma_wrap(self.head + 1, self.cap as int);
        }
        self.head = (self.head + 1) % self.cap;
    }

    /// Moves the tail cursor one slot forward, wrapping at the capacity.
    fn inc_tail(&mut self)
        requires
            old(self).tail < old(self).cap,
        ensures
            final(self).tail == (old(self).tail + 1) % (old(self).cap as int),
            final(self).cap == old(self).cap,
            final(self).len == old(self).len,
            final(self).head == old(self).head,
            final(self).slots == old(self).slots,
    {
        proof {
            lemma_wrap(self.tail + 1, self.cap as int);
        }
        self.tail = (self.tail + 1) % self.cap;
    }

    /// Moves the tail cursor one slot back, wrapping below zero.
    fn dec_tail(&mut self)
        requires
            old(self).tail < old(self).cap,
        ensures
            final(self).tail == (if old(self).tail == 0 { old(self).cap - 1 } else { old(self).tail - 1 }),
            final(self).cap == old(self).cap,
            final(self).len == old(self).len,
            final(self).head == old(self).head,
            final(self).slots == old(self).slots,
    {
        if self.tail == 0 {
            self.tail = self.cap - 1;
        } else {
            self.tail -= 1;
        }
    }

    /// Appends `value` as the newest element. When the buffer is full the
    /// oldest element is overwritten; it is forgotten, not dropped.
    pub fn push(&mut self, value: T)
        requires
            old(self).wf(),
        ensures
            final(self).wf(),
            final(self).capacity() == old(self).capacity(),
            final(self)@ == pushed(old(self)@, old(self).capacity(), value),
            final(self).tail_slot() == (old(self).tail_slot() + 1) % old(self).capacity(),
            final(self).head_slot() == (if old(self)@.len() < old(self).capacity() {
                old(self).head_slot()
            } else {
                (old(self).head_slot() + 1) % old(self).capacity()
            }),
    {
        let ghost pre = *self;
        let t = self.tail;
        let mut overwritten = Some(value);
        std::mem::swap(&mut overwritten, &mut self.slots[t]);
        crate::std_calls::leak(overwritten);
        self.inc_tail();
        if self.len < self.cap {
            self.len += 1;
        } else {
            self.inc_head();
        }
        proof {
            let c = self.cap as int;
            lemma_wrap(pre.tail + 1, c);
            lemma_wrap(pre.head + 1, c);
            pre.lemma_slot_of(pre.len as int);
            if pre.len < pre.cap {
                lemma_wrap(pre.head + pre.len + 1, c);
            }
            lemma_wrap(self.head + self.len, c);
            assert(self.shape_wf());
            assert forall|i: int| 0 <= i < self.len implies (#[trigger] self.slots@[self.slot_of(i)]) is Some by {
                self.lemma_slot_of(i);
                if i + 1 < pre.len {
                    pre.lemma_slot_of(i + 1);
                }
                pre.lemma_slot_of(i);
            }
            assert(self.live_from(0));
            assert forall|i: int| 0 <= i < self.len implies #[trigger] self@[i] == pushed(pre@, pre.cap as nat, value)[i] by {
                self.lemma_slot_of(i);
                pre.lemma_slot_of(i);
                if i + 1 <= pre.len {
                    pre.lemma_slot_of(i + 1);
                }
            }
            assert(self@ =~= pushed(pre@, pre.cap as nat, value));
        }
    }

    /// Removes and returns the newest element, or `None` when the buffer is empty.
    pub fn pop(&mut self) -> (r: Option<T>)
        requires
            old(self).wf(),
        ensures
            final(self).wf(),
            final(self).capacity() == old(self).capacity(),
            final(self).head_slot() == old(self).head_slot(),
            r == (if old(self)@.len() == 0 { None } else { Some(old(self)@.last()) }),
            final(self)@ == (if old(self)@.len() == 0 { old(self)@ } else { old(self)@.drop_last() }),
            final(self).tail_slot() == (if old(self)@.len() == 0 {
                old(self).tail_slot()
            } else if old(self).tail_slot() == 0 {
                (old(self).capacity() - 1) as nat
            } else {
                (old(self).tail_slot() - 1) as nat
            }),
    {
        if self.len == 0 {
            return None;
        }
        let ghost pre = *self;
        self.dec_tail();
        self.len -= 1;
        let t = self.tail;
        let mut out: Option<T> = None;
        proof {
            pre.lemma_slot_of(pre.len - 1);
            pre.lemma_slot_of(pre.len as int);
        }
        std::mem::swap(&mut out, &mut self.slots[t]);
        proof {
            assert(pre.slots@[pre.slot_of(pre.len - 1)] is Some);
            assert forall|i: int| 0 <= i < self.len implies (#[trigger] self.slots@[self.slot_of(i)]) is Some by {
                self.lemma_slot_of(i);
                pre.lemma_slot_of(i);
            }
            assert(self.live_from(0));
            assert(self.shape_wf());
            assert forall|i: int| 0 <= i < self.len implies #[trigger] self@[i] == pre@.drop_last()[i] by {
                self.lemma_slot_of(i);
                pre.lemma_slot_of(i);
            }
            assert(self@ =~= pre@.drop_last());
        }
        out
    }

    /// The element at logical position `index` (0 is the oldest) while
    /// `index` is below the length; at `index == len` on a full buffer, the
    /// oldest element, whose slot the position wraps round to; `None` otherwise.
    pub fn get(&self, index: usize) -> (r: Option<&T>)
        requires
            self.wf(),
        ensures
            r == (match self.read_position(index as int) {
                Some(p) => Some(&self@[p]),
                None => None::<&T>,
            }),
    {
        let k = match self.index_conv(index) {
            Some(k) => k,
            None => return None,
        };
        proof {
            self.lemma_read_position(index as int);
        }
        self.slots[k].as_ref()
    }

    /// A mutable reference to the element that `get(index)` returns, or
    /// `None` where `get(index)` returns `None`.
    pub fn get_mut(&mut self, index: usize) -> (r: Option<&mut T>)
        requires
            old(self).wf(),
        ensures
            final(self).wf(),
            final(self).capacity() == old(self).capacity(),
            final(self).head_slot() == old(self).head_slot(),
            final(self).tail_slot() == old(self).tail_slot(),
            old(self).read_position(index as int) matches Some(p) ==> {
                &&& r is Some
                &&& *r.unwrap() == old(self)@[p]
                &&& final(self)@ == old(self)@.update(p, *final(r.unwrap()))
            },
            old(self).read_position(index as int) is None ==> r is None && final(self)@ == old(self)@,
    {
        let k = match self.index_conv(index) {
            Some(k) => k,
            None => return None,
        };
        proof {
            self.lemma_read_position(index as int);
            if let Some(p) = self.read_position(index as int) {
                self.lemma_replace_slot(p);
            } else {
                self.lemma_empty_slot_stays(k as int);
            }
        }
        let r = self.slots[k].as_mut();
        r
    }

    /// The oldest element, or `None` when the buffer is empty.
    pub fn first(&self) -> (r: Option<&T>)
        requires
            self.wf(),
        ensures
            r == (if self@.len() > 0 { Some(&self@[0]) } else { None::<&T> }),
    {
        self.get(0)
    }

    /// What `get` returns at the position one before the tail slot's number.
    /// Until the buffer first wraps, the head is slot 0 and this is the
    /// newest element; once it has wrapped, the slot number no longer equals
    /// a position and another element (or `None`) comes back. A tail at
    /// slot 0 has no position before it.
    pub fn last(&self) -> (r: Option<&T>)
        requires
            self.wf(),
            self.tail_slot() > 0,
        ensures
            r == (match self.read_position(self.tail_slot() - 1) {
                Some(p) => Some(&self@[p]),
                None => None::<&T>,
            }),
    {
        self.get(self.tail - 1)
    }

    /// The slot that holds the oldest element.
    pub fn head(&self) -> (r: usize)
        ensures
            r == self.head_slot(),
    {
        self.head
    }

    /// The slot the next pushed element is written to.
    pub fn tail(&self) -> (r: usize)
        ensures
            r == self.tail_slot(),
    {
        self.tail
    }

    /// The number of stored elements.
    pub fn len(&self) -> (r: usize)
        requires
            self.wf(),
        ensures
            r == self@.len(),
    {
        self.len
    }

    /// Whether no element is stored.
    pub fn is_empty(&self) -> (r: bool)
        requires
            self.wf(),
        ensures
            r == (self@.len() == 0),
    {
        self.len() == 0
    }
}

/// Walks a buffer's elements from the oldest to the newest.
pub struct RingBufFiniteIter<'a, T> {
    buf: &'a RingBuf<T>,
    cur: usize,
}

impl<'a, T> RingBufFiniteIter<'a, T> {
    /// The elements still to be yielded, in order.
    pub closed spec fn remaining(&self) -> Seq<T> {
        self.buf@.skip(self.cur as int)
    }

    /// The walk is over a well-formed buffer and has not run past its end.
    pub closed spec fn wf(&self) -> bool {
        self.buf.wf() && self.cur <= self.buf@.len()
    }

    /// Yields the next element, or `None` once every element has been yielded.
    pub fn next(&mut self) -> (r: Option<&'a T>)
        requires
            old(self).wf(),
        ensures
            final(self).wf(),
            old(self).remaining().len() == 0 ==> r is None && final(self).remaining() == old(self).remaining(),
            old(self).remaining().len() > 0 ==> r == Some(&old(self).remaining()[0])
                && final(self).remaining() == old(self).remaining().skip(1),
    {
        if self.cur < self.buf.len() {
            let item = self.buf.get(self.cur);
            self.cur += 1;
            assert(self.remaining() =~= old(self).remaining().skip(1));
            item
        } else {
            None
        }
    }
}

impl<T> RingBuf<T> {
    /// A walk over the elements, oldest first.
    pub fn iter<'a>(&'a self) -> (r: RingBufFiniteIter<'a, T>)
        requires
            self.wf(),
        ensures
            r.wf(),
            r.remaining() == self@,
    {
        let r = RingBufFiniteIter { buf: self, cur: 0 };
        assert(r.remaining() =~= self@);
        r
    }
}

/// Walks a buffer's elements from the oldest to the newest, lending each one
/// mutably.
pub struct RingBufFiniteIterMut<'a, T> {
    /// The buffer being walked.
    pub buf: &'a mut RingBuf<T>,
    /// The logical position of the next element to lend.
    pub cur: usize,
}

impl<'a, T> RingBufFiniteIterMut<'a, T> {
    /// The buffer's contents as they stand now.
    pub open spec fn contents(&self) -> Seq<T> {
        (*self.buf)@
    }

    /// The logical position of the next element to lend.
    pub open spec fn position(&self) -> nat {
        self.cur as nat
    }

    /// The walk is over a well-formed buffer and has not run past its end.
    pub open spec fn wf(&self) -> bool {
        self.buf.wf() && self.cur <= self.buf@.len()
    }

    /// Lends the next element, or returns `None` once every element has been lent.
    pub fn next(&mut self) -> (r: Option<&mut T>)
        requires
            old(self).wf(),
        ensures
            final(self).wf(),
            *final(final(self).buf) == *final(old(self).buf),
            (*final(self).buf).capacity() == (*old(self).buf).capacity(),
            (*final(self).buf).head_slot() == (*old(self).buf).head_slot(),
            (*final(self).buf).tail_slot() == (*old(self).buf).tail_slot(),
            old(self).position() == old(self).contents().len() ==> {
                &&& r is None
                &&& final(self).position() == old(self).position()
                &&& *final(self).buf == *old(self).buf
            },
            old(self).position() < old(self).contents().len() ==> {
                &&& r is Some
                &&& *r.unwrap() == old(self).contents()[old(self).position() as int]
                &&& final(self).position() == old(self).position() + 1
                &&& final(self).contents() == old(self).contents().update(
                    old(self).position() as int,
                    *final(r.unwrap()),
                )
            },
    {
        if self.cur < self.buf.len() {
            let i = self.cur;
            self.cur += 1;
            self.buf.get_mut(i)
        } else {
            None
        }
    }
}

impl<T> RingBuf<T> {
    /// A walk over the elements, oldest first, lending each one mutably.
    pub fn iter_mut<'a>(&'a mut self) -> (r: RingBufFiniteIterMut<'a, T>)
        requires
            old(self).wf(),
        ensures
            r.wf(),
            *r.buf == *old(self),
            r.position() == 0,
            *final(r.buf) == *final(self),
    {
        RingBufFiniteIterMut { buf: self, cur: 0 }
    }
}

/// Hands out a buffer's elements by value, from the oldest to the newest.
pub struct RingBufFiniteIntoIter<T> {
    buf: RingBuf<T>,
    cur: usize,
}

impl<T> RingBufFiniteIntoIter<T> {
    /// The elements still to be handed out, in order.
    pub closed spec fn remaining(&self) -> Seq<T> {
        self.buf@.skip(self.cur as int)
    }

    /// Every element not yet handed out is still in its slot.
    pub closed spec fn wf(&self) -> bool {
        &&& self.buf.shape_wf()
        &&& self.buf.live_from(self.cur as int)
        &&& self.cur <= self.buf.len
    }

    /// Hands out the next element, or returns `None` once every element has
    /// been handed out.
    pub fn next(&mut self) -> (r: Option<T>)
        requires
            old(self).wf(),
        ensures
            final(self).wf(),
            old(self).remaining().len() == 0 ==> r is None && final(self).remaining() == old(self).remaining(),
            old(self).remaining().len() > 0 ==> r == Some(old(self).remaining()[0])
                && final(self).remaining() == old(self).remaining().skip(1),
    {
        if self.cur < self.buf.len {
            let k = self.buf.index_conv(self.cur).unwrap();
            let ghost pre = *self;
            let mut item: Option<T> = None;
            std::mem::swap(&mut item, &mut self.buf.slots[k]);
            self.cur += 1;
            proof {
                assert forall|i: int| self.cur <= i < self.buf.len implies (#[trigger] self.buf.slots@[self.buf.slot_of(i)]) is Some by {
                    pre.buf.lemma_slot_of(i);
                    pre.buf.lemma_slot_of(pre.cur as int);
                }
                assert forall|i: int| 0 <= i < self.remaining().len() implies #[trigger] self.remaining()[i] == pre.remaining().skip(1)[i] by {
                    pre.buf.lemma_slot_of(self.cur + i);
                    pre.buf.lemma_slot_of(pre.cur as int);
                }
                assert(self.remaining() =~= pre.remaining().skip(1));
            }
            item
        } else {
            None
        }
    }
}

impl<T> RingBuf<T> {
    /// Turns the buffer into a walk that hands out its elements by value,
    /// oldest first.
    pub fn into_iter(self) -> (r: RingBufFiniteIntoIter<T>)
        requires
            self.wf(),
        ensures
            r.wf(),
            r.remaining() == self@,
    {
        let r = RingBufFiniteIntoIter { buf: self, cur: 0 };
        assert(r.remaining() =~= self@);
        r
    }

    /// The elements in a vector, oldest first.
    fn into_vec(self) -> (r: Vec<T>)
        requires
            self.wf(),
        ensures
            r@ == self@,
    {
        let ghost all = self@;
        let mut it = self.into_iter();
        let mut out: Vec<T> = Vec::new();
        loop
            invariant
                it.wf(),
                out@ + it.remaining() == all,
            ensures
                out@ == all,
            decreases it.remaining().len(),
        {
            let ghost before = it.remaining();
            match it.next() {
                Some(x) => {
                    out.push(x);
                    assert(out@ + it.remaining() =~= all) by {
                        assert(before =~= seq![x] + before.skip(1));
                    }
                },
                None => {
                    assert(out@ =~= all);
                    break;
                },
            }
        }
        out
    }

    /// The elements as a boxed slice, oldest first: both the order of the
    /// elements and the starting point are kept.
    pub fn into_new_slice(self) -> (r: Box<[T]>)
        requires
            self.wf(),
        ensures
            r@ == self@,
    {
        crate::std_calls::into_boxed(self.into_vec())
    }
}

impl<T> RingBuf<T> {
    /// Where the view starts in slot order, computed without overflow.
    fn slot_order_start_exec(&self) -> (k: usize)
        requires
            self.wf(),
        ensures
            k == self.slot_order_start(),
            k <= self@.len(),
    {
        if self.head <= self.cap - self.len {
            0
        } else {
            self.cap - self.head
        }
    }

    /// The stored elements in slot order, as a boxed slice: the order of the
    /// elements is kept (cyclically) but not the starting point.
    pub fn into_slice(self) -> (r: Box<[T]>)
        requires
            self.wf(),
        ensures
            r@ == rotated(self@, self.slot_order_start()),
    {
        let k = self.slot_order_start_exec();
        let ghost all = self@;
        let mut front = self.into_vec();
        let mut back = front.split_off(k);
        back.append(&mut front);
        assert(back@ =~= rotated(all, k as int));
        crate::std_calls::into_boxed(back)
    }

    /// References to the stored elements in slot order: the order of the
    /// elements is kept (cyclically) but not the starting point.
    pub fn as_slice(&self) -> (r: Vec<&T>)
        requires
            self.wf(),
        ensures
            r@.len() == self@.len(),
            forall|m: int| 0 <= m < r@.len() ==> *r@[m] == rotated(self@, self.slot_order_start())[m],
    {
        let k = self.slot_order_start_exec();
        let len = self.len;
        let mut out: Vec<&T> = Vec::new();
        let mut m: usize = 0;
        while m < len
            invariant
                self.wf(),
                len == self@.len(),
                k == self.slot_order_start(),
                k <= len,
                m <= len,
                out@.len() == m,
                forall|q: int| 0 <= q < m ==> *out@[q] == rotated(self@, k as int)[q],
            decreases len - m,
        {
            let i = if m < len - k { k + m } else { m - (len - k) };
            out.push(self.get(i).unwrap());
            m += 1;
        }
        out
    }
}

impl<T: Clone> Clone for RingBuf<T> {
    /// A buffer with the same capacity and cursors whose every element is a
    /// clone of the element at the same position.
    fn clone(&self) -> (r: Self)
        ensures
            self.wf() ==> {
                &&& r.wf()
                &&& r.capacity() == self.capacity()
                &&& r.head_slot() == self.head_slot()
                &&& r.tail_slot() == self.tail_slot()
                &&& r@.len() == self@.len()
                &&& forall|i: int| 0 <= i < self@.len() ==> cloned::<T>(self@[i], #[trigger] r@[i])
            },
    {
        let mut out: Vec<Option<T>> = Vec::new();
        let mut j: usize = 0;
        while j < self.slots.len()
            invariant
                j <= self.slots@.len(),
                out@.len() == j,
                forall|m: int| 0 <= m < j ==> {
                    &&& (self.slots@[m] is None ==> out@[m] is None)
                    &&& (self.slots@[m] is Some ==> (#[trigger] out@[m]) is Some
                        && cloned::<T>(self.slots@[m]->0, out@[m]->0))
                },
            decreases self.slots@.len() - j,
        {
            out.push(self.slots[j].clone());
            j += 1;
        }
        let r = RingBuf { cap: self.cap, len: self.len, head: self.head, tail: self.tail, slots: out };
        proof {
            if self.wf() {
                assert forall|i: int| 0 <= i < r.len implies (#[trigger] r.slots@[r.slot_of(i)]) is Some by {
                    self.lemma_slot_of(i);
                }
                assert forall|i: int| 0 <= i < self@.len() implies cloned::<T>(self@[i], #[trigger] r@[i]) by {
                    self.lemma_slot_of(i);
                }
            }
        }
        r
    }
}

impl<T> core::ops::Index<usize> for RingBuf<T> {
    type Output = T;

    /// The element that `get(index)` returns; callers show that there is one.
    fn index(&self, index: usize) -> (r: &T)
        ensures
            *r == self@[self.read_position(index as int)->0],
    {
        proof {
            self.lemma_read_position(index as int);
        }
        let k = self.index_conv(index).unwrap();
        self.slots[k].as_ref().unwrap()
    }
}

impl<T> vstd::std_specs::core::IndexSpecImpl<usize> for RingBuf<T> {
    open spec fn index_req(&self, index: &usize) -> bool {
        self.wf() && self.read_position(*index as int) is Some
    }
}

} // verus!
