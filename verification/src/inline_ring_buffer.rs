use vstd::prelude::*;

verus! {

/// `x` reduced once by `n`: the physical slot of a position that lies in `0 .. 2 * n`.
pub open spec fn wrap(x: int, n: int) -> int {
    if x < n {
        x
    } else {
        x - n
    }
}

/// Contents after `push_head`: the item goes to the head end; when the buffer
/// is already full, the item at the tail end is dropped to make room.
pub open spec fn ring_push_head<T>(s: Seq<T>, item: T, cap: nat) -> Seq<T> {
    if s.len() >= cap {
        s.drop_first().push(item)
    } else {
        s.push(item)
    }
}

/// Contents after `push_tail`: the item goes to the tail end; when the buffer
/// is already full, the item at the head end is dropped to make room.
pub open spec fn ring_push_tail<T>(s: Seq<T>, item: T, cap: nat) -> Seq<T> {
    if s.len() >= cap {
        seq![item] + s.drop_last()
    } else {
        seq![item] + s
    }
}

/// Contents after pushing each item of `xs` in turn at the head end.
pub open spec fn ring_push_head_all<T>(s: Seq<T>, xs: Seq<T>, cap: nat) -> Seq<T>
    decreases xs.len(),
{
    if xs.len() == 0 {
        s
    } else {
        ring_push_head(ring_push_head_all(s, xs.drop_last(), cap), xs.last(), cap)
    }
}

/// Contents after pushing each item of `xs` in turn at the tail end.
pub open spec fn ring_push_tail_all<T>(s: Seq<T>, xs: Seq<T>, cap: nat) -> Seq<T>
    decreases xs.len(),
{
    if xs.len() == 0 {
        s
    } else {
        ring_push_tail(ring_push_tail_all(s, xs.drop_last(), cap), xs.last(), cap)
    }
}

/// The last `cap` items of `xs` (all of them when there are fewer).
pub open spec fn last_items<T>(xs: Seq<T>, cap: nat) -> Seq<T> {
    if xs.len() <= cap {
        xs
    } else {
        xs.subrange(xs.len() - cap, xs.len() as int)
    }
}

/// A push at the head end that needs no room to be made is undone by a pop
/// at the head end, which hands the pushed item back.
pub proof fn lemma_push_head_pop_head<T>(s: Seq<T>, item: T, cap: nat)
    requires
        s.len() < cap,
    ensures
        ring_push_head(s, item, cap).last() == item,
        ring_push_head(s, item, cap).drop_last() == s,
{
    assert(ring_push_head(s, item, cap).drop_last() =~= s);
}

/// A push at the tail end that needs no room to be made is undone by a pop
/// at the tail end, which hands the pushed item back.
pub proof fn lemma_push_tail_pop_tail<T>(s: Seq<T>, item: T, cap: nat)
    requires
        s.len() < cap,
    ensures
        ring_push_tail(s, item, cap)[0] == item,
        ring_push_tail(s, item, cap).drop_first() == s,
{
    assert(ring_push_tail(s, item, cap).drop_first() =~= s);
}

/// A push never lets the contents grow past the capacity: it adds one item
/// until the buffer is full and keeps the length after that.
pub proof fn lemma_push_len<T>(s: Seq<T>, item: T, cap: nat)
    requires
        0 < cap,
        s.len() <= cap,
    ensures
        ring_push_head(s, item, cap).len() == if s.len() < cap { s.len() + 1 } else { cap },
        ring_push_tail(s, item, cap).len() == if s.len() < cap { s.len() + 1 } else { cap },
{
}

/// Pushing at the tail end is pushing at the head end of the reversed buffer.
pub proof fn lemma_push_tail_mirrors_push_head<T>(s: Seq<T>, item: T, cap: nat)
    requires
        0 < cap,
        s.len() <= cap,
    ensures
        ring_push_tail(s, item, cap) == ring_push_head(s.reverse(), item, cap).reverse(),
{
    if s.len() >= cap {
        let l = ring_push_tail(s, item, cap);
        let r = ring_push_head(s.reverse(), item, cap).reverse();
        assert forall|i: int| 0 <= i < l.len() implies l[i] == r[i] by {
            if i > 0 {
                assert(r[i] == s.reverse().drop_first()[s.len() - 1 - i]);
            }
        }
        assert(l =~= r);
    } else {
        assert(ring_push_tail(s, item, cap) =~= ring_push_head(s.reverse(), item, cap).reverse());
    }
}

/// Pushing a sequence of items at the head end of an empty ring buffer
/// leaves the last `cap` of them, in the order they were pushed.
pub proof fn lemma_push_head_all_keeps_last<T>(xs: Seq<T>, cap: nat)
    requires
        0 < cap,
    ensures
        ring_push_head_all(Seq::empty(), xs, cap) == last_items(xs, cap),
    decreases xs.len(),
{
    if xs.len() > 0 {
        lemma_push_head_all_keeps_last(xs.drop_last(), cap);
        assert(ring_push_head_all(Seq::empty(), xs, cap) =~= last_items(xs, cap));
    }
}

/// Pushing a sequence of items at the tail end of an empty ring buffer
/// leaves the last `cap` of them, the last one pushed first.
pub proof fn lemma_push_tail_all_keeps_last<T>(xs: Seq<T>, cap: nat)
    requires
        0 < cap,
    ensures
        ring_push_tail_all(Seq::empty(), xs, cap) == last_items(xs, cap).reverse(),
    decreases xs.len(),
{
    if xs.len() > 0 {
        lemma_push_tail_all_keeps_last(xs.drop_last(), cap);
        assert(ring_push_tail_all(Seq::empty(), xs, cap) =~= last_items(xs, cap).reverse());
    }
}

/// Moving the offset one slot back and then one slot forward returns it to
/// where it was, and the other way round: `increment_offset` undoes
/// `decrement_offset`.
pub proof fn lemma_offset_round_trip(o: int, n: int)
    requires
        0 <= o < n,
    ensures
        wrap(wrap(o + n - 1, n) + 1, n) == o,
        wrap(wrap(o + 1, n) + n - 1, n) == o,
{
}

/// One call on a ring buffer.
pub enum RingOp<T> {
    PushHead(T),
    PushTail(T),
    PopHead,
    PopTail,
}

/// Contents after the call `op`.
pub open spec fn ring_apply<T>(s: Seq<T>, op: RingOp<T>, cap: nat) -> Seq<T> {
    match op {
        RingOp::PushHead(item) => ring_push_head(s, item, cap),
        RingOp::PushTail(item) => ring_push_tail(s, item, cap),
        RingOp::PopHead => if s.len() == 0 {
            s
        } else {
            s.drop_last()
        },
        RingOp::PopTail => if s.len() == 0 {
            s
        } else {
            s.drop_first()
        },
    }
}

/// What the call `op` hands back: the popped item, `None` from an empty
/// buffer, and `None` for a push, which hands back nothing.
pub open spec fn ring_output<T>(s: Seq<T>, op: RingOp<T>) -> Option<T> {
    match op {
        RingOp::PopHead => if s.len() == 0 {
            None
        } else {
            Some(s.last())
        },
        RingOp::PopTail => if s.len() == 0 {
            None
        } else {
            Some(s[0])
        },
        _ => None,
    }
}

/// Contents after the calls `ops`, in order.
pub open spec fn ring_run<T>(s: Seq<T>, ops: Seq<RingOp<T>>, cap: nat) -> Seq<T>
    decreases ops.len(),
{
    if ops.len() == 0 {
        s
    } else {
        ring_apply(ring_run(s, ops.drop_last(), cap), ops.last(), cap)
    }
}

/// What each of the calls `ops` hands back, in order.
pub open spec fn ring_outputs<T>(s: Seq<T>, ops: Seq<RingOp<T>>, cap: nat) -> Seq<Option<T>>
    decreases ops.len(),
{
    if ops.len() == 0 {
        Seq::empty()
    } else {
        ring_outputs(s, ops.drop_last(), cap).push(ring_output(ring_run(s, ops.drop_last(), cap), ops.last()))
    }
}

/// A push at the head end of each item of `xs`, in order.
pub open spec fn head_pushes<T>(xs: Seq<T>) -> Seq<RingOp<T>> {
    Seq::new(xs.len(), |i: int| RingOp::PushHead(xs[i]))
}

/// `n` pops at the tail end.
pub open spec fn tail_pops<T>(n: nat) -> Seq<RingOp<T>> {
    Seq::new(n, |i: int| RingOp::<T>::PopTail)
}

/// Running `a` and then `b` is running `b` on what `a` left.
pub proof fn lemma_ring_run_append<T>(s: Seq<T>, a: Seq<RingOp<T>>, b: Seq<RingOp<T>>, cap: nat)
    ensures
        ring_run(s, a + b, cap) == ring_run(ring_run(s, a, cap), b, cap),
        ring_outputs(s, a + b, cap) == ring_outputs(s, a, cap) + ring_outputs(ring_run(s, a, cap), b, cap),
    decreases b.len(),
{
    if b.len() == 0 {
        assert(a + b =~= a);
        assert(ring_outputs(s, a, cap) + ring_outputs(ring_run(s, a, cap), b, cap) =~= ring_outputs(s, a, cap));
    } else {
        assert((a + b).drop_last() =~= a + b.drop_last());
        assert((a + b).last() == b.last());
        lemma_ring_run_append(s, a, b.drop_last(), cap);
        assert(ring_outputs(s, a + b, cap) =~= ring_outputs(s, a, cap) + ring_outputs(ring_run(s, a, cap), b, cap));
    }
}

/// No sequence of calls lets the contents grow past the capacity; and a
/// sequence of pushes alone, at either end, leaves
/// `min(s.len() + pushes, cap)` items.
pub proof fn lemma_ring_run_len<T>(s: Seq<T>, ops: Seq<RingOp<T>>, cap: nat)
    requires
        0 < cap,
        s.len() <= cap,
    ensures
        ring_run(s, ops, cap).len() <= cap,
        (forall|i: int| 0 <= i < ops.len() ==> (#[trigger] ops[i] is PushHead || ops[i] is PushTail))
            ==> ring_run(s, ops, cap).len() == if s.len() + ops.len() < cap {
            s.len() + ops.len()
        } else {
            cap
        },
    decreases ops.len(),
{
    if ops.len() > 0 {
        lemma_ring_run_len(s, ops.drop_last(), cap);
        if forall|i: int| 0 <= i < ops.len() ==> (#[trigger] ops[i] is PushHead || ops[i] is PushTail) {
            assert forall|i: int| 0 <= i < ops.drop_last().len() implies (#[trigger] ops.drop_last()[i] is PushHead
                || ops.drop_last()[i] is PushTail) by {
                assert(ops.drop_last()[i] == ops[i]);
            }
            assert(ops[ops.len() - 1] is PushHead || ops[ops.len() - 1] is PushTail);
        }
    }
}

proof fn lemma_head_pushes_fill<T>(xs: Seq<T>, cap: nat)
    requires
        xs.len() <= cap,
    ensures
        ring_run(Seq::empty(), head_pushes(xs), cap) == xs,
        ring_outputs(Seq::empty(), head_pushes(xs), cap) == Seq::new(xs.len(), |i: int| None::<T>),
    decreases xs.len(),
{
    if xs.len() > 0 {
        assert(head_pushes(xs).drop_last() =~= head_pushes(xs.drop_last()));
        lemma_head_pushes_fill(xs.drop_last(), cap);
        assert(ring_run(Seq::empty(), head_pushes(xs), cap) =~= xs);
        assert(ring_outputs(Seq::empty(), head_pushes(xs), cap) =~= Seq::new(xs.len(), |i: int| None::<T>));
    }
}

proof fn lemma_tail_pops_drain<T>(s: Seq<T>, cap: nat)
    ensures
        ring_run(s, tail_pops(s.len() + 1), cap) == Seq::<T>::empty(),
        ring_outputs(s, tail_pops(s.len() + 1), cap) == s.map_values(|x: T| Some(x)).push(None),
    decreases s.len(),
{
    let one = seq![RingOp::<T>::PopTail];
    assert(one.drop_last() =~= Seq::<RingOp<T>>::empty());
    assert(ring_run(s, one.drop_last(), cap) == s);
    assert(ring_outputs(s, one.drop_last(), cap) == Seq::<Option<T>>::empty());
    assert(ring_run(s, one, cap) == ring_apply(s, RingOp::PopTail, cap));
    assert(ring_outputs(s, one, cap) =~= seq![ring_output(s, RingOp::<T>::PopTail)]);
    if s.len() == 0 {
        assert(tail_pops::<T>(1) =~= one);
        assert(ring_outputs(s, tail_pops(s.len() + 1), cap) =~= s.map_values(|x: T| Some(x)).push(None));
    } else {
        assert(tail_pops::<T>(s.len() + 1) =~= one + tail_pops::<T>(s.drop_first().len() + 1));
        lemma_ring_run_append(s, one, tail_pops::<T>(s.drop_first().len() + 1), cap);
        lemma_tail_pops_drain(s.drop_first(), cap);
        assert(ring_run(s, one, cap) == s.drop_first());
        assert(s.map_values(|x: T| Some(x)).push(None) =~= seq![Some(s[0])] + s.drop_first().map_values(
            |x: T| Some(x),
        ).push(None));
        assert(ring_outputs(s, tail_pops(s.len() + 1), cap) =~= s.map_values(|x: T| Some(x)).push(None));
    }
}

/// The buffer is first in, first out: pushing up to `cap` items at the head
/// end of an empty buffer and then popping at the tail end hands the items
/// back in the order they were pushed, then `None`, and leaves it empty.
pub proof fn lemma_fifo<T>(xs: Seq<T>, cap: nat)
    requires
        xs.len() <= cap,
    ensures
        ring_run(Seq::empty(), head_pushes(xs) + tail_pops(xs.len() + 1), cap) == Seq::<T>::empty(),
        ring_outputs(Seq::empty(), head_pushes(xs) + tail_pops(xs.len() + 1), cap) == Seq::new(
            xs.len(),
            |i: int| None::<T>,
        ) + xs.map_values(|x: T| Some(x)).push(None),
{
    lemma_ring_run_append(Seq::empty(), head_pushes(xs), tail_pops(xs.len() + 1), cap);
    lemma_head_pushes_fill(xs, cap);
    lemma_tail_pops_drain(xs, cap);
}

proof fn lemma_wrap_is_mod(x: int, n: int)
    requires
        0 < n,
        0 <= x < 2 * n,
    ensures
        wrap(x, n) == x % n,
{
    if x < n {
        vstd::arithmetic::div_mod::lemma_small_mod(x as nat, n as nat);
    } else {
        vstd::arithmetic::div_mod::lemma_small_mod((x - n) as nat, n as nat);
        vstd::arithmetic::div_mod::lemma_mod_add_multiples_vanish(x - n, n);
    }
}

/// A ring buffer of at most `N` items, kept inline in an array of `N` slots.
/// Position 0 is the tail end, position `len - 1` the head end; position `k`
/// lives in slot `(offset + k) % N`.
pub struct InlineRingBuf<T, const N: usize> {
    buffer: [Option<T>; N],
    len: usize,
    offset: usize,
}

impl<T, const N: usize> View for InlineRingBuf<T, N> {
    type V = Seq<T>;

    /// The items from the tail end (index 0) to the head end.
    closed spec fn view(&self) -> Seq<T> {
        Seq::new(self.len as nat, |k: int| self.buffer@[self.slot(k)]->Some_0)
    }
}

impl<T, const N: usize> InlineRingBuf<T, N> {
    spec fn slot(&self, k: int) -> int {
        wrap(self.offset + k, N as int)
    }

    spec fn shape(&self) -> bool {
        &&& self.buffer@.len() == N
        &&& self.len <= N
        &&& if N == 0 {
            self.offset == 0
        } else {
            self.offset < N
        }
    }

    /// The buffer has `N` slots, the offset names one of them (or is 0 when
    /// there are none), and every occupied position holds an item.
    pub closed spec fn inv(&self) -> bool {
        &&& self.shape()
        &&& forall|k: int| 0 <= k < self.len ==> (#[trigger] self.buffer@[self.slot(k)]) is Some
    }

    /// Well formed, hence never more than `N` items.
    pub open spec fn wf(&self) -> bool {
        &&& self.inv()
        &&& self@.len() <= N
    }

    /// An empty ring buffer.
    pub fn new() -> (r: Self)
        ensures
            r.wf(),
            r@ == Seq::<T>::empty(),
    {
        let r = InlineRingBuf { buffer: vacant_slots(), len: 0, offset: 0 };
        assert(r@ =~= Seq::<T>::empty());
        r
    }

    /// The number of items the buffer can hold.
    pub fn capacity(&self) -> (r: usize)
        ensures
            r == N,
    {
        N
    }

    /// The slot of position `index`: `(offset + index) % N`, computed without overflow.
    fn physical_index(&self, index: usize) -> (r: usize)
        requires
            self.shape(),
            index < N,
        ensures
            r == self.slot(index as int),
            r == (self.offset + index) % (N as int),
            r < N,
    {
        proof {
            lemma_wrap_is_mod(self.offset + index, N as int);
        }
        if index < N - self.offset {
            self.offset + index
        } else {
            index - (N - self.offset)
        }
    }

    fn increment_offset(&mut self)
        requires
            N > 0,
            old(self).offset < N,
        ensures
            final(self).offset == wrap(old(self).offset + 1, N as int),
            final(self).buffer == old(self).buffer,
            final(self).len == old(self).len,
    {
        let offset = self.offset + 1;
        if offset >= N {
            self.offset = 0;
        } else {
            self.offset = offset;
        }
    }

    fn decrement_offset(&mut self)
        requires
            N > 0,
            old(self).offset < N,
        ensures
            final(self).offset == wrap(old(self).offset + N - 1, N as int),
            final(self).buffer == old(self).buffer,
            final(self).len == old(self).len,
    {
        if self.offset == 0 {
            self.offset = N - 1;
        } else {
            self.offset = self.offset - 1;
        }
    }

    /// Adds `item` at the head end. When the buffer is full, the item at the
    /// tail end is dropped first.
    pub fn push_head(&mut self, item: T)
        requires
            old(self).wf(),
            N > 0,
        ensures
            final(self).wf(),
            final(self)@ == ring_push_head(old(self)@, item, N as nat),
            final(self)@ == ring_apply(old(self)@, RingOp::PushHead(item), N as nat),
    {
        let ghost s = self@;
        if self.len >= N {
            let slot = self.offset;
            self.buffer[slot] = Some(item);
            self.increment_offset();
            proof {
                assert forall|k: int| 0 <= k < self.len implies (#[trigger] self.buffer@[self.slot(k)]) is Some by {
                    if k < N - 1 {
                        assert(old(self).buffer@[old(self).slot(k + 1)] is Some);
                    }
                }
                assert(self@ =~= s.drop_first().push(item)) by {
                    assert forall|k: int| 0 <= k < N - 1 implies self@[k] == s[k + 1] by {
                        assert(old(self).buffer@[old(self).slot(k + 1)] is Some);
                    }
                }
            }
            return;
        }
        let slot = self.physical_index(self.len);
        self.buffer[slot] = Some(item);
        self.len = self.len + 1;
        proof {
            assert forall|k: int| 0 <= k < self.len implies (#[trigger] self.buffer@[self.slot(k)]) is Some by {
                if k < self.len - 1 {
                    assert(old(self).buffer@[old(self).slot(k)] is Some);
                }
            }
            assert(self@ =~= s.push(item));
        }
    }

    /// Removes and returns the item at the head end, or `None` when empty.
    pub fn pop_head(&mut self) -> (r: Option<T>)
        requires
            old(self).wf(),
        ensures
            final(self).wf(),
            old(self)@.len() == 0 ==> r is None && final(self)@ == old(self)@,
            old(self)@.len() > 0 ==> r == Some(old(self)@.last()) && final(self)@ == old(self)@.drop_last(),
            final(self)@ == ring_apply(old(self)@, RingOp::PopHead, N as nat),
            r == ring_output(old(self)@, RingOp::PopHead),
    {
        if self.len == 0 {
            return None;
        }
        let ghost s = self@;
        self.len = self.len - 1;
        let slot = self.physical_index(self.len);
        let item = self.buffer[slot].take();
        proof {
            assert forall|k: int| 0 <= k < self.len implies (#[trigger] self.buffer@[self.slot(k)]) is Some by {
                assert(old(self).buffer@[old(self).slot(k)] is Some);
            }
            assert(self@ =~= s.drop_last());
        }
        item
    }

    /// Adds `item` at the tail end. When the buffer is full, the item at the
    /// head end is dropped first.
    pub fn push_tail(&mut self, item: T)
        requires
            old(self).wf(),
            N > 0,
        ensures
            final(self).wf(),
            final(self)@ == ring_push_tail(old(self)@, item, N as nat),
            final(self)@ == ring_apply(old(self)@, RingOp::PushTail(item), N as nat),
    {
        let ghost s = self@;
        if self.len >= N {
            let slot = self.physical_index(self.len - 1);
            self.buffer[slot] = Some(item);
            self.decrement_offset();
            proof {
                assert forall|k: int| 0 <= k < self.len implies (#[trigger] self.buffer@[self.slot(k)]) is Some by {
                    if k > 0 {
                        assert(old(self).buffer@[old(self).slot(k - 1)] is Some);
                    }
                }
                assert(self@ =~= seq![item] + s.drop_last()) by {
                    assert forall|k: int| 0 < k < N implies self@[k] == s[k - 1] by {
                        assert(old(self).buffer@[old(self).slot(k - 1)] is Some);
                    }
                }
            }
            return;
        }
        self.decrement_offset();
        let slot = self.physical_index(0);
        self.buffer[slot] = Some(item);
        self.len = self.len + 1;
        proof {
            assert forall|k: int| 0 <= k < self.len implies (#[trigger] self.buffer@[self.slot(k)]) is Some by {
                if k > 0 {
                    assert(old(self).buffer@[old(self).slot(k - 1)] is Some);
                }
            }
            assert(self@ =~= seq![item] + s) by {
                assert forall|k: int| 0 < k < self.len implies self@[k] == s[k - 1] by {
                    assert(old(self).buffer@[old(self).slot(k - 1)] is Some);
                }
            }
        }
    }

    /// Removes and returns the item at the tail end, or `None` when empty.
    pub fn pop_tail(&mut self) -> (r: Option<T>)
        requires
            old(self).wf(),
        ensures
            final(self).wf(),
            old(self)@.len() == 0 ==> r is None && final(self)@ == old(self)@,
            old(self)@.len() > 0 ==> r == Some(old(self)@[0]) && final(self)@ == old(self)@.drop_first(),
            final(self)@ == ring_apply(old(self)@, RingOp::PopTail, N as nat),
            r == ring_output(old(self)@, RingOp::PopTail),
    {
        if self.len == 0 {
            return None;
        }
        let ghost s = self@;
        let slot = self.physical_index(0);
        let item = self.buffer[slot].take();
        self.len = self.len - 1;
        self.increment_offset();
        proof {
            assert forall|k: int| 0 <= k < self.len implies (#[trigger] self.buffer@[self.slot(k)]) is Some by {
                assert(old(self).buffer@[old(self).slot(k + 1)] is Some);
            }
            assert(self@ =~= s.drop_first()) by {
                assert forall|k: int| 0 <= k < self.len implies self@[k] == s[k + 1] by {
                    assert(old(self).buffer@[old(self).slot(k + 1)] is Some);
                }
            }
        }
        item
    }

    /// The number of items held.
    pub fn len(&self) -> (r: usize)
        requires
            self.wf(),
        ensures
            r == self@.len(),
    {
        self.len
    }

    /// Whether no item is held.
    pub fn is_empty(&self) -> (r: bool)
        requires
            self.wf(),
        ensures
            r == (self@.len() == 0),
    {
        self.len == 0
    }

    /// The item at position `index`, counted from the tail end.
    pub fn get(&self, index: usize) -> (r: Option<&T>)
        requires
            self.wf(),
        ensures
            r == if index < self@.len() {
                Some(&self@[index as int])
            } else {
                None
            },
    {
        if self.len <= index {
            None
        } else {
            let slot = self.physical_index(index);
            match &self.buffer[slot] {
                Some(x) => Some(x),
                None => {
                    assert(self.buffer@[self.slot(index as int)] is Some);
                    None
                },
            }
        }
    }

    /// An iterator over the items, from the tail end to the head end.
    pub fn iter(&self) -> (r: InlineRingBufIter<'_, T, N>)
        requires
            self.wf(),
        ensures
            r.wf(),
            r@ == self@,
    {
        let r = InlineRingBufIter { buf: self, index: 0, end: self.len };
        assert(r@ =~= self@);
        r
    }
}

impl<T, const N: usize> Default for InlineRingBuf<T, N> {
    fn default() -> (r: Self)
        ensures
            r.wf(),
            r@ == Seq::<T>::empty(),
    {
        Self::new()
    }
}

/// Slot `i` of `slots` holds item `i` of `items`, for every `i`.
pub open spec fn slots_hold<T, const N: usize>(slots: [Option<T>; N], items: [T; N]) -> bool {
    forall|i: int| 0 <= i < N ==> (#[trigger] slots@[i]) == Some(items@[i])
}

/// The content of a slot that holds nothing.
fn vacant_slot<T>(_position: usize) -> (r: Option<T>)
    ensures
        r is None,
{
    None
}

/// The content of a slot that holds `item`.
fn occupied_slot<T>(item: T) -> (r: Option<T>)
    ensures
        r == Some(item),
{
    Some(item)
}

/// `N` empty slots. Calls std's `core::array::from_fn`, which its
/// documentation says builds the array whose element `i` is `f(i)`, here
/// `vacant_slot(i)`.
#[verifier::external_body]
fn vacant_slots<T, const N: usize>() -> (r: [Option<T>; N])
    ensures
        forall|i: int| 0 <= i < N ==> r@[i] is None,
{
    core::array::from_fn(|i| vacant_slot(i))
}

/// The items of `a` moved into slots, in order. Calls std's `<[T; N]>::map`,
/// which its documentation says returns the array whose element `i` is
/// `f(a[i])`, here `occupied_slot(a[i])`.
#[verifier::external_body]
fn occupied_slots<T, const N: usize>(a: [T; N]) -> (r: [Option<T>; N])
    ensures
        slots_hold(r, a),
{
    a.map(|x| occupied_slot(x))
}

impl<T, const N: usize> From<[T; N]> for InlineRingBuf<T, N> {
    /// A full ring buffer holding the items of `item`, first item at the tail end.
    fn from(item: [T; N]) -> (r: Self)
        ensures
            r.wf(),
            r@ == item@,
    {
        let r = InlineRingBuf { buffer: occupied_slots(item), len: N, offset: 0 };
        assert forall|k: int| 0 <= k < r.len implies (#[trigger] r.buffer@[r.slot(k)]) is Some by {
            assert(r.slot(k) == k);
        }
        assert(r@ =~= item@) by {
            assert forall|k: int| 0 <= k < N implies r@[k] == item@[k] by {
                assert(r.slot(k) == k);
            }
        }
        proof {
            let c = choose|b: [Option<T>; N]| #[trigger] slots_hold(b, item);
            assert(slots_hold(r.buffer, item));
            assert(r.buffer =~= c);
        }
        r
    }
}

impl<T, const N: usize> vstd::std_specs::convert::FromSpecImpl<[T; N]> for InlineRingBuf<T, N> {
    open spec fn obeys_from_spec() -> bool {
        true
    }

    /// Every slot filled from the array, in order, with the tail end at slot 0.
    closed spec fn from_spec(v: [T; N]) -> Self {
        InlineRingBuf {
            buffer: choose|b: [Option<T>; N]| #[trigger] slots_hold(b, v),
            len: N,
            offset: 0,
        }
    }
}

impl<T, const N: usize> core::ops::Index<usize> for InlineRingBuf<T, N> {
    type Output = T;

    /// The item at position `index`, counted from the tail end.
    fn index(&self, index: usize) -> (output: &T)
        ensures
            *output == self@[index as int],
    {
        let slot = self.physical_index(index);
        self.buffer[slot].as_ref().unwrap()
    }
}

impl<T, const N: usize> core::ops::IndexMut<usize> for InlineRingBuf<T, N> {
    fn index_mut(&mut self, index: usize) -> (output: &mut T)
        requires
            old(self).wf(),
            index < old(self)@.len(),
        ensures
            final(self).wf(),
            *output == old(self)@[index as int],
            final(self)@ == old(self)@.update(index as int, *final(output)),
    {
        let slot = self.physical_index(index);
        proof {
            assert forall|b: [Option<T>; N]| b@ == self.buffer@.update(slot as int, b@[slot as int]) && b@[slot as int] is Some
                implies (InlineRingBuf::<T, N> { buffer: b, len: self.len, offset: self.offset }).inv() by {
                let c = InlineRingBuf::<T, N> { buffer: b, len: self.len, offset: self.offset };
                assert forall|k: int| 0 <= k < c.len implies (#[trigger] c.buffer@[c.slot(k)]) is Some by {
                    assert(self.buffer@[self.slot(k)] is Some);
                }
            }
        }
        self.buffer[slot].as_mut().unwrap()
    }
}

impl<T, const N: usize> vstd::std_specs::core::IndexSpecImpl<usize> for InlineRingBuf<T, N> {
    /// Indexing asks for a position that holds an item.
    open spec fn index_req(&self, index: &usize) -> bool {
        self.wf() && *index < self@.len()
    }
}

/// Walks the items of a ring buffer from the tail end, stopping at a bound
/// that `take` can lower.
pub struct InlineRingBufIter<'a, T, const N: usize> {
    buf: &'a InlineRingBuf<T, N>,
    index: usize,
    end: usize,
}

impl<'a, T, const N: usize> View for InlineRingBufIter<'a, T, N> {
    type V = Seq<T>;

    /// The items not yet handed out.
    closed spec fn view(&self) -> Seq<T> {
        self.buf@.subrange(self.index as int, self.end as int)
    }
}

impl<'a, T, const N: usize> InlineRingBufIter<'a, T, N> {
    pub closed spec fn wf(&self) -> bool {
        &&& self.buf.wf()
        &&& self.index <= self.end <= self.buf@.len()
    }

    /// Hands out the next item, or `None` when none is left.
    pub fn next(&mut self) -> (r: Option<&'a T>)
        requires
            old(self).wf(),
        ensures
            final(self).wf(),
            old(self)@.len() == 0 ==> r is None && final(self)@ == old(self)@,
            old(self)@.len() > 0 ==> r == Some(&old(self)@[0]) && final(self)@ == old(self)@.drop_first(),
    {
        if self.index >= self.end {
            return None;
        }
        let buf = self.buf;
        let result = buf.get(self.index);
        if result.is_some() {
            self.index = self.index + 1;
        }
        assert(self@ =~= old(self)@.drop_first());
        result
    }

    /// The number of items left, as a lower and an upper bound.
    pub fn size_hint(&self) -> (r: (usize, Option<usize>))
        requires
            self.wf(),
        ensures
            r.0 == self@.len(),
            r.1 == Some(self@.len() as usize),
    {
        let rest = self.end - self.index;
        (rest, Some(rest))
    }

    /// The number of items left.
    pub fn len(&self) -> (r: usize)
        requires
            self.wf(),
        ensures
            r == self@.len(),
    {
        self.size_hint().0
    }

    /// The same walk, cut off after at most `n` more items.
    pub fn take(self, n: usize) -> (r: Self)
        requires
            self.wf(),
        ensures
            r.wf(),
            r@ == self@.take(if n < self@.len() { n as int } else { self@.len() as int }),
    {
        let end = if n < self.end - self.index {
            self.index + n
        } else {
            self.end
        };
        let r = InlineRingBufIter { buf: self.buf, index: self.index, end };
        assert(r@ =~= self@.take(if n < self@.len() { n as int } else { self@.len() as int }));
        r
    }
}

} // verus!
