use vstd::prelude::*;

verus! {

/// A push onto a stack that has room is undone by a pop, which hands the
/// pushed item back.
pub proof fn lemma_push_pop<T>(s: Seq<T>, item: T)
    ensures
        s.push(item).last() == item,
        s.push(item).drop_last() == s,
{
    assert(s.push(item).drop_last() =~= s);
}

/// One call on a stack.
pub enum StackOp<T> {
    Push(T),
    Pop,
}

/// Whether the call `op` on a stack holding `s` takes effect: a push when
/// there is room, a pop when there is an item.
pub open spec fn stack_succeeds<T>(s: Seq<T>, op: StackOp<T>, cap: nat) -> bool {
    match op {
        StackOp::Push(_) => s.len() < cap,
        StackOp::Pop => s.len() > 0,
    }
}

/// Contents after the call `op`.
pub open spec fn stack_apply<T>(s: Seq<T>, op: StackOp<T>, cap: nat) -> Seq<T> {
    if !stack_succeeds(s, op, cap) {
        s
    } else {
        match op {
            StackOp::Push(item) => s.push(item),
            StackOp::Pop => s.drop_last(),
        }
    }
}

/// Contents after the calls `ops`, in order.
pub open spec fn stack_run<T>(s: Seq<T>, ops: Seq<StackOp<T>>, cap: nat) -> Seq<T>
    decreases ops.len(),
{
    if ops.len() == 0 {
        s
    } else {
        stack_apply(stack_run(s, ops.drop_last(), cap), ops.last(), cap)
    }
}

/// Successful pushes minus successful pops among the calls `ops`.
pub open spec fn stack_net<T>(s: Seq<T>, ops: Seq<StackOp<T>>, cap: nat) -> int
    decreases ops.len(),
{
    if ops.len() == 0 {
        0
    } else {
        let before = stack_run(s, ops.drop_last(), cap);
        stack_net(s, ops.drop_last(), cap) + if !stack_succeeds(before, ops.last(), cap) {
            0int
        } else if ops.last() is Push {
            1int
        } else {
            -1int
        }
    }
}

/// Over any sequence of calls, the length is the starting length plus the
/// successful pushes minus the successful pops, and never exceeds the
/// capacity.
pub proof fn lemma_stack_len<T>(s: Seq<T>, ops: Seq<StackOp<T>>, cap: nat)
    requires
        s.len() <= cap,
    ensures
        stack_run(s, ops, cap).len() == s.len() + stack_net(s, ops, cap),
        stack_run(s, ops, cap).len() <= cap,
    decreases ops.len(),
{
    if ops.len() > 0 {
        lemma_stack_len(s, ops.drop_last(), cap);
    }
}

/// A stack of at most `N` items.
pub struct InlineVec<T, const N: usize> {
    buffer: Vec<T>,
}

impl<T, const N: usize> View for InlineVec<T, N> {
    type V = Seq<T>;

    /// The items from the bottom (index 0) to the top.
    closed spec fn view(&self) -> Seq<T> {
        self.buffer@
    }
}

impl<T, const N: usize> InlineVec<T, N> {
    /// Never more than `N` items.
    pub open spec fn wf(&self) -> bool {
        self@.len() <= N
    }

    /// An empty stack.
    pub fn new() -> (r: Self)
        ensures
            r.wf(),
            r@ == Seq::<T>::empty(),
    {
        InlineVec { buffer: Vec::new() }
    }

    /// The number of items the stack can hold.
    pub fn capacity(&self) -> (r: usize)
        ensures
            r == N,
    {
        N
    }

    /// Puts `item` on top and returns `true`; when the stack is full, drops
    /// `item`, leaves the stack as it was and returns `false`.
    pub fn push(&mut self, item: T) -> (r: bool)
        requires
            old(self).wf(),
        ensures
            final(self).wf(),
            r == (old(self)@.len() < N),
            r ==> final(self)@ == old(self)@.push(item),
            !r ==> final(self)@ == old(self)@,
            r == stack_succeeds(old(self)@, StackOp::Push(item), N as nat),
            final(self)@ == stack_apply(old(self)@, StackOp::Push(item), N as nat),
    {
        if self.buffer.len() >= N {
            return false;
        }
        self.buffer.push(item);
        true
    }

    /// Removes and returns the top item, or `None` when empty.
    pub fn pop(&mut self) -> (r: Option<T>)
        requires
            old(self).wf(),
        ensures
            final(self).wf(),
            old(self)@.len() == 0 ==> r is None && final(self)@ == old(self)@,
            old(self)@.len() > 0 ==> r == Some(old(self)@.last()) && final(self)@ == old(self)@.drop_last(),
            (r is Some) == stack_succeeds(old(self)@, StackOp::Pop, N as nat),
            final(self)@ == stack_apply(old(self)@, StackOp::Pop, N as nat),
    {
        self.buffer.pop()
    }

    /// The top item, or `None` when empty.
    pub fn peek(&self) -> (r: Option<&T>)
        requires
            self.wf(),
        ensures
            r == if self@.len() > 0 {
                Some(&self@.last())
            } else {
                None
            },
    {
        let len = self.buffer.len();
        if len == 0 {
            return None;
        }
        Some(&self.buffer[len - 1])
    }

    /// The number of items held.
    pub fn len(&self) -> (r: usize)
        requires
            self.wf(),
        ensures
            r == self@.len(),
    {
        self.buffer.len()
    }

    /// Whether no item is held.
    pub fn is_empty(&self) -> (r: bool)
        requires
            self.wf(),
        ensures
            r == (self@.len() == 0),
    {
        self.buffer.len() == 0
    }

    /// The item at position `index`, counted from the bottom.
    pub fn get(&self, index: usize) -> (r: Option<&T>)
        requires
            self.wf(),
        ensures
            r == if index < self@.len() {
                Some(&self@[index as int])
            } else {
                None
            },
    {
        if self.buffer.len() <= index {
            None
        } else {
            Some(&self.buffer[index])
        }
    }

    /// The items as a slice, bottom first.
    pub fn as_slice(&self) -> (r: &[T])
        ensures
            r@ == self@,
    {
        self.buffer.as_slice()
    }

    /// The items as a mutable slice, bottom first.
    pub fn as_mut_slice(&mut self) -> (r: &mut [T])
        ensures
            r@ == old(self)@,
            final(self)@ == final(r)@,
    {
        self.buffer.as_mut_slice()
    }
}

impl<T, const N: usize> Default for InlineVec<T, N> {
    fn default() -> (r: Self)
        ensures
            r.wf(),
            r@ == Seq::<T>::empty(),
    {
        Self::new()
    }
}

impl<T, const N: usize> core::ops::Deref for InlineVec<T, N> {
    type Target = [T];

    fn deref(&self) -> (r: &[T])
        ensures
            r@ == self@,
    {
        self.as_slice()
    }
}

impl<T, const N: usize> core::ops::DerefMut for InlineVec<T, N> {
    fn deref_mut(&mut self) -> (r: &mut [T])
        ensures
            r@ == old(self)@,
            final(self)@ == final(r)@,
    {
        self.as_mut_slice()
    }
}

} // verus!
