use vstd::prelude::*;

use crate::inline_ring_buffer::{InlineRingBuf, InlineRingBufIter};
verus! {

use vstd::std_specs::iter::IteratorSpec;

/// How many items are held ahead after asking for `count` of them, given
/// `held` held before, at most `cap` held at once and `avail` items left in
/// the whole stream.
pub open spec fn loaded_len(held: nat, cap: nat, count: nat, avail: nat) -> nat {
    let want = if cap < count { cap } else { count };
    if held >= want {
        held
    } else if want < avail {
        want
    } else {
        avail
    }
}

/// `pred` answered `true` for each of the first `n` items of `s`, each
/// given with its position.
pub open spec fn accepts_prefix<T, F: FnMut((usize, &T)) -> bool>(pred: F, s: Seq<T>, n: int) -> bool {
    forall|i: int| 0 <= i < n ==> call_ensures(pred, ((i as usize, &s[i]),), true)
}

/// `pred` answered `false` for one of the first `n` items of `s`, given with
/// its position.
pub open spec fn rejects_some<T, F: FnMut((usize, &T)) -> bool>(pred: F, s: Seq<T>, n: int) -> bool {
    exists|i: int| 0 <= i < n && call_ensures(pred, ((i as usize, &s[i]),), false)
}

/// The smaller of `a` and `b`.
pub open spec fn min_nat(a: nat, b: nat) -> nat {
    if a < b {
        a
    } else {
        b
    }
}

/// `has_less_than`'s answer for a stream of `avail` items seen through `cap`
/// places of look-ahead.
pub open spec fn less_than_answer(cap: nat, avail: nat, count: nat) -> bool {
    min_nat(cap, avail) < count
}

/// `has_exact`'s answer for a stream of `avail` items seen through `cap`
/// places of look-ahead.
pub open spec fn exact_answer(cap: nat, avail: nat, count: nat) -> Option<bool> {
    if count < cap {
        Some(avail == count)
    } else if min_nat(cap, avail) < count {
        Some(false)
    } else {
        None
    }
}

/// Drawing ahead twice for the same count draws nothing the second time.
pub proof fn lemma_load_idempotent(held: nat, cap: nat, count: nat, avail: nat)
    requires
        held <= cap,
        held <= avail,
    ensures
        loaded_len(loaded_len(held, cap, count, avail), cap, count, avail) == loaded_len(
            held,
            cap,
            count,
            avail,
        ),
{
}

/// Whatever was held before, drawing ahead for `count` items leaves at least
/// `min(cap, count, avail)` held, and never more than the stream holds.
pub proof fn lemma_load_bounds(held: nat, cap: nat, count: nat, avail: nat)
    requires
        held <= cap,
        held <= avail,
    ensures
        min_nat(min_nat(cap, count), avail) <= loaded_len(held, cap, count, avail) <= avail,
        loaded_len(held, cap, count, avail) <= cap,
{
}

/// For counts below the look-ahead, the stream holds exactly `count` items
/// just when it holds no fewer than `count` and fewer than `count + 1`.
pub proof fn lemma_exact_agrees_with_less_than(cap: nat, avail: nat, count: nat)
    ensures
        exact_answer(cap, avail, count) == Some(true) <==> (count < cap && !less_than_answer(
            cap,
            avail,
            count,
        ) && less_than_answer(cap, avail, count + 1)),
        count >= cap ==> (exact_answer(cap, avail, count) == Some(false) <==> less_than_answer(
            cap,
            avail,
            count,
        )),
{
}

/// One call on an `NPeekable`, as its stream sees it: a look ahead (any of
/// the peeking and `has_` calls, and `starts`), or `next` with what it
/// handed back.
pub enum PeekStep<T> {
    Look,
    Next(Option<T>),
}

/// `next` took the first item of the stream `before`, leaving `after`, or
/// found the stream empty.
pub open spec fn next_taken<T>(before: Seq<T>, after: Seq<T>, r: Option<T>) -> bool {
    if before.len() > 0 {
        r == Some(before[0]) && after == before.drop_first()
    } else {
        r is None && after == before
    }
}

/// The call `step` turned the stream `before` into `after`.
pub open spec fn step_ok<T>(before: Seq<T>, after: Seq<T>, step: PeekStep<T>) -> bool {
    match step {
        PeekStep::Look => after == before,
        PeekStep::Next(r) => next_taken(before, after, r),
    }
}

/// `streams[i + 1]` is the stream after the call `steps[i]` on `streams[i]`.
pub open spec fn trace_ok<T>(streams: Seq<Seq<T>>, steps: Seq<PeekStep<T>>) -> bool {
    &&& streams.len() == steps.len() + 1
    &&& forall|i: int| 0 <= i < steps.len() ==> step_ok(streams[i], streams[i + 1], #[trigger] steps[i])
}

/// The items that the `next` calls among `steps` handed back, in order.
pub open spec fn yielded<T>(steps: Seq<PeekStep<T>>) -> Seq<T>
    decreases steps.len(),
{
    if steps.len() == 0 {
        Seq::empty()
    } else {
        match steps.last() {
            PeekStep::Next(Some(x)) => yielded(steps.drop_last()).push(x),
            _ => yielded(steps.drop_last()),
        }
    }
}

/// Over any sequence of calls, `next` hands out exactly the items of the
/// stream the adapter started with, in order, none lost or repeated: what
/// was handed out followed by what is left is the starting stream, and
/// `next` answers `None` only once every item has been handed out.
pub proof fn lemma_trace_yields_stream<T>(streams: Seq<Seq<T>>, steps: Seq<PeekStep<T>>)
    requires
        trace_ok(streams, steps),
    ensures
        streams[0] == yielded(steps) + streams.last(),
        forall|i: int| 0 <= i < steps.len() && #[trigger] steps[i] == PeekStep::<T>::Next(None) ==> yielded(
            steps.take(i),
        ) == streams[0],
    decreases steps.len(),
{
    if steps.len() == 0 {
        assert(yielded(steps) + streams.last() =~= streams[0]);
    } else {
        let n = steps.len() - 1;
        let ss = streams.drop_last();
        let st = steps.drop_last();
        assert forall|i: int| 0 <= i < st.len() implies step_ok(ss[i], ss[i + 1], #[trigger] st[i]) by {
            assert(st[i] == steps[i]);
            assert(step_ok(streams[i], streams[i + 1], steps[i]));
        }
        lemma_trace_yields_stream(ss, st);
        assert(step_ok(streams[n], streams[n + 1], steps[n]));
        match steps[n] {
            PeekStep::Look => {
                assert(streams[0] =~= yielded(steps) + streams.last());
            },
            PeekStep::Next(r) => {
                if streams[n].len() > 0 {
                    assert(streams[n] =~= seq![streams[n][0]] + streams[n + 1]);
                    assert(streams[0] =~= yielded(steps) + streams.last());
                } else {
                    assert(streams[0] =~= yielded(steps) + streams.last());
                }
            },
        }
        assert forall|i: int| 0 <= i < steps.len() && #[trigger] steps[i] == PeekStep::<T>::Next(None) implies yielded(
            steps.take(i),
        ) == streams[0] by {
            if i < n {
                assert(st[i] == steps[i]);
                assert(steps.take(i) =~= st.take(i));
            } else {
                assert(steps.take(i) =~= st);
                assert(yielded(st) + ss.last() == ss[0]);
                assert(ss.last() =~= Seq::<T>::empty());
                assert(yielded(st) =~= yielded(st) + ss.last());
            }
        }
    }
}

/// An iterator that can look up to `N` items ahead without taking them.
pub struct NPeekable<I: Iterator, const N: usize> {
    iter: I,
    peeked: InlineRingBuf<I::Item, N>,
}

impl<I: Iterator, const N: usize> NPeekable<I, N> {
    pub closed spec fn wf(&self) -> bool {
        self.peeked.wf()
    }

    /// The items already drawn from the inner iterator and held ahead, in order.
    pub closed spec fn peeked(&self) -> Seq<I::Item> {
        self.peeked@
    }

    /// The inner iterator.
    pub closed spec fn inner(&self) -> I {
        self.iter
    }

    /// Whether the inner iterator follows vstd's laws for `next`; then its
    /// `remaining()` is the sequence of items it will still yield, and the
    /// whole stream of this adapter is `peeked() + inner().remaining()`.
    pub open spec fn lawful(&self) -> bool {
        self.inner().obeys_prophetic_iter_laws()
    }

    /// `next` is `self` after drawing ahead: still well formed, just as lawful,
    /// and holding the items `self` held, possibly followed by more.
    pub open spec fn extended_by(self, next: Self) -> bool {
        &&& next.wf()
        &&& next.peeked().len() <= N
        &&& next.lawful() == self.lawful()
        &&& next.peeked().len() >= self.peeked().len()
        &&& next.peeked().take(self.peeked().len() as int) == self.peeked()
    }

    /// Wraps `iter`, with nothing held ahead.
    pub fn from(iter: I) -> (r: Self)
        ensures
            r.wf(),
            r.peeked() == Seq::<I::Item>::empty(),
            r.inner() == iter,
    {
        NPeekable { iter, peeked: InlineRingBuf::new() }
    }

    /// Draws from the inner iterator until `min(N, count)` items are held
    /// ahead or it runs out.
    fn load(&mut self, count: usize)
        requires
            old(self).wf(),
        ensures
            old(self).extended_by(*final(self)),
            old(self).lawful() ==> final(self).peeked() + final(self).inner().remaining()
                == old(self).peeked() + old(self).inner().remaining(),
            old(self).lawful() ==> final(self).peeked().len() == loaded_len(
                old(self).peeked().len(),
                N as nat,
                count as nat,
                (old(self).peeked() + old(self).inner().remaining()).len(),
            ),
    {
        let target = if N < count {
            N
        } else {
            count
        };
        while self.peeked.len() < target
            invariant
                self.wf(),
                target <= N,
                target <= count,
                self.lawful() == old(self).lawful(),
                self.peeked().len() >= old(self).peeked().len(),
                self.peeked().take(old(self).peeked().len() as int) == old(self).peeked(),
                old(self).lawful() ==> self.peeked() + self.inner().remaining()
                    == old(self).peeked() + old(self).inner().remaining(),
                old(self).peeked().len() >= target ==> self.peeked() == old(self).peeked(),
                old(self).peeked().len() < target ==> self.peeked().len() <= target,
            decreases target - self.peeked().len(),
        {
            let ghost before = self.peeked();
            let ghost old_rest = self.inner().remaining();
            match self.iter.next() {
                Some(item) => {
                    self.peeked.push_head(item);
                    proof {
                        assert(self.peeked().take(old(self).peeked().len() as int) =~= before.take(
                            old(self).peeked().len() as int,
                        ));
                        if old(self).lawful() {
                            assert(self.peeked() + self.inner().remaining() =~= before + old_rest);
                        }
                    }
                },
                None => {
                    return;
                },
            }
        }
    }

    /// The item `index` places ahead (0 is the next one), drawn from the inner
    /// iterator when not yet held; `None` when `index >= N` or the stream ends
    /// before it.
    pub fn nth_peek(&mut self, index: usize) -> (r: Option<&I::Item>)
        requires
            old(self).wf(),
        ensures
            old(self).extended_by(*final(self)),
            index >= N ==> r is None && *final(self) == *old(self),
            index < N ==> r == if index < final(self).peeked().len() {
                Some(&final(self).peeked()[index as int])
            } else {
                None
            },
            old(self).lawful() ==> final(self).peeked() + final(self).inner().remaining()
                == old(self).peeked() + old(self).inner().remaining(),
            old(self).lawful() ==> r == if index < N && index < (old(self).peeked()
                + old(self).inner().remaining()).len() {
                Some(&(old(self).peeked() + old(self).inner().remaining())[index as int])
            } else {
                None
            },
            old(self).lawful() && index < N ==> final(self).peeked().len() == loaded_len(
                old(self).peeked().len(),
                N as nat,
                index as nat + 1,
                (old(self).peeked() + old(self).inner().remaining()).len(),
            ),
    {
        if N <= index {
            assert(self.peeked().take(self.peeked().len() as int) =~= self.peeked());
            return None;
        }
        self.load(index + 1);
        self.peeked.get(index)
    }

    /// The next item, drawn from the inner iterator when not yet held; `None`
    /// when `N == 0` or the stream has ended.
    pub fn peek(&mut self) -> (r: Option<&I::Item>)
        requires
            old(self).wf(),
        ensures
            old(self).extended_by(*final(self)),
            N == 0 ==> r is None && *final(self) == *old(self),
            N > 0 ==> r == if 0 < final(self).peeked().len() {
                Some(&final(self).peeked()[0])
            } else {
                None
            },
            old(self).lawful() ==> final(self).peeked() + final(self).inner().remaining()
                == old(self).peeked() + old(self).inner().remaining(),
            old(self).lawful() ==> r == if 0 < N && 0 < (old(self).peeked()
                + old(self).inner().remaining()).len() {
                Some(&(old(self).peeked() + old(self).inner().remaining())[0])
            } else {
                None
            },
    {
        self.nth_peek(0)
    }

    /// The held items from the next one on, at most `count` of them, after
    /// drawing ahead for `count` items.
    pub fn peek_range(&mut self, count: usize) -> (r: InlineRingBufIter<'_, I::Item, N>)
        requires
            old(self).wf(),
        ensures
            old(self).extended_by(*final(self)),
            r.wf(),
            r@ == final(self).peeked().take(
                if count < final(self).peeked().len() { count as int } else { final(self).peeked().len() as int },
            ),
            old(self).lawful() ==> final(self).peeked() + final(self).inner().remaining()
                == old(self).peeked() + old(self).inner().remaining(),
            old(self).lawful() ==> final(self).peeked().len() == loaded_len(
                old(self).peeked().len(),
                N as nat,
                count as nat,
                (old(self).peeked() + old(self).inner().remaining()).len(),
            ),
    {
        self.load(count);
        self.peeked.iter().take(count)
    }

    /// Whether fewer than `count` items can be seen ahead: true when the
    /// stream holds fewer than `count` items or `count > N`.
    pub fn has_less_than(&mut self, count: usize) -> (r: bool)
        requires
            old(self).wf(),
        ensures
            old(self).extended_by(*final(self)),
            r == (final(self).peeked().len() < count),
            old(self).lawful() ==> final(self).peeked() + final(self).inner().remaining()
                == old(self).peeked() + old(self).inner().remaining(),
            old(self).lawful() ==> final(self).peeked().len() == loaded_len(
                old(self).peeked().len(),
                N as nat,
                count as nat,
                (old(self).peeked() + old(self).inner().remaining()).len(),
            ),
            old(self).lawful() ==> r == less_than_answer(
                N as nat,
                (old(self).peeked() + old(self).inner().remaining()).len(),
                count as nat,
            ),
    {
        let seen = self.peek_range(count).len();
        seen < count
    }

    /// Draws ahead for `count` items and answers `true`: at most `count` of
    /// them are ever seen at once.
    pub fn has_less_than_or_eq(&mut self, count: usize) -> (r: bool)
        requires
            old(self).wf(),
        ensures
            old(self).extended_by(*final(self)),
            r,
            old(self).lawful() ==> final(self).peeked() + final(self).inner().remaining()
                == old(self).peeked() + old(self).inner().remaining(),
            old(self).lawful() ==> final(self).peeked().len() == loaded_len(
                old(self).peeked().len(),
                N as nat,
                count as nat,
                (old(self).peeked() + old(self).inner().remaining()).len(),
            ),
    {
        let seen = self.peek_range(count).len();
        seen <= count
    }

    /// Whether `pred` accepts each of the first `upto` held items, asked in
    /// order and stopping at the first refusal.
    fn accepts_held<F: FnMut((usize, &I::Item)) -> bool>(&self, upto: usize, pred: &mut F) -> (r: bool)
        requires
            self.wf(),
            upto <= self.peeked().len(),
            forall|i: usize, x: &I::Item| call_requires(*old(pred), ((i, x),)),
        ensures
            r ==> accepts_prefix(*old(pred), self.peeked(), upto as int),
            !r ==> rejects_some(*old(pred), self.peeked(), upto as int),
    {
        let mut i: usize = 0;
        while i < upto
            invariant
                self.wf(),
                i <= upto <= self.peeked().len(),
                *pred == *old(pred),
                forall|i: usize, x: &I::Item| call_requires(*pred, ((i, x),)),
                accepts_prefix(*pred, self.peeked(), i as int),
            decreases upto - i,
        {
            let item = match self.peeked.get(i) {
                Some(x) => x,
                None => {
                    return true;
                },
            };
            if !pred((i, item)) {
                assert(call_ensures(*pred, ((i, &self.peeked()[i as int]),), false));
                return false;
            }
            i = i + 1;
        }
        true
    }

    /// Whether the stream holds exactly `count` items: `Some(true)` or
    /// `Some(false)` when that can be told by looking ahead; `None` when
    /// `count >= N` and `N` items were seen, so the answer lies beyond sight.
    /// `count > N` is always answered `Some(false)`.
    pub fn has_exact(&mut self, count: usize) -> (r: Option<bool>)
        requires
            old(self).wf(),
        ensures
            old(self).extended_by(*final(self)),
            count < N ==> r == Some(final(self).peeked().len() == count),
            count >= N ==> r == if final(self).peeked().len() < count {
                Some(false)
            } else {
                None::<bool>
            },
            old(self).lawful() ==> final(self).peeked() + final(self).inner().remaining()
                == old(self).peeked() + old(self).inner().remaining(),
            old(self).lawful() ==> r == exact_answer(
                N as nat,
                (old(self).peeked() + old(self).inner().remaining()).len(),
                count as nat,
            ),
    {
        let limit = if count < N {
            count + 1
        } else {
            N
        };
        let seen = self.peek_range(limit).len();
        if count >= N {
            return if seen < count {
                Some(false)
            } else {
                None
            };
        }
        Some(seen == count)
    }

    /// Like `has_exact`, but answers `Some(true)`, or `None` beyond sight,
    /// only when `pred` also accepts each of the items seen, asked with their
    /// positions in order until the first refusal.
    pub fn has_exact_and(&mut self, count: usize, mut predicate: impl FnMut((usize, &I::Item)) -> bool) -> (r: Option<bool>)
        requires
            old(self).wf(),
            forall|i: usize, x: &I::Item| call_requires(predicate, ((i, x),)),
        ensures
            old(self).extended_by(*final(self)),
            count < N && final(self).peeked().len() != count ==> r == Some(false),
            count >= N && final(self).peeked().len() < count ==> r == Some(false),
            r == Some(true) ==> count < N && final(self).peeked().len() == count
                && accepts_prefix(predicate, final(self).peeked(), count as int),
            r is None ==> count >= N && final(self).peeked().len() == count
                && accepts_prefix(predicate, final(self).peeked(), count as int),
            r == Some(false) ==> (count < N && final(self).peeked().len() != count) || (count >= N
                && final(self).peeked().len() < count) || rejects_some(
                predicate,
                final(self).peeked(),
                count as int,
            ),
            old(self).lawful() ==> final(self).peeked() + final(self).inner().remaining()
                == old(self).peeked() + old(self).inner().remaining(),
            old(self).lawful() ==> final(self).peeked().len() == loaded_len(
                old(self).peeked().len(),
                N as nat,
                if count < N { count as nat + 1 } else { N as nat },
                (old(self).peeked() + old(self).inner().remaining()).len(),
            ),
    {
        let limit = if count < N {
            count + 1
        } else {
            N
        };
        let seen = self.peek_range(limit).len();
        if count >= N {
            return if seen < count || !self.accepts_held(seen, &mut predicate) {
                Some(false)
            } else {
                None
            };
        }
        Some(seen == count && self.accepts_held(seen, &mut predicate))
    }

    /// Whether the stream starts with `count` items that `pred` accepts, each
    /// asked with its position in order until the first refusal. With
    /// `count < N` the answer is `Some`, and only the items the stream holds
    /// are asked; with `count >= N` it is `Some(false)` when fewer than
    /// `count` items are seen or one is refused, else `None`.
    pub fn starts(&mut self, count: usize, mut predicate: impl FnMut((usize, &I::Item)) -> bool) -> (r: Option<bool>)
        requires
            old(self).wf(),
            forall|i: usize, x: &I::Item| call_requires(predicate, ((i, x),)),
        ensures
            old(self).extended_by(*final(self)),
            count < N ==> r is Some,
            count >= N && final(self).peeked().len() < count ==> r == Some(false),
            r == Some(true) ==> count < N && accepts_prefix(
                predicate,
                final(self).peeked(),
                min_nat(count as nat, final(self).peeked().len()) as int,
            ),
            r is None ==> count >= N && final(self).peeked().len() == count
                && accepts_prefix(predicate, final(self).peeked(), count as int),
            r == Some(false) ==> (count >= N && final(self).peeked().len() < count) || rejects_some(
                predicate,
                final(self).peeked(),
                min_nat(count as nat, final(self).peeked().len()) as int,
            ),
            old(self).lawful() ==> final(self).peeked() + final(self).inner().remaining()
                == old(self).peeked() + old(self).inner().remaining(),
            old(self).lawful() ==> final(self).peeked().len() == loaded_len(
                old(self).peeked().len(),
                N as nat,
                count as nat,
                (old(self).peeked() + old(self).inner().remaining()).len(),
            ),
    {
        let seen = self.peek_range(count).len();
        if count >= N {
            if seen < count || !self.accepts_held(seen, &mut predicate) {
                return Some(false);
            }
            return None;
        }
        Some(self.accepts_held(seen, &mut predicate))
    }

    /// Takes the next item: the first held one, else one from the inner iterator.
    pub fn next(&mut self) -> (r: Option<I::Item>)
        requires
            old(self).wf(),
        ensures
            final(self).wf(),
            final(self).lawful() == old(self).lawful(),
            old(self).peeked().len() > 0 ==> r == Some(old(self).peeked()[0]) && final(self).peeked()
                == old(self).peeked().drop_first() && final(self).inner() == old(self).inner(),
            old(self).peeked().len() == 0 ==> final(self).peeked() == old(self).peeked(),
            final(self).peeked().len() <= N,
            old(self).lawful() ==> next_taken(
                old(self).peeked() + old(self).inner().remaining(),
                final(self).peeked() + final(self).inner().remaining(),
                r,
            ),
    {
        let ghost held = self.peeked();
        let ghost rest = self.inner().remaining();
        match self.peeked.pop_tail() {
            Some(item) => {
                assert(self.peeked() + self.inner().remaining() =~= (held + rest).drop_first());
                Some(item)
            },
            None => {
                assert(held =~= Seq::<I::Item>::empty());
                assert(held + rest =~= rest);
                assert(self.peeked() + self.inner().remaining() =~= self.inner().remaining());
                self.iter.next()
            },
        }
    }
} // impl




} // verus!
