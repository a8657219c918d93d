# inline_collection

Fixed-capacity collections, verified with Verus.

- `src/inline_vec.rs`: `InlineVec<T, N>`, a stack of at most `N` items; a push
  onto a full stack is refused.
- `src/inline_ring_buffer.rs`: `InlineRingBuf<T, N>`, a ring buffer kept in an
  inline array of `N` slots, that can be pushed and popped at both ends and,
  when full, drops the item at the far end; `InlineRingBufIter` walks it. The
  module also states and proves the buffer's laws over whole call sequences
  (first in first out, "keeps the last `N` items pushed", the capacity bound).
- `src/iterators.rs`, `src/iterators/npeekable.rs`: `NPeekable<I, N>`, an
  iterator adapter that can look up to `N` items ahead; its contracts speak of
  the stream `peeked() + inner().remaining()` through vstd's iterator laws.
- `src/color_grid.rs`: the model behind the colour-grid editor: the grid of
  colour strings, the edits it accepts, and the reading of a cell's
  `"<row> <cell>"` position attribute.
- `app/`: the yew front end: the tool index with its router, which shows the
  colour-grid editor under `/tools/adjacent-color-checker`.
- `tests/`: tests on concrete values: the ring buffer against a drop-counting
  marker type, the look-ahead answers over integer ranges, the stack, the
  grid edits and the position reading.
