//! Fixed-capacity collections whose capacity is a const parameter: a stack
//! (`InlineVec`), a double-ended ring buffer that overwrites its oldest end
//! when full (`InlineRingBuf`), and an iterator adapter that can look up to
//! `N` items ahead (`NPeekable`); and the model behind a small colour-grid
//! editor (`ColorGrid`): its cells, the edits it accepts, and the reading of
//! a cell's position attribute.

pub mod color_grid;
pub mod inline_ring_buffer;
pub mod inline_vec;
pub mod iterators;

pub use inline_ring_buffer::{InlineRingBuf, InlineRingBufIter};
pub use inline_vec::InlineVec;
pub use iterators::{IteratorExtensions, NPeekable};
pub use color_grid::{ColorGrid, Msg, Position};
