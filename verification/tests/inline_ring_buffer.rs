use inline_collection::InlineRingBuf;
use std::cell::{Ref, RefCell};
use std::fmt::Debug;
use std::rc::Rc;

#[derive(Debug, Clone)]
struct DropMarkerState<T> {
    drop_count: usize,
    props: T,
}

impl<T> DropMarkerState<T> {
    fn is_properly_dropped(&self) -> bool {
        self.drop_count == 1
    }
}

#[derive(Debug)]
struct DropWatcherProps<T> {
    markers: Vec<DropMarkerState<T>>,
}

/// Counts how often each marker it hands out is dropped.
#[derive(Debug)]
struct DropWatcher<T> {
    props: Rc<RefCell<DropWatcherProps<T>>>,
}

impl<T> DropWatcher<T> {
    fn new() -> Self {
        Self { props: Rc::new(RefCell::new(DropWatcherProps { markers: Vec::new() })) }
    }

    fn notify_drop(&self, id: usize) {
        self.props.as_ref().borrow_mut().markers[id].drop_count += 1;
    }

    fn allocate(&self, props: T) -> DropMarker<'_, T> {
        let id = self.props.as_ref().borrow().markers.len();
        self.props.as_ref().borrow_mut().markers.push(DropMarkerState { drop_count: 0, props });
        DropMarker { id, watcher: self }
    }

    fn watch(&self, id: usize) -> Ref<'_, DropMarkerState<T>> {
        Ref::map(self.props.as_ref().borrow(), |w| &w.markers[id])
    }

    fn markers(&self) -> Ref<'_, [DropMarkerState<T>]> {
        Ref::map(self.props.as_ref().borrow(), |w| w.markers.as_slice())
    }
}

#[derive(Debug)]
struct DropMarker<'a, T> {
    id: usize,
    watcher: &'a DropWatcher<T>,
}

impl<'a, T> Drop for DropMarker<'a, T> {
    fn drop(&mut self) {
        self.watcher.notify_drop(self.id);
    }
}

impl<'a, T> DropMarker<'a, T> {
    fn props(&self) -> Ref<'_, T> {
        Ref::map(self.watcher.watch(self.id), |s| &s.props)
    }
}

trait IsSomeAndExtension<T> {
    fn any(&self, predicate: impl FnOnce(&T) -> bool) -> bool;
}

impl<T> IsSomeAndExtension<T> for Option<T> {
    fn any(&self, predicate: impl FnOnce(&T) -> bool) -> bool {
        self.as_ref().map_or(false, predicate)
    }
}

#[test]
fn from() {
    validate([1, 2, 3]);
    validate([1, 2, 3, 4, 5]);

    fn validate<const N: usize, T: Clone + PartialEq>(source: [T; N]) {
        let buf = InlineRingBuf::from(source.clone());

        for i in 0..buf.len() {
            assert!(buf.get(i) == Some(&source[i]));
        }
    }
}

#[test]
fn new() {
    validate::<3>();
    validate::<4>();
    validate::<5>();

    fn validate<const N: usize>() {
        let buf = InlineRingBuf::<DropMarker<i32>, N>::new();

        assert!(buf.len() == 0);
    }
}

#[test]
fn push_head() {
    validate::<_, 3>(&[1, 2, 3, 4, 5]);
    validate::<_, 5>(&[1, 2, 3, 4, 5]);
    validate::<_, 7>(&[1, 2, 3, 4, 5]);

    fn validate<T: PartialEq + Debug + Clone, const N: usize>(source: &[T]) {
        let watcher = DropWatcher::new();
        {
            let mut buf = InlineRingBuf::<_, N>::new();
            let should_be_contained = source[source.len().saturating_sub(N)..].to_vec();

            for x in source {
                let marker = watcher.allocate(x.clone());
                buf.push_head(marker);
            }

            for (idx, item) in should_be_contained.iter().enumerate() {
                assert!(buf.get(idx).any(|&m| &*m.props() == item))
            }
        }
        assert!(watcher.markers().iter().all(|s| s.is_properly_dropped()));
    }
}

#[test]
fn push_tail() {
    validate::<_, 3>(&[1, 2, 3, 4, 5]);
    validate::<_, 5>(&[1, 2, 3, 4, 5]);
    validate::<_, 7>(&[1, 2, 3, 4, 5]);

    fn validate<T: PartialEq + Debug + Clone, const N: usize>(source: &[T]) {
        let watcher = DropWatcher::new();
        {
            let mut buf = InlineRingBuf::<_, N>::new();
            let should_be_contained = source[source.len().saturating_sub(N)..].to_vec();

            for x in source {
                let marker = watcher.allocate(x.clone());
                buf.push_tail(marker);
            }

            for (idx, item) in should_be_contained.iter().rev().enumerate() {
                assert!(buf.get(idx).any(|&m| &*m.props() == item))
            }
        }
        assert!(watcher.markers().iter().all(|s| s.is_properly_dropped()));
    }
}

fn contents<const N: usize>(buf: &InlineRingBuf<i32, N>) -> Vec<i32> {
    let mut out = Vec::new();
    let mut it = buf.iter();
    while let Some(x) = it.next() {
        out.push(*x);
    }
    out
}

#[test]
fn ring_push_head_then_pop_head_restores() {
    let mut buf = InlineRingBuf::<i32, 4>::from([1, 2, 3, 4]);
    assert_eq!(buf.pop_head(), Some(4));
    buf.push_head(9);
    assert_eq!(buf.pop_head(), Some(9));
    assert_eq!(contents(&buf), vec![1, 2, 3]);
}

#[test]
fn ring_push_tail_then_pop_tail_restores() {
    let mut buf = InlineRingBuf::<i32, 4>::new();
    buf.push_head(1);
    buf.push_head(2);
    buf.push_tail(7);
    assert_eq!(contents(&buf), vec![7, 1, 2]);
    assert_eq!(buf.pop_tail(), Some(7));
    assert_eq!(contents(&buf), vec![1, 2]);
}

#[test]
fn ring_full_push_tail_drops_head() {
    let mut buf = InlineRingBuf::<i32, 3>::from([1, 2, 3]);
    buf.push_tail(0);
    assert_eq!(contents(&buf), vec![0, 1, 2]);
    buf.push_head(5);
    assert_eq!(contents(&buf), vec![1, 2, 5]);
    assert_eq!(buf.len(), 3);
}

#[test]
fn ring_pop_empty() {
    let mut buf = InlineRingBuf::<i32, 2>::new();
    assert!(buf.is_empty());
    assert_eq!(buf.pop_head(), None);
    assert_eq!(buf.pop_tail(), None);
    assert_eq!(buf.get(0), None);
    assert_eq!(buf.capacity(), 2);
}

#[test]
fn ring_wraps_around_many_times() {
    let mut buf = InlineRingBuf::<i32, 3>::new();
    for i in 0..10 {
        buf.push_head(i);
        if i % 4 == 3 {
            buf.pop_tail();
        }
    }
    assert_eq!(contents(&buf), vec![7, 8, 9]);
    for i in 0..10 {
        buf.push_tail(-i);
    }
    assert_eq!(contents(&buf), vec![-9, -8, -7]);
    assert_eq!(buf.get(2), Some(&-7));
    assert_eq!(buf.get(3), None);
}

#[test]
fn ring_iter_take_and_size_hint() {
    let buf = InlineRingBuf::<i32, 5>::from([1, 2, 3, 4, 5]);
    let it = buf.iter();
    assert_eq!(it.size_hint(), (5, Some(5)));
    let mut it = it.take(2);
    assert_eq!(it.len(), 2);
    assert_eq!(it.next(), Some(&1));
    assert_eq!(it.next(), Some(&2));
    assert_eq!(it.next(), None);
    assert_eq!(it.len(), 0);
}

#[test]
fn ring_default_is_empty() {
    let buf: InlineRingBuf<i32, 3> = Default::default();
    assert_eq!(buf.len(), 0);
}

#[test]
fn ring_zero_capacity() {
    let mut buf = InlineRingBuf::<i32, 0>::new();
    assert_eq!(buf.capacity(), 0);
    assert_eq!(buf.pop_head(), None);
    assert_eq!(buf.pop_tail(), None);
}

#[test]
fn ring_index_and_index_mut() {
    let mut buf: InlineRingBuf<i32, 3> = [1, 2, 3].into();
    buf.push_head(4);
    assert_eq!(buf[0], 2);
    assert_eq!(buf[2], 4);
    buf[1] = 30;
    assert_eq!(contents(&buf), vec![2, 30, 4]);
}

#[test]
fn ring_is_first_in_first_out() {
    let mut buf = InlineRingBuf::<i32, 4>::new();
    for x in [3, 1, 4, 1] {
        buf.push_head(x);
    }
    assert_eq!(buf.pop_tail(), Some(3));
    assert_eq!(buf.pop_tail(), Some(1));
    assert_eq!(buf.pop_tail(), Some(4));
    assert_eq!(buf.pop_tail(), Some(1));
    assert_eq!(buf.pop_tail(), None);
}

#[test]
fn ring_length_after_pushes_is_capped() {
    let mut buf = InlineRingBuf::<i32, 3>::new();
    for k in 0..6 {
        assert_eq!(buf.len(), k.min(3) as usize);
        if k % 2 == 0 {
            buf.push_head(k);
        } else {
            buf.push_tail(k);
        }
    }
    assert_eq!(buf.len(), 3);
}
