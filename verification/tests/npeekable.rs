use inline_collection::{IteratorExtensions, NPeekable};

#[test]
fn nth_peek() {
    validate::<4>(2);
    validate::<5>(5);
    validate::<2>(5);

    fn validate<const N: usize>(count: usize) {
        let mut peekable = (0..count).into_iter().n_peekable::<N>();

        for i in 0..N.min(count) {
            assert!(peekable.nth_peek(i) == Some(&i));
        }

        for i in 0..count {
            assert!(peekable.next() == Some(i));
        }
    }
}

#[test]
fn has_less_than() {
    validate::<4>(2);
    validate::<5>(5);
    validate::<2>(5);

    fn validate<const N: usize>(count: usize) {
        let mut peekable = (0..count).into_iter().n_peekable::<N>();
        let should_contains = N.min(count);
        assert!((0..=should_contains).all(|c| !peekable.has_less_than(c)));
        assert!(((should_contains + 1)..(should_contains * 2)).all(|c| peekable.has_less_than(c)));
    }
}

#[test]
fn has_exact() {
    validate::<4>(2);
    validate::<5>(5);
    validate::<2>(5);

    fn validate<const N: usize>(count: usize) {
        let mut peekable = (0..count).into_iter().n_peekable::<N>();
        if N > count {
            assert!((0..count).all(|i| peekable.has_exact(i) == Some(false)));
            assert!(((count + 1)..N).all(|i| peekable.has_exact(i) == Some(false)));
            assert!(peekable.has_exact(count) == Some(true));
        } else {
            assert!((0..N).all(|i| peekable.has_exact(i) == Some(false)));
            assert!(peekable.has_exact(N) == None);
        }
    }
}

#[test]
fn peek_does_not_consume() {
    let mut p = NPeekable::<_, 3>::from(vec![10, 20, 30, 40].into_iter());
    assert_eq!(p.peek(), Some(&10));
    assert_eq!(p.nth_peek(2), Some(&30));
    assert_eq!(p.nth_peek(3), None);
    assert_eq!(p.next(), Some(10));
    assert_eq!(p.nth_peek(2), Some(&40));
    assert_eq!(p.next(), Some(20));
    assert_eq!(p.next(), Some(30));
    assert_eq!(p.next(), Some(40));
    assert_eq!(p.next(), None);
    assert_eq!(p.peek(), None);
}

#[test]
fn peek_range_lists_what_is_ahead() {
    let mut p = (1..10).n_peekable::<4>();
    let mut r = p.peek_range(3);
    assert_eq!(r.len(), 3);
    assert_eq!(r.next(), Some(&1));
    assert_eq!(r.next(), Some(&2));
    assert_eq!(r.next(), Some(&3));
    assert_eq!(r.next(), None);
    assert_eq!(p.peek_range(9).len(), 4);
    assert!(p.has_less_than_or_eq(2));
}

#[test]
fn has_exact_and_checks_items() {
    let mut p = (0..3).n_peekable::<5>();
    assert_eq!(p.has_exact_and(3, |(i, x)| i == *x), Some(true));
    assert_eq!(p.has_exact_and(3, |(_, x)| *x < 2), Some(false));
    assert_eq!(p.has_exact_and(2, |_| true), Some(false));
    let mut q = (0..10).n_peekable::<2>();
    assert_eq!(q.has_exact_and(2, |_| true), None);
    assert_eq!(q.has_exact_and(2, |(_, x)| *x == 0), Some(false));
    assert_eq!(q.has_exact_and(3, |_| true), Some(false));
}

#[test]
fn starts_checks_prefix() {
    let mut p = (0..10).n_peekable::<3>();
    assert_eq!(p.starts(2, |(i, x)| i == *x), Some(true));
    assert_eq!(p.starts(2, |(_, x)| *x == 0), Some(false));
    assert_eq!(p.starts(3, |_| true), None);
    assert_eq!(p.starts(4, |_| true), Some(false));
    let mut q = (0..1).n_peekable::<3>();
    assert_eq!(q.starts(2, |_| true), Some(true));
    assert_eq!(q.starts(3, |_| true), Some(false));
}

#[test]
fn zero_lookahead_never_peeks() {
    let mut p = (0..3).n_peekable::<0>();
    assert_eq!(p.peek(), None);
    assert!(p.has_less_than(1));
    assert_eq!(p.has_exact(0), None);
    assert_eq!(p.next(), Some(0));
}

#[test]
fn repeated_peeks_agree() {
    let mut p = (5..8).n_peekable::<4>();
    assert_eq!(p.peek_range(2).len(), 2);
    assert_eq!(p.peek_range(2).len(), 2);
    assert_eq!(p.has_exact(3), Some(true));
    assert!(!p.has_less_than(3));
    assert!(p.has_less_than(4));
    assert_eq!(p.nth_peek(1), Some(&6));
    assert_eq!(p.nth_peek(1), Some(&6));
    assert_eq!(p.next(), Some(5));
}
