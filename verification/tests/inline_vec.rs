use inline_collection::InlineVec;

#[test]
fn vec_push_until_full() {
    let mut v = InlineVec::<i32, 2>::new();
    assert!(v.is_empty());
    assert!(v.push(1));
    assert!(v.push(2));
    assert!(!v.push(3));
    assert_eq!(v.len(), 2);
    assert_eq!(v.capacity(), 2);
    assert_eq!(v.get(1), Some(&2));
    assert_eq!(v.get(2), None);
}

#[test]
fn vec_push_then_pop_restores() {
    let mut v = InlineVec::<i32, 3>::default();
    v.push(4);
    v.push(5);
    assert_eq!(v.peek(), Some(&5));
    assert_eq!(v.pop(), Some(5));
    assert_eq!(v.peek(), Some(&4));
    assert_eq!(v.pop(), Some(4));
    assert_eq!(v.pop(), None);
    assert_eq!(v.peek(), None);
}

#[test]
fn vec_derefs_to_slice() {
    let mut v = InlineVec::<i32, 4>::new();
    v.push(3);
    v.push(1);
    v.push(2);
    v.sort();
    assert_eq!(&v[..], &[1, 2, 3]);
    assert_eq!(v[1], 2);
    v[0] = 7;
    assert_eq!(v.as_slice(), &[7, 2, 3]);
}

#[test]
fn vec_length_counts_successful_calls() {
    let mut v = InlineVec::<i32, 2>::new();
    let mut net: i32 = 0;
    for (i, push) in [true, true, true, false, true, false, false, false].iter().enumerate() {
        if *push {
            if v.push(i as i32) {
                net += 1;
            }
        } else if v.pop().is_some() {
            net -= 1;
        }
        assert_eq!(v.len() as i32, net);
    }
    assert_eq!(net, 0);
}
