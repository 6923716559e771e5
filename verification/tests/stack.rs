use pstack::stack::PStack;

#[test]
fn test_stack() {
    let mut v = vec![];
    let mut s = PStack::<usize, 4>::new();
    for i in 0..10 {
        s.push(i);
        v.push(s.clone());
    }
    for i in 0..10 {
        assert_eq!(Some(9 - i), s.pop());
    }
    assert_eq!(None, s.pop());
    for (i, mut s) in v.iter().cloned().enumerate().take(10) {
        for j in 0..=i {
            assert_eq!(Some(i - j), s.pop());
        }
        assert_eq!(None, s.pop());
    }
}

#[test]
fn underflow_is_repeatable() {
    let mut s = PStack::<u32, 4>::new();
    assert_eq!(None, s.pop());
    assert_eq!(None, s.top());
    assert_eq!(None, s.top_mut());
    assert_eq!(None, s.pop());
    assert_eq!(None, s.top());
    s.push(7);
    assert_eq!(Some(&7), s.top());
    assert_eq!(Some(7), s.pop());
    assert_eq!(None, s.pop());
}

#[test]
fn chunk_boundary_keeps_every_element() {
    let mut s = PStack::<u32, 4>::new();
    s.push(10);
    s.push(20);
    s.push(30);
    s.push(40);
    assert_eq!(Some(40), s.pop());
    s.push(50);
    assert_eq!(Some(50), s.pop());
    assert_eq!(Some(30), s.pop());
    assert_eq!(Some(20), s.pop());
    assert_eq!(Some(10), s.pop());
    assert_eq!(None, s.pop());
}

#[test]
fn top_reads_shared_chunk_in_place() {
    let mut s = PStack::<u32, 4>::new();
    for i in 1..=4 {
        s.push(i);
    }
    s.push(5);
    assert_eq!(Some(5), s.pop());
    // The current chunk is now empty; the top lives in the shared chain.
    assert_eq!(Some(&4), s.top());
    assert_eq!(Some(&4), s.top());
    assert_eq!(Some(4), s.pop());
}

#[test]
fn top_mut_promotes_and_writes_in_place() {
    let mut s = PStack::<u32, 4>::new();
    for i in 1..=4 {
        s.push(i);
    }
    s.push(5);
    let snapshot = s.clone();
    assert_eq!(Some(5), s.pop());
    // Promotion: the shared chunk is copied into the current slot first,
    // so the write below never touches memory a snapshot can see.
    if let Some(t) = s.top_mut() {
        *t = 40;
    } else {
        panic!("stack was not empty");
    }
    assert_eq!(Some(40), s.pop());
    assert_eq!(Some(3), s.pop());
    let mut snapshot = snapshot;
    for expected in [5, 4, 3, 2, 1] {
        assert_eq!(Some(expected), snapshot.pop());
    }
    assert_eq!(None, snapshot.pop());
}

#[test]
fn clones_are_independent_both_ways() {
    let mut a = PStack::<u32, 2>::new();
    a.push(1);
    a.push(2);
    a.push(3);
    let mut b = a.clone();
    a.push(100);
    b.push(200);
    assert_eq!(Some(100), a.pop());
    assert_eq!(Some(200), b.pop());
    b.pop();
    b.pop();
    b.pop();
    assert_eq!(None, b.pop());
    // Draining b never disturbed a.
    assert_eq!(Some(3), a.pop());
    assert_eq!(Some(2), a.pop());
    assert_eq!(Some(1), a.pop());
    assert_eq!(None, a.pop());
}

#[test]
fn capacity_one_folds_on_every_push() {
    let mut s = PStack::<u64, 1>::new();
    for i in 0..6 {
        s.push(i);
    }
    for i in (0..6).rev() {
        assert_eq!(Some(i), s.pop());
    }
    assert_eq!(None, s.pop());
}

#[test]
fn default_is_empty() {
    let mut s: PStack<u8, 4> = Default::default();
    assert_eq!(None, s.pop());
    s.push(9);
    assert_eq!(Some(9), s.pop());
}
