use ring_buffer::RingBuffer;

/// Collects the buffer's contents front to back through a fresh iterator and
/// checks them against the expected slice.
fn assert_contents<T: PartialEq + std::fmt::Debug>(buffer: &RingBuffer<T>, expected: &[T]) {
    let mut it = buffer.into_iter();
    let mut count: usize = 0;
    for e in expected.iter() {
        let got = it.next();
        assert_eq!(got, Some(e));
        count += 1;
    }
    assert!(it.next().is_none());
    assert_eq!(count, expected.len());
}

#[test]
fn it_works() {
    let mut a = std::collections::VecDeque::<u8>::new();
    let mut b: RingBuffer<u8> = RingBuffer::with_capacity(0);

    for _ in 0..10000 {
        let action = rand::random::<u8>();

        if action % 4 == 0 {
            let val = rand::random::<u8>();
            a.push_back(val);
            b.push_back(val);
        } else if action % 4 == 1 {
            let val = rand::random::<u8>();
            a.push_front(val);
            b.push_front(val);
        } else if action % 4 == 2 {
            let v1 = a.pop_back();
            let v2 = b.pop_back();
            assert_eq!(v1, v2);
        } else if action % 4 == 3 {
            let v1 = a.pop_front();
            let v2 = b.pop_front();
            assert_eq!(v1, v2);
        }
        let mut it = b.into_iter();
        for expected in a.iter() {
            assert_eq!(it.next(), Some(expected));
        }
        assert!(it.next().is_none());
    }
}

#[test]
fn growth_scenario() {
    let mut b: RingBuffer<i32> = RingBuffer::with_capacity(2);
    b.push_back(1);
    b.push_back(2);
    b.push_back(3);
    assert_contents(&b, &[1, 2, 3]);
    b.push_front(0);
    assert_contents(&b, &[0, 1, 2, 3]);
    assert_eq!(b.pop_back(), Some(3));
    assert_contents(&b, &[0, 1, 2]);
    assert_eq!(b.pop_front(), Some(0));
    assert_contents(&b, &[1, 2]);
}

#[test]
fn empty_pop_zero_capacity() {
    let mut b: RingBuffer<String> = RingBuffer::with_capacity(0);
    assert!(b.pop_back().is_none());
    assert!(b.pop_front().is_none());
    assert_contents(&b, &[]);
}

#[test]
fn order_preserved_across_growth() {
    for cap in 0..6 {
        let mut b: RingBuffer<usize> = RingBuffer::with_capacity(cap);
        let n = cap + 1;
        for v in 0..n {
            b.push_back(v);
        }
        for i in 0..n {
            assert_eq!(*b.get(i), i);
        }
        assert_eq!(b.pop_back(), Some(n - 1));
    }
}

#[test]
fn push_front_pop_front_round_trip() {
    let mut b: RingBuffer<u16> = RingBuffer::with_capacity(3);
    b.push_back(5);
    b.push_back(6);
    b.push_front(7);
    assert_contents(&b, &[7, 5, 6]);
    b.push_front(42);
    assert_eq!(b.pop_front(), Some(42));
    assert_contents(&b, &[7, 5, 6]);
    assert_eq!(b.pop_front(), Some(7));
    assert_eq!(b.pop_front(), Some(5));
    assert_eq!(b.pop_front(), Some(6));
    assert!(b.pop_front().is_none());
}

#[test]
fn wraparound_mixed_ops() {
    let mut b: RingBuffer<u8> = RingBuffer::with_capacity(4);
    b.push_back(1);
    b.push_back(2);
    assert_eq!(b.pop_front(), Some(1));
    b.push_back(3);
    b.push_back(4);
    b.push_back(5);
    assert_contents(&b, &[2, 3, 4, 5]);
    assert_eq!(b.pop_back(), Some(5));
    b.push_front(0);
    assert_contents(&b, &[0, 2, 3, 4]);
    assert_eq!(*b.get(2), 3);
}

#[test]
fn iterator_is_restartable() {
    let mut b: RingBuffer<char> = RingBuffer::with_capacity(1);
    b.push_back('a');
    b.push_back('b');
    let mut first = b.into_iter();
    assert_eq!(first.next(), Some(&'a'));
    assert_eq!(first.next(), Some(&'b'));
    assert!(first.next().is_none());
    assert!(first.next().is_none());
    let mut fresh = b.into_iter();
    assert_eq!(fresh.next(), Some(&'a'));
}

#[test]
fn moves_elements_without_cloning() {
    let mut b: RingBuffer<Box<u64>> = RingBuffer::with_capacity(1);
    b.push_back(Box::new(11));
    b.push_back(Box::new(22));
    b.push_front(Box::new(33));
    assert_eq!(b.pop_front(), Some(Box::new(33)));
    assert_eq!(b.pop_back(), Some(Box::new(22)));
    assert_eq!(b.pop_back(), Some(Box::new(11)));
    assert!(b.pop_back().is_none());
}
