use lib::deque::circular_buffer::CircularBuffer;

fn collect_copied(buffer: &CircularBuffer<u32>) -> Vec<u32> {
    let mut out = Vec::new();
    let mut it = buffer.iter();
    while let Some(x) = it.next() {
        out.push(*x);
    }
    out
}

#[test]
fn create_buffer() {
    let buffer: CircularBuffer<u32> = CircularBuffer::with_capacity(10);
    assert!(!buffer.is_full());
    assert!(buffer.len() == 0);
    assert!(buffer.start() == 0);
}

#[test]
fn test_push_and_pop_back() {
    let mut buffer: CircularBuffer<u32> = CircularBuffer::with_capacity(5);
    assert!(buffer.is_empty());
    assert!(buffer.push_back(1).is_ok());
    assert!(buffer.push_back(2).is_ok());
    assert!(buffer.push_back(3).is_ok());
    assert!(buffer.push_back(4).is_ok());
    assert!(!buffer.is_full());
    assert!(buffer.push_back(5).is_ok());
    assert!(buffer.is_full());
    assert!(buffer.push_back(6).is_err());
    assert!(buffer.push_back(7).is_err());
    assert!(buffer.len() == 5);
    assert!(buffer.is_full());

    for i in 1..6 {
        assert_eq!(buffer.pop_back().unwrap(), 6 - i);
        assert!(!buffer.is_full());
        assert!(buffer.len() == (5 - i) as usize)
    }
    assert!(buffer.is_empty());
}

#[test]
fn test_push_and_pop_front() {
    let mut buffer: CircularBuffer<u32> = CircularBuffer::with_capacity(5);
    assert!(buffer.is_empty());
    assert!(buffer.push_front(1).is_ok());
    assert!(buffer.push_front(2).is_ok());
    assert!(buffer.push_front(3).is_ok());
    assert!(buffer.push_front(4).is_ok());
    assert!(!buffer.is_full());
    assert!(buffer.push_front(5).is_ok());
    assert!(buffer.is_full());
    assert!(buffer.push_front(6).is_err());
    assert!(buffer.push_front(7).is_err());
    assert!(buffer.len() == 5);
    assert!(buffer.is_full());

    for i in 1..6 {
        assert_eq!(buffer.pop_front().unwrap(), 6 - i);
        assert!(!buffer.is_full());
        assert!(buffer.len() == (5 - i) as usize)
    }
    assert!(buffer.is_empty());
}

#[test]
fn test_wraparound_push_pop() {
    let mut buffer: CircularBuffer<u32> = CircularBuffer::with_capacity(5);

    for i in 1..=5 {
        assert!(buffer.push_back(i).is_ok());
    }

    assert_eq!(buffer.pop_front(), Some(1));
    assert_eq!(buffer.pop_front(), Some(2));

    assert!(buffer.push_back(6).is_ok());
    assert!(buffer.push_back(7).is_ok());

    let expected = [3, 4, 5, 6, 7];
    for &val in &expected {
        assert_eq!(buffer.pop_front(), Some(val));
    }

    assert!(buffer.is_empty());
}

#[test]
fn test_get() {
    let mut buffer: CircularBuffer<u32> = CircularBuffer::with_capacity(5);

    buffer.push_back(10).unwrap();
    buffer.push_back(20).unwrap();
    buffer.push_back(30).unwrap();

    assert_eq!(buffer.get(0), Some(&10));
    assert_eq!(buffer.get(1), Some(&20));
    assert_eq!(buffer.get(2), Some(&30));
    assert_eq!(buffer.get(3), None);
}

#[test]
fn test_get_mut() {
    let mut buffer: CircularBuffer<u32> = CircularBuffer::with_capacity(5);

    buffer.push_back(1).unwrap();
    buffer.push_back(2).unwrap();
    buffer.push_back(3).unwrap();

    if let Some(x) = buffer.get_mut(1) {
        *x = 42;
    }

    assert_eq!(buffer.get(0), Some(&1));
    assert_eq!(buffer.get(1), Some(&42));
    assert_eq!(buffer.get(2), Some(&3));
    assert_eq!(buffer.get(3), None);
}

#[test]
fn circular_buffer_test_iter() {
    let mut buffer = CircularBuffer::with_capacity(5);
    for i in 1..=3 {
        buffer.push_back(i).unwrap();
    }

    let collected: Vec<_> = collect_copied(&buffer);
    assert_eq!(collected, vec![1, 2, 3]);
}

#[test]
fn test_iter_mut() {
    let mut buffer = CircularBuffer::with_capacity(5);
    for i in 1..=3 {
        buffer.push_back(i).unwrap();
    }

    let mut it = buffer.iter_mut();
    while let Some(x) = it.next() {
        *x *= 2;
    }

    let collected: Vec<_> = collect_copied(&buffer);
    assert_eq!(collected, vec![2, 4, 6]);
}

#[test]
fn circular_buffer_test_into_iter() {
    let mut buffer = CircularBuffer::with_capacity(5);
    for i in 1..=3 {
        buffer.push_back(i).unwrap();
    }

    let mut collected: Vec<u32> = Vec::new();
    let mut it = buffer.into_iter();
    while let Some(x) = it.next() {
        collected.push(x);
    }
    assert_eq!(collected, vec![1, 2, 3]);
}

#[test]
fn circular_buffer_test_from_iterator() {
    let vec = vec![1, 2, 3, 4, 5];

    let buffer: CircularBuffer<u32> = CircularBuffer::from_iter(vec.clone());

    assert_eq!(buffer.len(), vec.len());

    for (i, &val) in vec.iter().enumerate() {
        assert_eq!(buffer.get(i), Some(&val));
    }
}

#[test]
fn test_make_contiguous_no_wrap() {
    let mut buf: CircularBuffer<u32> = CircularBuffer::with_capacity(5);
    for i in 1..=3 {
        buf.push_back(i).unwrap();
    }

    buf.make_contiguous();
    assert_eq!(buf.start(), 0);
    for i in 0..buf.len() {
        assert_eq!(buf.get(i), Some(&(i as u32 + 1)));
    }
}

#[test]
fn test_make_contiguous_with_wrap() {
    let mut buf: CircularBuffer<u32> = CircularBuffer::with_capacity(5);
    for i in 1..=5 {
        buf.push_back(i).unwrap();
    }

    buf.pop_front();
    buf.pop_front();
    buf.push_back(6).unwrap();
    buf.push_back(7).unwrap();

    buf.make_contiguous();
    assert_eq!(buf.start(), 0);
    let expected = [3, 4, 5, 6, 7];
    for (i, &val) in expected.iter().enumerate() {
        assert_eq!(buf.get(i), Some(&val));
    }
}

#[test]
fn test_resize_larger() {
    let mut buf: CircularBuffer<u32> = CircularBuffer::with_capacity(4);
    for i in 1..=4 {
        buf.push_back(i).unwrap();
    }

    let _old_capacity = buf.capacity();
    buf.resize(8).unwrap();
    assert!(buf.capacity() >= 8);
    assert_eq!(buf.len(), 4);

    for i in 0..buf.len() {
        assert_eq!(buf.get(i), Some(&(i as u32 + 1)));
    }

    buf.push_back(5).unwrap();
    buf.push_back(6).unwrap();
    assert_eq!(buf.len(), 6);
}

#[test]
fn test_resize_with_wrap() {
    let mut buf: CircularBuffer<u32> = CircularBuffer::with_capacity(4);
    for i in 1..=4 {
        buf.push_back(i).unwrap();
    }

    buf.pop_front();
    buf.pop_front();
    buf.push_back(5).unwrap();
    buf.push_back(6).unwrap();

    buf.resize(8).unwrap();
    assert_eq!(buf.start(), 0);
    let expected = [3, 4, 5, 6];
    for (i, &val) in expected.iter().enumerate() {
        assert_eq!(buf.get(i), Some(&val));
    }

    buf.push_back(7).unwrap();
    buf.push_back(8).unwrap();
    assert_eq!(buf.len(), 6);
}

#[test]
fn zero_capacity_buffer_rejects_everything() {
    let mut buf: CircularBuffer<u32> = CircularBuffer::with_capacity(0);
    assert!(buf.is_empty());
    assert!(buf.is_full());
    assert_eq!(buf.push_back(1), Err(1));
    assert_eq!(buf.push_front(2), Err(2));
    assert_eq!(buf.pop_back(), None);
    assert_eq!(buf.pop_front(), None);
    assert_eq!(buf.get(0), None);
    assert_eq!(buf.capacity(), 0);
}

#[test]
fn full_buffer_hands_value_back_unchanged() {
    let mut buf: CircularBuffer<u32> = CircularBuffer::with_capacity(2);
    buf.push_back(1).unwrap();
    buf.push_front(0).unwrap();
    assert_eq!(buf.push_back(9), Err(9));
    assert_eq!(buf.push_front(8), Err(8));
    assert_eq!(buf.get(0), Some(&0));
    assert_eq!(buf.get(1), Some(&1));
}

#[test]
fn push_front_moves_start_back_with_wrap() {
    let mut buf: CircularBuffer<u32> = CircularBuffer::with_capacity(3);
    buf.push_front(1).unwrap();
    assert_eq!(buf.start(), 2);
    buf.push_front(2).unwrap();
    assert_eq!(buf.start(), 1);
    assert_eq!(buf.pop_front(), Some(2));
    assert_eq!(buf.start(), 2);
    assert_eq!(buf.pop_front(), Some(1));
    assert_eq!(buf.start(), 0);
}

#[test]
fn pop_back_undoes_push_back_on_buffer() {
    let mut buf: CircularBuffer<u32> = CircularBuffer::with_capacity(4);
    buf.push_back(1).unwrap();
    buf.push_back(2).unwrap();
    buf.push_back(3).unwrap();
    assert_eq!(buf.pop_back(), Some(3));
    assert_eq!(buf.len(), 2);
    assert_eq!(buf.get(1), Some(&2));
}

#[test]
fn pop_front_undoes_push_front_on_buffer() {
    let mut buf: CircularBuffer<u32> = CircularBuffer::with_capacity(4);
    buf.push_back(1).unwrap();
    buf.push_front(7).unwrap();
    assert_eq!(buf.pop_front(), Some(7));
    assert_eq!(buf.len(), 1);
    assert_eq!(buf.get(0), Some(&1));
}

#[test]
fn push_back_keeps_front_order_on_buffer() {
    let mut buf: CircularBuffer<u32> = CircularBuffer::with_capacity(3);
    buf.push_back(1).unwrap();
    buf.push_back(2).unwrap();
    buf.push_back(3).unwrap();
    assert_eq!(buf.pop_front(), Some(1));
    assert_eq!(buf.pop_front(), Some(2));
    assert_eq!(buf.pop_front(), Some(3));
}

#[test]
fn resize_refuses_smaller_or_equal_capacity() {
    let mut buf: CircularBuffer<u32> = CircularBuffer::with_capacity(4);
    buf.push_back(1).unwrap();
    assert_eq!(buf.resize(4), Err(()));
    assert_eq!(buf.resize(2), Err(()));
    assert_eq!(buf.capacity(), 4);
    assert_eq!(buf.get(0), Some(&1));
}

#[test]
fn make_contiguous_leaves_empty_buffer_alone() {
    let mut buf: CircularBuffer<u32> = CircularBuffer::with_capacity(3);
    buf.push_back(1).unwrap();
    buf.pop_front();
    assert_eq!(buf.start(), 1);
    buf.make_contiguous();
    assert_eq!(buf.start(), 1);
    assert!(buf.is_empty());
}

#[test]
fn from_iter_doubles_capacity_from_four() {
    let small: CircularBuffer<u32> = CircularBuffer::from_iter(vec![1, 2, 3]);
    assert_eq!(small.capacity(), 4);
    let five: CircularBuffer<u32> = CircularBuffer::from_iter(vec![1, 2, 3, 4, 5]);
    assert_eq!(five.capacity(), 8);
    let nine: CircularBuffer<u32> = CircularBuffer::from_iter((0..9).collect());
    assert_eq!(nine.capacity(), 16);
    assert_eq!(nine.get(8), Some(&8));
    let empty: CircularBuffer<u32> = CircularBuffer::from_iter(Vec::new());
    assert_eq!(empty.capacity(), 4);
    assert!(empty.is_empty());
}

#[test]
fn get_mut_out_of_bounds_is_none() {
    let mut buf: CircularBuffer<u32> = CircularBuffer::with_capacity(3);
    buf.push_back(1).unwrap();
    assert!(buf.get_mut(1).is_none());
    assert!(buf.get_mut(5).is_none());
}

#[test]
fn iterators_stop_at_the_end() {
    let mut buf: CircularBuffer<u32> = CircularBuffer::with_capacity(2);
    buf.push_back(1).unwrap();
    let mut it = buf.iter();
    assert_eq!(it.next(), Some(&1));
    assert_eq!(it.next(), None);
    assert_eq!(it.next(), None);
    let mut into = buf.into_iter();
    assert_eq!(into.next(), Some(1));
    assert_eq!(into.next(), None);
}
