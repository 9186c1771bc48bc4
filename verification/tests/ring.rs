use stablecoin::ringbuffer::RingBuffer;

#[test]
fn ring_is_first_in_first_out() {
    let mut ring: RingBuffer<u64> = RingBuffer::new();
    assert!(ring.is_empty());
    assert_eq!(ring.pop(), None);
    ring.push(1);
    ring.push(2);
    ring.push(3);
    assert_eq!(ring.len(), 3);
    assert_eq!(ring.pop(), Some(1));
    assert_eq!(ring.pop(), Some(2));
    ring.push(4);
    assert_eq!(ring.pop(), Some(3));
    assert_eq!(ring.pop(), Some(4));
    assert_eq!(ring.pop(), None);
    assert!(ring.is_empty());
}

#[test]
fn ring_push_front_puts_an_item_at_the_head() {
    let mut ring: RingBuffer<u64> = RingBuffer::new();
    ring.push(1);
    ring.push(2);
    ring.push_front(0);
    assert_eq!(ring.len(), 3);
    assert_eq!(ring.pop(), Some(0));
    assert_eq!(ring.pop(), Some(1));
    assert_eq!(ring.pop(), Some(2));
}

#[test]
fn ring_push_front_wraps_below_zero() {
    let mut ring: RingBuffer<u64> = RingBuffer::new();
    ring.push_front(7);
    ring.commit();
    assert_eq!(ring.bounds(), (u16::MAX, 0));
    assert_eq!(ring.len(), 1);
    assert_eq!(ring.get(u16::MAX), Some(&7));
    assert_eq!(ring.pop(), Some(7));
    ring.commit();
    assert_eq!(ring.bounds(), (0, 0));
}

#[test]
fn ring_commit_writes_the_bounds() {
    let mut ring: RingBuffer<u64> = RingBuffer::new();
    ring.push(5);
    ring.push(6);
    // nothing is committed yet
    assert_eq!(ring.bounds(), (0, 0));
    ring.commit();
    assert_eq!(ring.bounds(), (0, 2));
    assert_eq!(ring.pop(), Some(5));
    assert_eq!(ring.bounds(), (0, 2));
    ring.commit();
    assert_eq!(ring.bounds(), (1, 2));
    assert_eq!(ring.get(0), None);
    assert_eq!(ring.get(1), Some(&6));
}

#[test]
fn ring_cursors_wrap_around() {
    let mut ring: RingBuffer<u64> = RingBuffer::new();
    for i in 0..65_530u64 {
        ring.push(i);
        assert_eq!(ring.pop(), Some(i));
    }
    for i in 0..10u64 {
        ring.push(100 + i);
    }
    ring.commit();
    assert_eq!(ring.bounds(), (65_530, 4));
    assert_eq!(ring.len(), 10);
    for i in 0..10u64 {
        assert_eq!(ring.pop(), Some(100 + i));
    }
    assert!(ring.is_empty());
}

#[test]
fn ring_holds_one_less_than_there_are_indices() {
    let mut ring: RingBuffer<u64> = RingBuffer::new();
    for i in 0..65_535u64 {
        ring.push(i);
    }
    assert_eq!(ring.len(), 65_535);
    ring.commit();
    assert_eq!(ring.bounds(), (0, 65_535));
    // a full ring loses its oldest item to a new one
    ring.push(65_535);
    assert_eq!(ring.len(), 65_535);
    ring.commit();
    assert_eq!(ring.bounds(), (1, 0));
    assert_eq!(ring.pop(), Some(1));
    assert_eq!(ring.len(), 65_534);
}

#[test]
fn ring_push_front_on_a_full_ring_leaves_it_empty() {
    let mut ring: RingBuffer<u64> = RingBuffer::new();
    for i in 0..65_535u64 {
        ring.push(i);
    }
    ring.push_front(9);
    assert!(ring.is_empty());
    assert_eq!(ring.len(), 0);
    assert_eq!(ring.pop(), None);
}
