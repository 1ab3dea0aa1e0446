use moving_average::RingBuffer;

fn collect_items(rb: &RingBuffer<u32>) -> Vec<u32> {
    let mut collected: Vec<u32> = Vec::new();
    let mut it = rb.iter();
    while let Some(item) = it.next() {
        collected.push(item);
    }
    collected
}

fn assert_rb_state(rb: &RingBuffer<u32>, items: &[u32]) {
    assert_eq!(rb.len(), items.len());
    assert_eq!(rb.front(), items.last().copied());
    assert_eq!(collect_items(rb), items.to_vec());
}

#[test]
fn basics() {
    let mut rb: RingBuffer<u32> = RingBuffer::new(0, 3);

    assert_eq!(rb.pop_back(), None);
    assert_rb_state(&rb, &[]);

    rb.push_front(1);
    assert_rb_state(&rb, &[1]);

    assert_eq!(rb.pop_back(), Some(1));
    assert_rb_state(&rb, &[]);

    rb.push_front(1);
    assert_eq!(rb.shift(2), None);
    assert_rb_state(&rb, &[1, 2]);

    assert_eq!(rb.shift(3), None);
    assert_rb_state(&rb, &[1, 2, 3]);

    assert_eq!(rb.shift(4), Some(1));
    assert_rb_state(&rb, &[2, 3, 4]);

    rb.push_front(5);
    assert_rb_state(&rb, &[3, 4, 5]);

    assert_eq!(rb.pop_back(), Some(3));
    assert_rb_state(&rb, &[4, 5]);

    assert_eq!(rb.pop_back(), Some(4));
    assert_rb_state(&rb, &[5]);

    assert_eq!(rb.shift(6), None);
    assert_rb_state(&rb, &[5, 6]);

    assert_eq!(rb.pop_back(), Some(5));
    assert_rb_state(&rb, &[6]);

    assert_eq!(rb.pop_back(), Some(6));
    assert_rb_state(&rb, &[]);

    assert_eq!(rb.pop_back(), None);
    assert_rb_state(&rb, &[]);
}

#[test]
fn get_returns_items_oldest_first() {
    let mut rb: RingBuffer<u32> = RingBuffer::new(0, 3);
    rb.push_front(10);
    rb.push_front(20);
    rb.push_front(30);
    rb.push_front(40);
    assert_eq!(rb.get(0), 20);
    assert_eq!(rb.get(1), 30);
    assert_eq!(rb.get(2), 40);
    assert_eq!(rb.get_capacity(), 3);
}

#[test]
fn iter_wraps_around_the_backing_array() {
    let mut rb: RingBuffer<u32> = RingBuffer::new(0, 2);
    rb.push_front(1);
    rb.push_front(2);
    rb.push_front(3);
    rb.push_front(4);
    assert_eq!(collect_items(&rb), vec![3, 4]);
    let mut it = rb.iter();
    assert_eq!(it.next(), Some(3));
    assert_eq!(it.next(), Some(4));
    assert_eq!(it.next(), None);
    assert_eq!(it.next(), None);
}

#[test]
fn zero_capacity_buffer_stays_empty() {
    let rb: RingBuffer<u32> = RingBuffer::new(0, 0);
    assert_eq!(rb.len(), 0);
    assert_eq!(rb.front(), None);
    assert_eq!(collect_items(&rb), Vec::<u32>::new());
}
