use draw_mixer::ring_buffer::RingBuffer;

#[test]
fn fifo_within_capacity() {
    let mut rb = RingBuffer::new(4, 0i32);
    rb.write(&[1, 2]);
    rb.write(&[3]);
    let mut out = [0i32; 4];
    let n = rb.read(&mut out);
    assert_eq!(n, 3);
    assert_eq!(out, [1, 2, 3, 0]);
    assert_eq!(rb.available(), 0);
}

#[test]
fn fifo_with_reads_in_between() {
    let mut rb = RingBuffer::new(4, 0i32);
    rb.write(&[1, 2, 3]);
    let mut out = [0i32; 2];
    assert_eq!(rb.read(&mut out), 2);
    assert_eq!(out, [1, 2]);
    rb.write(&[4, 5, 6]);
    let mut rest = [0i32; 8];
    assert_eq!(rb.read(&mut rest), 4);
    assert_eq!(&rest[..4], &[3, 4, 5, 6]);
}

#[test]
fn overflow_keeps_newest() {
    let mut rb = RingBuffer::new(3, 0i32);
    rb.write(&[1, 2, 3, 4, 5]);
    let mut seen = [0i32; 3];
    assert_eq!(rb.peek(&mut seen), 3);
    assert_eq!(seen, [3, 4, 5]);
    let mut out = [0i32; 5];
    assert_eq!(rb.read(&mut out), 3);
    assert_eq!(&out[..3], &[3, 4, 5]);
}

#[test]
fn overflow_by_single_pushes() {
    let mut rb = RingBuffer::new(2, 0u8);
    for s in 1..=5u8 {
        rb.push(s);
    }
    assert_eq!(rb.pop(), Some(4));
    assert_eq!(rb.pop(), Some(5));
    assert_eq!(rb.pop(), None);
}

#[test]
fn peek_twice_gives_same_data() {
    let mut rb = RingBuffer::new(8, 0.0f32);
    rb.write(&[0.25, -0.5, 0.75]);
    let mut first = [9.0f32; 5];
    let mut second = [9.0f32; 5];
    let a = rb.peek(&mut first);
    let b = rb.peek(&mut second);
    assert_eq!(a, 3);
    assert_eq!(a, b);
    assert_eq!(first, second);
    assert_eq!(first, [0.25, -0.5, 0.75, 9.0, 9.0]);
    assert_eq!(rb.available(), 3);
}

#[test]
fn pop_on_empty_is_none() {
    let mut rb = RingBuffer::new(1, 0i16);
    assert_eq!(rb.pop(), None);
    rb.push(7);
    assert_eq!(rb.pop(), Some(7));
    assert_eq!(rb.pop(), None);
}

#[test]
fn read_into_short_output_leaves_rest() {
    let mut rb = RingBuffer::new(5, 0i32);
    rb.write(&[1, 2, 3, 4]);
    let mut out = [0i32; 1];
    assert_eq!(rb.read(&mut out), 1);
    assert_eq!(out, [1]);
    assert_eq!(rb.available(), 3);
    assert_eq!(rb.capacity_len(), 5);
}

#[test]
fn values_outside_unit_range_are_kept() {
    let mut rb = RingBuffer::new(2, 0.0f32);
    rb.write(&[1.5, -3.0]);
    let mut out = [0.0f32; 2];
    rb.read(&mut out);
    assert_eq!(out, [1.5, -3.0]);
}

#[test]
fn fifo_by_single_pushes() {
    let mut rb = RingBuffer::new(4, 0i32);
    for s in [10, 20, 30] {
        rb.push(s);
    }
    assert_eq!(rb.pop(), Some(10));
    assert_eq!(rb.pop(), Some(20));
    assert_eq!(rb.pop(), Some(30));
    assert_eq!(rb.pop(), None);
}
