use audioverse_core::ringbuffer::{next_power_of_two, RingBuffer};

#[test]
fn capacity_rounds_up_to_power_of_two() {
    assert_eq!(next_power_of_two(0), 1);
    assert_eq!(next_power_of_two(1), 1);
    assert_eq!(next_power_of_two(5), 8);
    assert_eq!(next_power_of_two(8), 8);
    assert_eq!(next_power_of_two(1000), 1024);
}

#[test]
fn one_slot_stays_free() {
    let mut rb: RingBuffer<f32> = RingBuffer::with_capacity(4);
    assert_eq!(rb.push(&[1.0, 2.0, 3.0, 4.0, 5.0]), 3);
    assert_eq!(rb.push(&[6.0]), 0);
    let mut out = [0.0f32; 8];
    assert_eq!(rb.pop(&mut out), 3);
    assert_eq!(&out[..4], &[1.0, 2.0, 3.0, 0.0]);
}

#[test]
fn round_trip_keeps_order() {
    let mut rb: RingBuffer<f32> = RingBuffer::with_capacity(16);
    let samples: Vec<f32> = (0..10).map(|i| i as f32 * 0.5).collect();
    assert_eq!(rb.push(&samples), 10);
    let mut out = vec![0.0f32; 10];
    assert_eq!(rb.pop(&mut out), 10);
    assert_eq!(out, samples);
    let mut more = [9.0f32; 2];
    assert_eq!(rb.pop(&mut more), 0);
    assert_eq!(more, [9.0, 9.0]);
}

#[test]
fn wraps_around_the_end() {
    let mut rb: RingBuffer<i32> = RingBuffer::with_capacity(4);
    let mut out = [0i32; 2];
    assert_eq!(rb.push(&[1, 2, 3]), 3);
    assert_eq!(rb.pop(&mut out), 2);
    assert_eq!(out, [1, 2]);
    assert_eq!(rb.push(&[4, 5, 6]), 2);
    let mut rest = [0i32; 5];
    assert_eq!(rb.pop(&mut rest), 3);
    assert_eq!(rest, [3, 4, 5, 0, 0]);
}

#[test]
fn split_reads_equal_one_read() {
    let mut a: RingBuffer<u8> = RingBuffer::with_capacity(8);
    let mut b: RingBuffer<u8> = RingBuffer::with_capacity(8);
    a.push(&[1, 2, 3, 4, 5]);
    b.push(&[1, 2, 3, 4, 5]);
    let mut x = [0u8; 2];
    let mut y = [0u8; 2];
    a.pop(&mut x);
    a.pop(&mut y);
    let mut z = [0u8; 4];
    b.pop(&mut z);
    assert_eq!([x[0], x[1], y[0], y[1]], z);
}

#[test]
fn capacity_zero_holds_nothing() {
    let mut rb: RingBuffer<f32> = RingBuffer::with_capacity(0);
    assert_eq!(rb.push(&[1.0]), 0);
    let mut out = [0.0f32; 1];
    assert_eq!(rb.pop(&mut out), 0);
}
