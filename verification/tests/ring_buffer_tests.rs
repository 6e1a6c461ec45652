use exo_engine::ring_buffer::RingBuffer;

#[test]
fn ring_buffer_aligns_allocations() {
    let mut rb = RingBuffer::new(256, 3);
    rb.start_frame();
    assert!(rb.fits(10, 4));
    assert_eq!(rb.allocate(10, 4), 0);
    assert_eq!(rb.allocate(10, 4), 12);
    assert_eq!(rb.allocate(1, 16), 32);
    assert!(!rb.fits(300, 4));
    assert!(!rb.fits(1, 0));
}

#[test]
fn ring_buffer_wraps_around() {
    let mut rb = RingBuffer::new(64, 2);
    rb.start_frame();
    assert_eq!(rb.allocate(50, 1), 0);
    rb.start_frame();
    assert_eq!(rb.allocate(20, 1), 0);
}

#[test]
fn ring_buffer_refuses_to_overrun_previous_frame() {
    let mut rb = RingBuffer::new(64, 2);
    rb.start_frame();
    assert_eq!(rb.allocate(50, 1), 0);
    rb.start_frame();
    assert_eq!(rb.allocate(20, 1), 0);
    rb.start_frame();
    assert_eq!(rb.allocate(10, 1), 20);
    assert!(!rb.fits(30, 1));
    assert!(rb.fits(20, 1));
}

#[test]
fn ring_buffer_without_frames_cannot_allocate() {
    let rb = RingBuffer::new(64, 0);
    assert!(!rb.fits(1, 1));
    assert_eq!(rb.buffer_size(), 64);
}
