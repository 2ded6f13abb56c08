use mcmu::ring_buffer::{create, RingBuffer, RingError};

#[test]
fn write_then_read_gives_bytes_back() {
    let mut r = RingBuffer::new(8);
    assert_eq!(r.free_cap(), 8);
    assert_eq!(r.write(b"hello"), 5);
    assert_eq!(r.free_cap(), 3);
    let mut out = [0u8; 16];
    assert_eq!(r.read(&mut out), 5);
    assert_eq!(&out[..5], b"hello");
    assert_eq!(r.free_cap(), 8);
}

#[test]
fn write_takes_only_what_fits() {
    let mut r = RingBuffer::new(4);
    assert_eq!(r.write(b"abcdef"), 4);
    assert_eq!(r.free_cap(), 0);
    assert_eq!(r.write(b"x"), 0);
    let mut out = [9u8; 6];
    assert_eq!(r.read(&mut out), 4);
    assert_eq!(out, [b'a', b'b', b'c', b'd', 9, 9]);
}

#[test]
fn read_takes_only_what_fits_in_the_buffer() {
    let mut r = RingBuffer::new(10);
    assert_eq!(r.write(b"0123456789"), 10);
    let mut out = [0u8; 3];
    assert_eq!(r.read(&mut out), 3);
    assert_eq!(&out, b"012");
    assert_eq!(r.read(&mut out), 3);
    assert_eq!(&out, b"345");
    assert_eq!(r.free_cap(), 6);
}

#[test]
fn bytes_keep_their_order_across_the_wrap() {
    let mut r = RingBuffer::new(5);
    let mut out = [0u8; 5];
    assert_eq!(r.write(b"abcd"), 4);
    assert_eq!(r.read(&mut out[..3]), 3);
    assert_eq!(&out[..3], b"abc");
    // the next write runs past the end of the storage and wraps round
    assert_eq!(r.write(b"efgh"), 4);
    assert_eq!(r.get_bound(), (3, 2));
    assert_eq!(r.free_cap(), 0);
    assert_eq!(r.read(&mut out), 5);
    assert_eq!(&out, b"defgh");
    assert_eq!(r.free_cap(), 5);
}

#[test]
fn empty_ring_reads_nothing() {
    let mut r = RingBuffer::new(3);
    let mut out = [7u8; 2];
    assert_eq!(r.read(&mut out), 0);
    assert_eq!(out, [7, 7]);
    assert_eq!(r.get_bound(), (0, 0));
}

#[test]
fn zero_capacity_ring_takes_nothing() {
    let mut r = RingBuffer::new(0);
    assert_eq!(r.write(b"a"), 0);
    assert_eq!(r.free_cap(), 0);
}

#[test]
fn halves_share_the_ring() {
    let (mut w, mut rd) = create(4);
    assert_eq!(w.write(b"abcdef"), Ok(4));
    let mut out = [0u8; 8];
    assert_eq!(rd.read(&mut out), 4);
    assert_eq!(&out[..4], b"abcd");
    assert_eq!(w.write(b"xy"), Ok(2));
    assert_eq!(rd.read(&mut out), 2);
    assert_eq!(&out[..2], b"xy");
    assert_eq!(w.flush(), Ok(()));
}

#[test]
fn writer_fails_once_the_reader_is_gone() {
    let (mut w, rd) = create(4);
    drop(rd);
    assert_eq!(w.write(b"a"), Err(RingError::BrokenPipe));
}

#[test]
fn write_follows_the_count_of_handles() {
    let (mut w, mut rd) = create(4);
    assert_eq!(w.write_with_handles(1, b"ab"), Err(RingError::BrokenPipe));
    assert_eq!(w.write_with_handles(2, b"ab"), Ok(2));
    let mut out = [0u8; 4];
    assert_eq!(rd.read(&mut out), 2);
    assert_eq!(&out[..2], b"ab");
}

#[test]
fn write_moves_only_the_end_and_read_only_the_start() {
    let mut r = RingBuffer::new(3);
    assert_eq!(r.write(b"abc"), 3);
    assert_eq!(r.get_bound(), (0, 3));
    let mut out = [0u8; 2];
    assert_eq!(r.read(&mut out), 2);
    assert_eq!(r.get_bound(), (2, 3));
    assert_eq!(r.write(b"de"), 2);
    assert_eq!(r.get_bound(), (2, 1));
    let mut out = [0u8; 3];
    assert_eq!(r.read(&mut out), 3);
    assert_eq!(&out, b"cde");
    assert_eq!(r.get_bound(), (1, 1));
}
