use slip_codec::BasicBuffer;
use slip_codec::Error;

#[test]
fn test_basic_buffer() {
    let mut buf = BasicBuffer::<32>::new();
    assert_eq!(buf.slice(), &[]);

    buf.put(0x01).unwrap();
    assert_eq!(buf.slice(), &[0x01]);

    buf.put(0x02).unwrap();
    assert_eq!(buf.slice(), &[0x01, 0x02]);

    buf.put(0x03).unwrap();
    assert_eq!(buf.slice(), &[0x01, 0x02, 0x03]);

    buf.reset();
    assert_eq!(buf.slice(), &[]);

    buf.put(0x04).unwrap();
    assert_eq!(buf.slice(), &[0x04]);
}

#[test]
fn test_basic_buffer_full_on_capacity_plus_one() {
    // N distinct bytes fit; the (N+1)-th put fails, never an earlier one.
    let mut buf = BasicBuffer::<4>::new();
    for i in 0..4u8 {
        assert!(buf.put(i).is_ok());
    }
    assert_eq!(buf.slice(), &[0, 1, 2, 3]);
    assert_eq!(buf.put(4), Err(Error::BufferFull));
    assert_eq!(buf.slice(), &[0, 1, 2, 3]);
}

#[test]
fn test_basic_buffer_reset_idempotent() {
    let mut buf = BasicBuffer::<8>::new();
    buf.put(0x11).unwrap();
    buf.reset();
    assert_eq!(buf.slice(), &[]);
    buf.reset();
    assert_eq!(buf.slice(), &[]);
}

#[test]
fn test_basic_buffer_is_first_byte() {
    let mut buf = BasicBuffer::<8>::new();
    assert!(buf.is_first_byte());
    buf.put(0x01).unwrap();
    assert!(!buf.is_first_byte());
    buf.reset();
    assert!(buf.is_first_byte());
}
