use bytes::BytesMut;
use cmsg::{Cursor, Sink};

#[test]
fn vec_sink_appends() {
    let mut v: Vec<u8> = vec![1, 2];
    assert_eq!(Sink::remaining_mut(&v), isize::MAX as usize - 2);
    Sink::put_slice(&mut v, &[3, 4, 5]);
    Sink::put_u8(&mut v, 6);
    Sink::put_slice(&mut v, &[]);
    assert_eq!(v, vec![1, 2, 3, 4, 5, 6]);
    assert_eq!(Sink::remaining_mut(&v), isize::MAX as usize - 6);
}

#[test]
fn vec_sink_address_follows_the_bytes() {
    let mut v: Vec<u8> = Vec::with_capacity(64);
    let first = v.write_address();
    Sink::put_slice(&mut v, &[0; 5]);
    assert_eq!(v.write_address(), first + 5);
    assert_eq!(v, vec![0; 5]);
}

#[test]
fn bytes_mut_sink_appends() {
    let mut b = BytesMut::with_capacity(16);
    assert_eq!(Sink::remaining_mut(&b), isize::MAX as usize);
    Sink::put_slice(&mut b, &[3, 4, 5]);
    Sink::put_u8(&mut b, 6);
    assert_eq!(&b[..], &[3, 4, 5, 6]);
    assert_eq!(Sink::remaining_mut(&b), isize::MAX as usize - 4);
}

#[test]
fn bytes_mut_sink_address_follows_the_bytes() {
    let mut b = BytesMut::with_capacity(64);
    let first = b.write_address();
    Sink::put_u8(&mut b, 9);
    assert_eq!(b.write_address(), first + 1);
    assert_eq!(&b[..], &[9]);
}

#[test]
fn cursor_fills_its_buffer_from_the_start() {
    let mut c = Cursor::new(vec![9u8; 6]);
    assert_eq!(c.position(), 0);
    assert_eq!(c.remaining_mut(), 6);
    c.put_slice(&[1, 2, 3]);
    assert_eq!(c.position(), 3);
    assert_eq!(c.remaining_mut(), 3);
    c.put_u8(4);
    c.put_slice(&[]);
    assert_eq!(c.position(), 4);
    assert_eq!(c.get_ref(), &[1, 2, 3, 4, 9, 9]);
    c.put_slice(&[5, 6]);
    assert_eq!(c.remaining_mut(), 0);
    assert_eq!(c.into_inner(), vec![1, 2, 3, 4, 5, 6]);
}

#[test]
fn cursor_address_follows_the_position() {
    let mut c = Cursor::new(vec![0u8; 8]);
    let first = c.write_address();
    c.put_slice(&[1, 2, 3]);
    assert_eq!(c.write_address(), first + 3);
    assert_eq!(c.position(), 3);
}

#[test]
fn empty_cursor_has_no_room() {
    let mut c = Cursor::new(Vec::new());
    assert_eq!(c.remaining_mut(), 0);
    assert_eq!(c.position(), 0);
    c.put_slice(&[]);
    assert_eq!(c.into_inner(), Vec::<u8>::new());
}
