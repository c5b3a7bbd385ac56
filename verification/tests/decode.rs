use cmsg::decode::{decode_payload, decode_rights, payload_is_valid};
use cmsg::ControlMsg::{Credentials, Raw, Rights, Timestamp};
use cmsg::{builder, iterator, CMsg, ControlMsgIter, Kinds, Ucred};
use std::mem::size_of;
use std::time::Duration;

const WORD: usize = size_of::<usize>();

fn kinds() -> Kinds {
    Kinds::native()
}

fn area(level: i32, kind: i32, payload: &[u8]) -> Vec<u8> {
    let mut storage: Vec<u8> = Vec::with_capacity(256);
    builder(&mut storage).msg(level, kind, payload).finish().unwrap();
    storage
}

fn two_longs(a: isize, b: isize) -> Vec<u8> {
    let mut out = Vec::new();
    out.extend_from_slice(&a.to_ne_bytes());
    out.extend_from_slice(&b.to_ne_bytes());
    out
}

fn with_declared_len(len: usize, total: usize) -> Vec<u8> {
    let mut out = Vec::new();
    out.extend_from_slice(&len.to_ne_bytes());
    out.extend_from_slice(&77i32.to_ne_bytes());
    out.extend_from_slice(&78i32.to_ne_bytes());
    out.resize(total, 0);
    out
}

#[test]
fn empty_area_has_no_message() {
    let mut iter = iterator(&[]);
    assert!(iter.well_formed());
    assert!(iter.next().is_none());
    assert!(iter.next().is_none());
}

#[test]
fn less_than_a_header_is_no_message() {
    let bytes = vec![0xffu8; WORD + 7];
    let mut iter = iterator(&bytes);
    assert!(iter.well_formed());
    assert!(iter.next().is_none());
}

#[test]
fn unknown_kind_is_raw() {
    let storage = area(0x1234, -7, &[1, 2, 3, 4, 5]);
    let mut iter = iterator(&storage);
    assert!(iter.well_formed());
    match iter.next() {
        Some(Raw(m)) => {
            assert_eq!(m.level(), 0x1234);
            assert_eq!(m.kind(), -7);
            assert_eq!(m.as_ref(), &[1, 2, 3, 4, 5]);
            assert_eq!(m.len(), 5);
            assert_eq!(&m[1..3], &[2, 3]);
        }
        _ => panic!("expected a raw message"),
    }
    assert!(iter.next().is_none());
}

#[test]
fn rights_kind_at_another_level_is_raw() {
    let storage = area(libc::SOL_SOCKET + 1, libc::SCM_RIGHTS, &4i32.to_ne_bytes());
    match iterator(&storage).next() {
        Some(Raw(m)) => {
            assert_eq!(m.level(), libc::SOL_SOCKET + 1);
            assert_eq!(m.kind(), libc::SCM_RIGHTS);
            assert_eq!(m.as_ref(), &4i32.to_ne_bytes());
        }
        _ => panic!("expected a raw message"),
    }
}

#[test]
fn raw_message_with_empty_payload() {
    let storage = area(5, 6, &[]);
    assert_eq!(storage.len(), WORD + 8);
    let mut iter = iterator(&storage);
    match iter.next() {
        Some(Raw(m)) => {
            assert_eq!(m.level(), 5);
            assert_eq!(m.kind(), 6);
            assert!(m.as_ref().is_empty());
        }
        _ => panic!("expected a raw message"),
    }
    assert!(iter.next().is_none());
}

#[test]
fn credentials_are_copied_out() {
    let mut payload = Vec::new();
    payload.extend_from_slice(&1234i32.to_ne_bytes());
    payload.extend_from_slice(&1000u32.to_ne_bytes());
    payload.extend_from_slice(&u32::MAX.to_ne_bytes());
    let storage = area(libc::SOL_SOCKET, libc::SCM_CREDENTIALS, &payload);
    let mut iter = iterator(&storage);
    assert!(iter.well_formed());
    match iter.next() {
        Some(Credentials(c)) => {
            assert_eq!(c, Ucred { pid: 1234, uid: 1000, gid: u32::MAX });
        }
        _ => panic!("expected credentials"),
    }
    assert!(iter.next().is_none());
}

#[test]
fn credentials_of_another_size_are_refused() {
    let storage = area(libc::SOL_SOCKET, libc::SCM_CREDENTIALS, &[0u8; 11]);
    assert!(!iterator(&storage).well_formed());
    let storage = area(libc::SOL_SOCKET, libc::SCM_CREDENTIALS, &[0u8; 13]);
    assert!(!iterator(&storage).well_formed());
    assert!(!payload_is_valid(kinds(), libc::SOL_SOCKET, libc::SCM_CREDENTIALS, &[]));
    assert!(payload_is_valid(kinds(), libc::SOL_SOCKET, libc::SCM_CREDENTIALS, &[0u8; 12]));
}

#[test]
fn timestamp_with_microseconds() {
    let storage = area(libc::SOL_SOCKET, libc::SCM_TIMESTAMP, &two_longs(5, 7));
    let mut iter = iterator(&storage);
    assert!(iter.well_formed());
    match iter.next() {
        Some(Timestamp(d)) => assert_eq!(d, Duration::new(5, 7000)),
        _ => panic!("expected a timestamp"),
    }
    assert!(iter.next().is_none());
}

#[test]
fn timestamp_microseconds_carry_into_seconds() {
    let storage = area(libc::SOL_SOCKET, libc::SCM_TIMESTAMP, &two_longs(1, 4_294_967));
    match iterator(&storage).next() {
        Some(Timestamp(d)) => {
            assert_eq!(d, Duration::new(1, 4_294_967_000));
            assert_eq!(d.as_secs(), 5);
            assert_eq!(d.subsec_nanos(), 294_967_000);
        }
        _ => panic!("expected a timestamp"),
    }
}

#[test]
fn timestamp_with_nanoseconds() {
    let storage = area(libc::SOL_SOCKET, libc::SCM_TIMESTAMPNS, &two_longs(5, 7));
    let mut iter = iterator(&storage);
    assert!(iter.well_formed());
    match iter.next() {
        Some(Timestamp(d)) => assert_eq!(d, Duration::new(5, 7)),
        _ => panic!("expected a timestamp"),
    }
    assert!(iter.next().is_none());
}

#[test]
fn timestamp_fields_must_be_positive_and_small() {
    let k = kinds();
    let s = libc::SOL_SOCKET;
    let micro = libc::SCM_TIMESTAMP;
    let nano = libc::SCM_TIMESTAMPNS;
    assert!(payload_is_valid(k, s, micro, &two_longs(1, 1)));
    assert!(!payload_is_valid(k, s, micro, &two_longs(0, 1)));
    assert!(!payload_is_valid(k, s, micro, &two_longs(1, 0)));
    assert!(!payload_is_valid(k, s, micro, &two_longs(-1, 1)));
    assert!(!payload_is_valid(k, s, micro, &two_longs(1, -1)));
    assert!(payload_is_valid(k, s, micro, &two_longs(1, 4_294_967)));
    assert!(!payload_is_valid(k, s, micro, &two_longs(1, 4_294_968)));
    assert!(!payload_is_valid(k, s, micro, &two_longs(1, 1)[..2 * WORD - 1]));
    assert!(!payload_is_valid(k, s, micro, &[]));

    assert!(payload_is_valid(k, s, nano, &two_longs(1, 1)));
    assert!(!payload_is_valid(k, s, nano, &two_longs(0, 1)));
    assert!(!payload_is_valid(k, s, nano, &two_longs(1, 0)));
    assert!(!payload_is_valid(k, s, nano, &two_longs(isize::MIN, 1)));
    assert!(payload_is_valid(k, s, nano, &two_longs(isize::MAX, 999_999_999)));
    if WORD == 8 {
        assert!(payload_is_valid(k, s, nano, &two_longs(1, 4_294_967_294)));
        assert!(!payload_is_valid(k, s, nano, &two_longs(1, 4_294_967_295)));
    }
    assert!(!payload_is_valid(k, s, nano, &[0u8; 3]));
}

#[test]
fn any_payload_suits_rights_and_unknown_kinds() {
    let k = kinds();
    assert!(payload_is_valid(k, libc::SOL_SOCKET, libc::SCM_RIGHTS, &[]));
    assert!(payload_is_valid(k, libc::SOL_SOCKET, libc::SCM_RIGHTS, &[1, 2, 3]));
    assert!(payload_is_valid(k, 0x7777, 0x6666, &[]));
    assert!(payload_is_valid(k, 0x7777, 0x6666, &[0u8; 100]));
}

#[test]
fn rights_with_a_ragged_payload_keep_the_whole_descriptors() {
    let mut payload = Vec::new();
    payload.extend_from_slice(&11i32.to_ne_bytes());
    payload.extend_from_slice(&[0xff, 0xff]);
    let storage = area(libc::SOL_SOCKET, libc::SCM_RIGHTS, &payload);
    match iterator(&storage).next() {
        Some(Rights(fds)) => assert_eq!(fds, vec![11]),
        _ => panic!("expected rights"),
    }
    assert_eq!(decode_rights(&[1, 2, 3]), Vec::<i32>::new());
    assert_eq!(decode_rights(&[]), Vec::<i32>::new());
}

#[test]
fn rights_without_descriptors() {
    let mut storage: Vec<u8> = Vec::with_capacity(64);
    builder(&mut storage).rights(&[]).finish().unwrap();
    let mut iter = iterator(&storage);
    match iter.next() {
        Some(Rights(fds)) => assert!(fds.is_empty()),
        _ => panic!("expected rights"),
    }
    assert!(iter.next().is_none());
}

#[test]
fn rights_keep_negative_and_extreme_descriptors() {
    let fds = [-1, 0, i32::MAX, i32::MIN, 3];
    let mut storage: Vec<u8> = Vec::with_capacity(64);
    builder(&mut storage).rights(&fds).finish().unwrap();
    match iterator(&storage).next() {
        Some(Rights(back)) => assert_eq!(back, fds.to_vec()),
        _ => panic!("expected rights"),
    }
}

#[test]
fn decode_rights_reads_descriptors_in_order() {
    let mut payload = Vec::new();
    for fd in [4i32, 5, -6] {
        payload.extend_from_slice(&fd.to_ne_bytes());
    }
    assert_eq!(decode_rights(&payload), vec![4, 5, -6]);
}

#[test]
fn decode_payload_follows_level_and_kind() {
    let k = Kinds { socket: 10, rights: 20, credentials: 30, timestamp: 40, timestamp_ns: 50 };
    let four = 4i32.to_ne_bytes();
    match decode_payload(k, 10, 20, &four) {
        Rights(fds) => assert_eq!(fds, vec![4]),
        _ => panic!("expected rights"),
    }
    match decode_payload(k, 11, 20, &four) {
        Raw(m) => {
            assert_eq!(m.level(), 11);
            assert_eq!(m.kind(), 20);
            assert_eq!(m.as_ref(), &four);
        }
        _ => panic!("expected a raw message"),
    }
    match decode_payload(k, 10, 40, &two_longs(2, 3)) {
        Timestamp(d) => assert_eq!(d, Duration::new(2, 3000)),
        _ => panic!("expected a timestamp"),
    }
    match decode_payload(k, 10, 50, &two_longs(2, 3)) {
        Timestamp(d) => assert_eq!(d, Duration::new(2, 3)),
        _ => panic!("expected a timestamp"),
    }
    match decode_payload(k, 10, 30, &[0u8; 12]) {
        Credentials(c) => assert_eq!(c, Ucred { pid: 0, uid: 0, gid: 0 }),
        _ => panic!("expected credentials"),
    }
}

#[test]
fn kinds_that_coincide_are_taken_in_order() {
    let k = Kinds { socket: 1, rights: 2, credentials: 2, timestamp: 2, timestamp_ns: 2 };
    assert!(payload_is_valid(k, 1, 2, &[0u8; 5]));
    match decode_payload(k, 1, 2, &[0u8; 12]) {
        Rights(fds) => assert_eq!(fds, vec![0, 0, 0]),
        _ => panic!("expected rights"),
    }
}

#[test]
fn message_without_padding_ends_the_walk() {
    let storage = area(libc::SOL_SOCKET, libc::SCM_RIGHTS, &4i32.to_ne_bytes());
    assert_eq!(storage.len(), WORD + 12);
    let mut iter = iterator(&storage);
    assert!(iter.next().is_some());
    assert!(iter.well_formed());
    assert!(iter.next().is_none());
}

#[test]
fn padding_is_skipped_between_messages() {
    let mut storage: Vec<u8> = Vec::with_capacity(256);
    builder(&mut storage)
        .msg(100, 1, &[1])
        .msg(100, 2, &[1, 2])
        .msg(100, 3, &[])
        .rights(&[9])
        .finish()
        .unwrap();
    let mut iter = iterator(&storage);
    for expected in 1..=3 {
        assert!(iter.well_formed());
        match iter.next() {
            Some(Raw(m)) => {
                assert_eq!(m.level(), 100);
                assert_eq!(m.kind(), expected);
                assert_eq!(m.as_ref().len(), (expected % 3) as usize);
            }
            _ => panic!("expected a raw message"),
        }
    }
    match iter.next() {
        Some(Rights(fds)) => assert_eq!(fds, vec![9]),
        _ => panic!("expected rights"),
    }
    assert!(iter.next().is_none());
}

#[test]
fn header_that_does_not_cover_itself_ends_the_walk() {
    for declared in [0, 1, WORD + 7] {
        let bytes = with_declared_len(declared, 2 * (WORD + 8));
        let mut iter = iterator(&bytes);
        assert!(iter.well_formed());
        assert!(iter.next().is_none());
        assert!(iter.next().is_none());
    }
}

#[test]
fn truncated_trailing_message_ends_the_walk() {
    let bytes = with_declared_len(100, 20);
    let mut iter = iterator(&bytes);
    assert!(iter.well_formed());
    assert!(iter.next().is_none());
    assert!(iter.next().is_none());

    let bytes = with_declared_len(WORD + 9, WORD + 8);
    assert!(iterator(&bytes).next().is_none());
    let bytes = with_declared_len(usize::MAX, 64);
    assert!(iterator(&bytes).next().is_none());
}

#[test]
fn truncated_message_behind_a_whole_one_ends_the_walk() {
    let mut storage = area(libc::SOL_SOCKET, libc::SCM_RIGHTS, &6i32.to_ne_bytes());
    storage.resize(WORD + 8 + WORD, 0);
    storage.extend_from_slice(&with_declared_len(WORD + 8 + 50, WORD + 8 + 10));
    let mut iter = iterator(&storage);
    match iter.next() {
        Some(Rights(fds)) => assert_eq!(fds, vec![6]),
        _ => panic!("expected rights"),
    }
    assert!(iter.well_formed());
    assert!(iter.next().is_none());
    assert!(iter.next().is_none());
}

#[test]
fn declared_length_may_reach_the_end_of_the_area() {
    let bytes = with_declared_len(WORD + 8, WORD + 8);
    let mut iter = iterator(&bytes);
    match iter.next() {
        Some(Raw(m)) => {
            assert_eq!(m.level(), 77);
            assert_eq!(m.kind(), 78);
            assert!(m.as_ref().is_empty());
        }
        _ => panic!("expected a raw message"),
    }
    assert!(iter.next().is_none());

    let bytes = with_declared_len(WORD + 9, WORD + 9);
    match iterator(&bytes).next() {
        Some(Raw(m)) => assert_eq!(m.as_ref(), &[0]),
        _ => panic!("expected a raw message"),
    }
}

#[test]
fn zeroed_storage_behind_a_message_ends_the_walk() {
    let mut storage = cmsg::Cursor::new(vec![0u8; 6 * WORD]);
    builder(&mut storage).rights(&[4]).finish().unwrap();
    let mut iter = iterator(storage.get_ref());
    assert!(iter.well_formed());
    match iter.next() {
        Some(Rights(fds)) => assert_eq!(fds, vec![4]),
        _ => panic!("expected rights"),
    }
    assert!(iter.well_formed());
    assert!(iter.next().is_none());
    assert!(iter.next().is_none());
}

#[test]
fn zeroed_storage_holds_no_message() {
    let storage = vec![0u8; 1024];
    let mut iter = iterator(&storage);
    assert!(iter.well_formed());
    assert!(iter.next().is_none());
    assert!(iter.next().is_none());
}

#[test]
fn round_trip_in_zeroed_storage_of_any_size() {
    for spare in 0..40 {
        for count in 0..5 {
            let fds: Vec<i32> = (0..count).map(|i| 100 + i).collect();
            let need = WORD + 8 + 4 * fds.len();
            let mut storage = cmsg::Cursor::new(vec![0u8; need + spare]);
            builder(&mut storage).rights(&fds).finish().unwrap();
            let mut iter = iterator(storage.get_ref());
            match iter.next() {
                Some(Rights(back)) => assert_eq!(back, fds),
                _ => panic!("expected rights"),
            }
            assert!(iter.well_formed());
            assert!(iter.next().is_none());
        }
    }
}

#[test]
fn decoding_twice_yields_the_same() {
    let mut storage: Vec<u8> = Vec::with_capacity(256);
    builder(&mut storage)
        .rights(&[4, 5, 6])
        .msg(9, 9, &[1, 2, 3])
        .finish()
        .unwrap();
    let mut first = ControlMsgIter::with_kinds(&storage, kinds());
    let mut second = iterator(&storage);
    loop {
        assert_eq!(first.well_formed(), second.well_formed());
        match (first.next(), second.next()) {
            (None, None) => break,
            (Some(Rights(a)), Some(Rights(b))) => assert_eq!(a, b),
            (Some(Raw(a)), Some(Raw(b))) => {
                assert_eq!(a.level(), b.level());
                assert_eq!(a.kind(), b.kind());
                assert_eq!(a.as_ref(), b.as_ref());
            }
            _ => panic!("the two walks differ"),
        }
    }
}

#[test]
fn with_kinds_interprets_by_the_given_kinds() {
    let k = Kinds { socket: 500, rights: 600, credentials: 0, timestamp: 0, timestamp_ns: 0 };
    let storage = area(500, 600, &8i32.to_ne_bytes());
    match ControlMsgIter::with_kinds(&storage, k).next() {
        Some(Rights(fds)) => assert_eq!(fds, vec![8]),
        _ => panic!("expected rights"),
    }
    match iterator(&storage).next() {
        Some(Raw(m)) => assert_eq!(m.level(), 500),
        _ => panic!("expected a raw message"),
    }
}

#[test]
fn raw_message_keeps_level_kind_and_payload() {
    let payload = [1u8, 2, 3];
    let m = CMsg::new(7, 8, &payload);
    assert_eq!(m.level(), 7);
    assert_eq!(m.kind(), 8);
    assert_eq!(m.as_ref(), &payload);
    let copy = m;
    assert_eq!(copy.kind(), m.kind());
    assert_eq!(&*copy, &payload);
}
