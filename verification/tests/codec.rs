use nae_backend::bytes::{bytes_lt, push_be, read_be, ts_to_bytes};
use std::cmp::Ordering;

#[test]
fn test_bytes_order() {
    println!("testing order");
    let mut bs1 = ts_to_bytes(0_u64);
    for num in 1_u64..100_000_000_u64 {
        if num % 10_000_000_u64 == 0 {
            println!(".");
        }
        let bs2 = ts_to_bytes(num);
        assert_eq!(Ordering::Less, bs1.as_slice().cmp(bs2.as_slice()));
        bs1 = bs2;
    }
}

#[test]
fn timestamp_bytes_are_big_endian() {
    assert_eq!(ts_to_bytes(0x0102_0304_0506_0708), [1, 2, 3, 4, 5, 6, 7, 8]);
    assert_eq!(ts_to_bytes(1), 1_u64.to_be_bytes());
    assert_eq!(ts_to_bytes(u64::MAX), [0xff; 8]);
}

#[test]
fn push_and_read_round_trip() {
    let mut buf: Vec<u8> = vec![0xaa];
    push_be(&mut buf, 0x0102_0304, 4);
    assert_eq!(buf, vec![0xaa, 1, 2, 3, 4]);
    assert_eq!(read_be(&buf, 1, 4), 0x0102_0304);
    assert_eq!(read_be(&buf, 0, 0), 0);
}

#[test]
fn shorter_prefix_sorts_first() {
    assert!(bytes_lt(&vec![1, 2], &vec![1, 2, 0]));
    assert!(!bytes_lt(&vec![1, 2, 0], &vec![1, 2]));
    assert!(!bytes_lt(&vec![1, 2], &vec![1, 2]));
    assert!(bytes_lt(&vec![1, 2, 9], &vec![1, 3]));
}
