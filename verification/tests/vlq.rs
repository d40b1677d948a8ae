use sparkey::error::Error;
use sparkey::vlq::{read_vlq, write_vlq};

fn roundtrips(n: u64) {
    let bytes = write_vlq(n);
    assert_eq!(read_vlq(&bytes), Ok((n, bytes.len())));
    let mut longer = bytes.clone();
    longer.extend_from_slice(&[0xff, 0x00, 0x80]);
    assert_eq!(read_vlq(&longer), Ok((n, bytes.len())));
}

#[test]
fn vlq_roundtrip_boundaries() {
    for n in [
        0u64,
        127,
        128,
        16383,
        16384,
        2097151,
        2097152,
        (1u64 << 32) - 1,
        1u64 << 63,
        u64::MAX,
    ] {
        roundtrips(n);
    }
}

#[test]
fn vlq_exact_encodings() {
    assert_eq!(write_vlq(0), vec![0x00]);
    assert_eq!(write_vlq(127), vec![0x7f]);
    assert_eq!(write_vlq(128), vec![0x80, 0x01]);
    assert_eq!(write_vlq(300), vec![0xac, 0x02]);
    assert_eq!(write_vlq(16384), vec![0x80, 0x80, 0x01]);
    assert_eq!(write_vlq(u64::MAX).len(), 10);
    assert_eq!(write_vlq(1u64 << 63).len(), 10);
    assert_eq!(write_vlq((1u64 << 63) - 1).len(), 9);
}

#[test]
fn vlq_overflow_is_rejected() {
    assert_eq!(read_vlq(&[0x80; 10]), Err(Error::VlqOverflow));
    assert_eq!(read_vlq(&[0x80; 11]), Err(Error::VlqOverflow));
    assert_eq!(read_vlq(&[0xff; 32]), Err(Error::VlqOverflow));
}

#[test]
fn vlq_underrun_is_rejected() {
    assert_eq!(read_vlq(&[0x80]), Err(Error::VlqUnderrun));
    assert_eq!(read_vlq(&[]), Err(Error::VlqUnderrun));
    assert_eq!(read_vlq(&[0x80; 9]), Err(Error::VlqUnderrun));
}

#[test]
fn vlq_boundary_reads() {
    assert_eq!(read_vlq(&[0x80, 0x80, 0x01]), Ok((16384, 3)));
    assert_eq!(read_vlq(&[0xff, 0xff, 0x7f]), Ok((2097151, 3)));
    assert_eq!(read_vlq(&[0x05, 0xff]), Ok((5, 1)));
}

#[test]
fn vlq_tenth_byte_keeps_only_the_top_bit() {
    let mut bytes = vec![0x80u8; 9];
    bytes.push(0x01);
    assert_eq!(read_vlq(&bytes), Ok((1u64 << 63, 10)));
    let mut bytes = vec![0x80u8; 9];
    bytes.push(0x03);
    assert_eq!(read_vlq(&bytes), Ok((1u64 << 63, 10)));
}
