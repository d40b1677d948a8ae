use sparkey::hash::Type;
use sparkey::murmur::{murmur3_32, murmur3_64};

#[test]
fn murmur3_32_known_values() {
    assert_eq!(murmur3_32(b"", 0), 0);
    assert_eq!(murmur3_32(b"", 1), 0x514e_28b7);
    assert_eq!(murmur3_32(b"", 0xffff_ffff), 0x81f1_6f39);
    assert_eq!(murmur3_32(b"hello", 0), 0x248b_fa47);
    assert_eq!(murmur3_32(b"Hello, world!", 0x9747_b28c), 0x2488_4cba);
    assert_eq!(
        murmur3_32(b"The quick brown fox jumps over the lazy dog", 0x9747_b28c),
        0x2fa8_26cd
    );
    assert_eq!(murmur3_32(&[0x21, 0x43, 0x65, 0x87], 0), 0xf55b_516b);
    assert_eq!(murmur3_32(&[0x21, 0x43, 0x65], 0), 0x7e4a_8634);
    assert_eq!(murmur3_32(&[0x21, 0x43], 0), 0xa0f7_b07a);
    assert_eq!(murmur3_32(&[0x21], 0), 0x7266_1cf4);
}

#[test]
fn murmur3_64_known_values() {
    assert_eq!(murmur3_64(b"", 0), 0);
    assert_eq!(murmur3_64(b"hello", 0), 0xcbd8_a7b3_41bd_9b02);
    assert_eq!(
        murmur3_64(b"The quick brown fox jumps over the lazy dog", 0),
        0xe34b_bc7b_bc07_1b6c
    );
}

#[test]
fn hash_type_widths_and_dispatch() {
    assert_eq!(Type::Murmur3_32.as_raw(), 4);
    assert_eq!(Type::Murmur3_64.as_raw(), 8);
    assert_eq!(Type::of_size(4), Type::Murmur3_32);
    assert_eq!(Type::of_size(8), Type::Murmur3_64);
    assert_eq!(Type::Murmur3_32.hash(b"hello", 0), 0x248b_fa47);
    assert_eq!(Type::Murmur3_64.hash(b"hello", 0), 0xcbd8_a7b3_41bd_9b02);
}
