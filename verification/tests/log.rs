use sparkey::error::Error;
use sparkey::log::snappy::{read_block, Skip};
use sparkey::log::uncompressed::EntryReader;
use sparkey::log::writer::{encode_delete, encode_put};
use sparkey::log::{entry_len, read_entry, CompressionType, Entry, Header, Reader, Writer};

fn sample_header() -> Header {
    Header {
        major_version: 1,
        minor_version: 0,
        file_identifier: 0xdead_beef,
        num_puts: 3,
        num_deletes: 1,
        data_end: 200,
        max_key_len: 5,
        max_value_len: 9,
        delete_size: 7,
        compression_type: CompressionType::Snappy,
        compression_block_size: 1024,
        put_size: 60,
        header_size: 84,
        max_entries_per_block: 4,
    }
}

fn owned(entry: Entry<&[u8]>) -> Entry<Vec<u8>> {
    entry.into_owned()
}

fn is_put(entry: &Entry<Vec<u8>>, key: &[u8], value: &[u8]) -> bool {
    match entry {
        Entry::Put(k, v) => k.as_slice() == key && v.as_slice() == value,
        Entry::Delete(_) => false,
    }
}

fn is_delete(entry: &Entry<Vec<u8>>, key: &[u8]) -> bool {
    match entry {
        Entry::Put(_, _) => false,
        Entry::Delete(k) => k.as_slice() == key,
    }
}

#[test]
fn header_bytes_are_little_endian_in_file_order() {
    let bytes = sample_header().to_bytes();
    assert_eq!(bytes.len(), 84);
    assert_eq!(&bytes[0..4], &[0x95, 0x9c, 0xb3, 0x49]);
    assert_eq!(&bytes[4..8], &[1, 0, 0, 0]);
    assert_eq!(&bytes[8..12], &[0, 0, 0, 0]);
    assert_eq!(&bytes[12..16], &[0xef, 0xbe, 0xad, 0xde]);
    assert_eq!(&bytes[16..24], &[3, 0, 0, 0, 0, 0, 0, 0]);
    assert_eq!(&bytes[24..32], &[1, 0, 0, 0, 0, 0, 0, 0]);
    assert_eq!(&bytes[32..40], &[200, 0, 0, 0, 0, 0, 0, 0]);
    assert_eq!(&bytes[40..48], &[5, 0, 0, 0, 0, 0, 0, 0]);
    assert_eq!(&bytes[48..56], &[9, 0, 0, 0, 0, 0, 0, 0]);
    assert_eq!(&bytes[56..64], &[7, 0, 0, 0, 0, 0, 0, 0]);
    assert_eq!(&bytes[64..68], &[1, 0, 0, 0]);
    assert_eq!(&bytes[68..72], &[0, 4, 0, 0]);
    assert_eq!(&bytes[72..80], &[60, 0, 0, 0, 0, 0, 0, 0]);
    assert_eq!(&bytes[80..84], &[4, 0, 0, 0]);
}

#[test]
fn header_roundtrip() {
    let header = sample_header();
    let mut bytes = header.to_bytes();
    assert_eq!(Header::load(&bytes), Ok(header));
    bytes.extend_from_slice(&[9, 9, 9]);
    assert_eq!(Header::load(&bytes), Ok(header));
}

#[test]
fn header_load_failures() {
    let good = sample_header().to_bytes();
    assert_eq!(Header::load(&[]), Err(Error::UnexpectedEof));
    assert_eq!(Header::load(&good[..3]), Err(Error::UnexpectedEof));
    assert_eq!(Header::load(&good[..4]), Err(Error::UnexpectedEof));
    assert_eq!(Header::load(&good[..83]), Err(Error::UnexpectedEof));

    let mut bad = good.clone();
    bad[0] = 0;
    assert_eq!(Header::load(&bad), Err(Error::WrongLogMagicNumber));
    assert_eq!(Header::load(&bad[..4]), Err(Error::WrongLogMagicNumber));

    let mut bad = good.clone();
    bad[4] = 2;
    assert_eq!(Header::load(&bad), Err(Error::WrongLogMajorVersion));

    let mut bad = good.clone();
    bad[8] = 1;
    assert_eq!(Header::load(&bad), Err(Error::UnsupportedLogMinorVersion));

    let mut bad = good.clone();
    bad[64] = 2;
    assert_eq!(Header::load(&bad), Err(Error::InvalidCompressionType));

    let mut bad = good.clone();
    bad[32] = 83;
    assert_eq!(Header::load(&bad), Err(Error::LogHeaderCorrupt));

    let mut bad = good.clone();
    bad[16] = 201;
    assert_eq!(Header::load(&bad), Err(Error::LogHeaderCorrupt));

    let mut bad = good.clone();
    bad[24] = 201;
    assert_eq!(Header::load(&bad), Err(Error::LogHeaderCorrupt));

    let mut bad = good.clone();
    bad[68] = 9;
    bad[69] = 0;
    assert_eq!(Header::load(&bad), Err(Error::LogHeaderCorrupt));

    let mut fine = good.clone();
    fine[64] = 0;
    fine[68] = 0;
    fine[69] = 0;
    assert!(Header::load(&fine).is_ok());
}

#[test]
fn compression_type_numbers() {
    assert_eq!(CompressionType::Uncompressed.as_raw(), 0);
    assert_eq!(CompressionType::Snappy.as_raw(), 1);
}

#[test]
fn entry_accessors() {
    let put = Entry::Put(vec![1u8], vec![2u8, 3]);
    assert_eq!(put.key(), &vec![1u8]);
    assert_eq!(put.value(), Some(&vec![2u8, 3]));
    let delete: Entry<Vec<u8>> = Entry::Delete(vec![4u8]);
    assert_eq!(delete.key(), &vec![4u8]);
    assert_eq!(delete.value(), None);
    let borrowed: Entry<&[u8]> = Entry::Put(&[7u8, 8], &[9u8]);
    assert!(is_put(&borrowed.into_owned(), &[7, 8], &[9]));
}

#[test]
fn entry_codec_exact_bytes() {
    assert_eq!(encode_put(b"ab", b"xyz"), vec![3, 3, b'a', b'b', b'x', b'y', b'z']);
    assert_eq!(encode_put(b"", b""), vec![1, 0]);
    assert_eq!(encode_delete(b"ab"), vec![0, 2, b'a', b'b']);
    assert_eq!(encode_delete(b""), vec![0, 0]);
    let key = vec![7u8; 200];
    let encoded = encode_put(&key, b"v");
    assert_eq!(&encoded[..3], &[0xc9, 0x01, 0x01]);
    assert_eq!(encoded.len(), 3 + 200 + 1);
}

#[test]
fn entry_codec_roundtrip() {
    let bytes = encode_put(b"key", b"value");
    let (entry, n) = read_entry(&bytes).unwrap();
    assert_eq!(n, bytes.len());
    assert!(is_put(&owned(entry), b"key", b"value"));
    assert_eq!(entry_len(&bytes), Ok(bytes.len()));

    let mut bytes = encode_delete(b"gone");
    let len = bytes.len();
    bytes.extend_from_slice(&[1, 2, 3]);
    let (entry, n) = read_entry(&bytes).unwrap();
    assert_eq!(n, len);
    assert!(is_delete(&owned(entry), b"gone"));
    assert_eq!(entry_len(&bytes), Ok(len));
}

#[test]
fn entry_codec_failures() {
    assert!(matches!(read_entry(&[]), Err(Error::VlqUnderrun)));
    assert!(matches!(read_entry(&[3]), Err(Error::VlqUnderrun)));
    assert!(matches!(read_entry(&[3, 0x80]), Err(Error::VlqUnderrun)));
    assert!(matches!(read_entry(&[0x80; 12]), Err(Error::VlqOverflow)));
    assert!(matches!(read_entry(&[3, 3, b'a', b'b', b'x', b'y']), Err(Error::UnexpectedEof)));
    assert!(matches!(read_entry(&[0, 2, b'a']), Err(Error::UnexpectedEof)));
    assert_eq!(entry_len(&[0, 2, b'a']), Err(Error::UnexpectedEof));
    let mut huge = vec![0xffu8; 9];
    huge.push(0x01);
    huge.push(0x01);
    assert!(matches!(read_entry(&huge), Err(Error::UnexpectedEof)));
}

#[test]
fn snappy_block_is_decoded() {
    let block = [7u8, 5, 0x10, b'h', b'e', b'l', b'l', b'o', 0xaa];
    assert_eq!(read_block(&block), Ok((b"hello".to_vec(), 8)));
    assert_eq!(
        CompressionType::Snappy.read_block(&block),
        Ok((b"hello".to_vec(), 8))
    );
    assert_eq!(
        CompressionType::Uncompressed.read_block(&block),
        Ok((block.to_vec(), 9))
    );
}

#[test]
fn snappy_block_failures() {
    assert_eq!(read_block(&[]), Err(Error::VlqUnderrun));
    assert_eq!(read_block(&[9, 5, 0x10, b'h']), Err(Error::LogTooSmall));
    assert_eq!(read_block(&[3, 5, 0x10, b'h']), Err(Error::BlockCorrupt));
    assert_eq!(read_block(&[0]), Err(Error::BlockCorrupt));
}

#[test]
fn writer_create_checks_the_block_size() {
    assert!(matches!(
        Writer::create(CompressionType::Snappy, 9, 1),
        Err(Error::InvalidCompressionBlockSize)
    ));
    assert!(matches!(
        Writer::create(CompressionType::Snappy, u32::MAX, 1),
        Err(Error::InvalidCompressionBlockSize)
    ));
    assert!(Writer::create(CompressionType::Snappy, 10, 1).is_ok());
    assert!(Writer::create(CompressionType::Uncompressed, 0, 1).is_ok());
    let w = Writer::create(CompressionType::Uncompressed, 77, 5).unwrap();
    assert_eq!(w.header.compression_block_size, 0);
    assert_eq!(w.header.file_identifier, 5);
    assert_eq!(w.bytes().len(), 84);
}

#[test]
fn uncompressed_log_image_is_exact() {
    let mut w = Writer::create(CompressionType::Uncompressed, 0, 0x0102_0304).unwrap();
    w.put(&[1], &[2, 3, 4, 5]).unwrap();
    w.delete(&[6, 7]).unwrap();
    w.flush().unwrap();
    let image = w.bytes().clone();
    assert_eq!(&image[84..], &[2, 4, 1, 2, 3, 4, 5, 0, 2, 6, 7]);
    let header = Header::load(&image).unwrap();
    assert_eq!(header.file_identifier, 0x0102_0304);
    assert_eq!(header.num_puts, 1);
    assert_eq!(header.num_deletes, 1);
    assert_eq!(header.data_end, 95);
    assert_eq!(header.max_key_len, 2);
    assert_eq!(header.max_value_len, 4);
    assert_eq!(header.put_size, 7);
    assert_eq!(header.delete_size, 4);
    assert_eq!(header.max_entries_per_block, 0);
    assert_eq!(header.compression_type, CompressionType::Uncompressed);
}

#[test]
fn snappy_log_image_is_exact() {
    let mut w = Writer::create(CompressionType::Snappy, 1024, 9).unwrap();
    w.put(b"a", b"b").unwrap();
    assert_eq!(w.bytes().len(), 84);
    w.flush().unwrap();
    let image = w.close().unwrap();
    assert_eq!(&image[84..], &[6, 4, 0x0c, 2, 1, b'a', b'b']);
    let header = Header::load(&image).unwrap();
    assert_eq!(header.data_end, 91);
    assert_eq!(header.max_entries_per_block, 1);
    assert_eq!(header.compression_block_size, 1024);
    assert_eq!(header.compression_type, CompressionType::Snappy);
}

#[test]
fn snappy_blocks_split_at_the_block_size() {
    let mut w = Writer::create(CompressionType::Snappy, 10, 9).unwrap();
    w.put(b"aa", b"bb").unwrap();
    w.put(b"cc", b"dd").unwrap();
    w.put(b"e", b"f").unwrap();
    assert_eq!(w.header.max_entries_per_block, 1);
    assert!(matches!(
        w.put(b"0123456789", b""),
        Err(Error::InvalidCompressionBlockSize)
    ));
    assert!(matches!(
        w.delete(b"0123456789"),
        Err(Error::InvalidCompressionBlockSize)
    ));
    let image = w.close().unwrap();
    let reader = Reader::open(image).unwrap();
    assert_eq!(reader.num_puts(), 3);
    assert_eq!(reader.num_entries(), 3);
    let all = reader.entries().read_all().unwrap();
    assert_eq!(all.len(), 3);
    assert!(is_put(&all[0], b"aa", b"bb"));
    assert!(is_put(&all[1], b"cc", b"dd"));
    assert!(is_put(&all[2], b"e", b"f"));
    assert_eq!(reader.header.max_entries_per_block, 2);
}

fn written(compression: CompressionType, block_size: u32) -> Vec<u8> {
    let mut w = Writer::create(compression, block_size, 42).unwrap();
    w.put(b"one", b"1").unwrap();
    w.put(b"two", b"22").unwrap();
    w.delete(b"one").unwrap();
    w.put(b"", b"").unwrap();
    w.put(b"three", &[0u8; 300]).unwrap();
    w.delete(b"missing").unwrap();
    w.close().unwrap()
}

fn check_sequence(all: &[Entry<Vec<u8>>]) {
    assert_eq!(all.len(), 6);
    assert!(is_put(&all[0], b"one", b"1"));
    assert!(is_put(&all[1], b"two", b"22"));
    assert!(is_delete(&all[2], b"one"));
    assert!(is_put(&all[3], b"", b""));
    assert!(is_put(&all[4], b"three", &[0u8; 300]));
    assert!(is_delete(&all[5], b"missing"));
}

#[test]
fn log_roundtrip_uncompressed() {
    let reader = Reader::open(written(CompressionType::Uncompressed, 0)).unwrap();
    check_sequence(&reader.entries().read_all().unwrap());
    assert_eq!(reader.num_puts(), 4);
    assert_eq!(reader.num_deletes(), 2);
    assert_eq!(reader.num_entries(), 6);
    assert_eq!(reader.max_key_len(), 7);
    assert_eq!(reader.max_value_len(), 300);
    assert_eq!(reader.compression_type(), CompressionType::Uncompressed);
    assert_eq!(reader.compression_block_size(), 0);
}

#[test]
fn log_roundtrip_snappy() {
    for block_size in [310u32, 320, 1024, 65536] {
        let reader = Reader::open(written(CompressionType::Snappy, block_size)).unwrap();
        check_sequence(&reader.entries().read_all().unwrap());
        assert_eq!(reader.compression_type(), CompressionType::Snappy);
        assert_eq!(reader.compression_block_size(), block_size);
    }
}

#[test]
fn cursors_step_and_skip() {
    for image in [written(CompressionType::Uncompressed, 0), written(CompressionType::Snappy, 320)] {
        let reader = Reader::open(image).unwrap();
        let mut entries = reader.entries();
        entries.skip_next().unwrap();
        let second = entries.try_next().unwrap().unwrap();
        assert!(is_put(&second, b"two", b"22"));
        let third = entries.next().unwrap().unwrap();
        assert!(is_delete(&third, b"one"));
        entries.skip_next().unwrap();
        entries.skip_next().unwrap();
        entries.skip_next().unwrap();
        assert!(entries.try_next().unwrap().is_none());
        assert!(entries.next().is_none());
        assert!(entries.skip_next().is_err());

        let mut owned_entries = reader.owned_entries();
        let first = owned_entries.try_next().unwrap().unwrap();
        assert!(is_put(&first, b"one", b"1"));
        let second = owned_entries.next().unwrap().unwrap();
        assert!(is_put(&second, b"two", b"22"));
    }
}

#[test]
fn uncompressed_cursor_at_a_position() {
    let reader = Reader::open(written(CompressionType::Uncompressed, 0)).unwrap();
    let mut cursor = EntryReader::new(&reader);
    assert_eq!(cursor.next_position, 84);
    let first = cursor.next().unwrap().unwrap().into_owned();
    assert!(is_put(&first, b"one", b"1"));
    let position = cursor.next_position;
    assert_eq!(position, 84 + 6);
    let mut again = EntryReader::new_at(&reader, position);
    let second = again.next().unwrap().unwrap().into_owned();
    assert!(is_put(&second, b"two", b"22"));
    let mut located = reader.entries_at(position);
    let (entry, found) = located.try_next_located().unwrap().unwrap();
    assert!(is_put(&entry, b"two", b"22"));
    assert_eq!(found, position);
    let mut owned_at = reader.owned_entries_at(position);
    assert!(is_put(&owned_at.try_next().unwrap().unwrap(), b"two", b"22"));
    let mut past = EntryReader::new_at(&reader, 1_000_000);
    assert!(past.next().unwrap().is_none());
    assert_eq!(past.skip_next(), Err(Error::VlqUnderrun));
}

#[test]
fn snappy_chunks_read_and_skip() {
    let mut w = Writer::create(CompressionType::Snappy, 10, 9).unwrap();
    w.put(b"aa", b"bb").unwrap();
    w.put(b"cc", b"dd").unwrap();
    let reader = Reader::open(w.close().unwrap()).unwrap();
    let mut cursor = sparkey::log::snappy::EntryReader::new(&reader);
    assert_eq!(cursor.read.read(3), Ok(vec![3, 2, b'a']));
    assert_eq!(cursor.read.read(100), Ok(vec![b'a', b'b', b'b']));
    assert_eq!(cursor.read.read(2), Ok(vec![3, 2]));
    cursor.read.skip(4).unwrap();
    assert_eq!(cursor.read.read(2), Ok(vec![]));
    let mut cursor = sparkey::log::snappy::EntryReader::new(&reader);
    cursor.read.skip(8).unwrap();
    assert_eq!(cursor.read.read(10), Ok(vec![b'c', b'c', b'd', b'd']));
    let mut cursor = sparkey::log::snappy::EntryReader::new(&reader);
    assert_eq!(cursor.read.skip(13), Err(Error::LogTooSmall));
    let mut blocks = sparkey::log::snappy::Blocks::new(&reader);
    let first = blocks.try_next().unwrap().unwrap();
    assert_eq!(first.position, 84);
    assert_eq!(first.data, vec![3, 2, b'a', b'a', b'b', b'b']);
    let second = blocks.next().unwrap().unwrap();
    assert_eq!(second.data, vec![3, 2, b'c', b'c', b'd', b'd']);
    assert!(blocks.try_next().unwrap().is_none());
    let mut at = sparkey::log::snappy::Blocks::new_at(&reader, second.position);
    assert_eq!(at.try_next().unwrap().unwrap().data, second.data);
}

#[test]
fn a_block_that_ends_inside_an_entry_fails() {
    let mut image = Writer::create(CompressionType::Snappy, 64, 9).unwrap().close().unwrap();
    image.extend_from_slice(&[5, 3, 0x08, 3, 2, b'a']);
    image[32] = 90;
    let reader = Reader::open(image).unwrap();
    let mut entries = reader.entries();
    assert!(matches!(entries.try_next(), Err(Error::UnexpectedEof)));
}

#[test]
fn reader_open_failures() {
    let image = written(CompressionType::Uncompressed, 0);
    assert!(matches!(Reader::open(image[..image.len() - 1].to_vec()), Err(Error::LogTooSmall)));
    assert!(matches!(Reader::open(image[..50].to_vec()), Err(Error::UnexpectedEof)));
    let mut longer = image.clone();
    longer.extend_from_slice(&[1, 2, 3]);
    let reader = Reader::open(longer).unwrap();
    assert_eq!(reader.map.len(), image.len());
}

#[test]
fn append_continues_a_log() {
    for (compression, block_size) in [(CompressionType::Uncompressed, 0u32), (CompressionType::Snappy, 320)] {
        let image = written(compression, block_size);
        let mut w = Writer::append(image).unwrap();
        w.put(b"later", b"x").unwrap();
        let reader = Reader::open(w.close().unwrap()).unwrap();
        let all = reader.entries().read_all().unwrap();
        assert_eq!(all.len(), 7);
        check_sequence(&all[..6]);
        assert!(is_put(&all[6], b"later", b"x"));
        assert_eq!(reader.num_puts(), 5);
        assert_eq!(reader.header.file_identifier, 42);
    }
    assert!(matches!(Writer::append(vec![1, 2, 3]), Err(Error::UnexpectedEof)));
}

#[test]
fn flushed_header_meets_its_invariants() {
    for (compression, block_size) in [(CompressionType::Uncompressed, 0u32), (CompressionType::Snappy, 10), (CompressionType::Snappy, 4096)] {
        let mut w = Writer::create(compression, block_size, 1).unwrap();
        w.flush().unwrap();
        assert!(Header::load(w.bytes()).is_ok());
        w.put(b"k", b"v").unwrap();
        w.flush().unwrap();
        w.delete(b"k").unwrap();
        w.flush().unwrap();
        let header = Header::load(w.bytes()).unwrap();
        assert!(header.data_end >= 84);
        assert_eq!(header.data_end as usize, w.bytes().len());
        assert!(header.num_puts <= header.data_end);
        assert!(header.num_deletes <= header.data_end);
        assert_eq!(header.num_puts, 1);
        assert_eq!(header.num_deletes, 1);
    }
}

#[test]
fn write_all_reads_back() {
    let entries = vec![
        Entry::Put(b"one".to_vec(), b"1".to_vec()),
        Entry::Delete(b"one".to_vec()),
        Entry::Put(b"two".to_vec(), vec![9u8; 40]),
        Entry::Put(Vec::new(), Vec::new()),
    ];
    for (compression, block_size) in [(CompressionType::Uncompressed, 0u32), (CompressionType::Snappy, 48), (CompressionType::Snappy, 4096)] {
        let image = Writer::write_all(compression, block_size, 3, &entries).unwrap();
        let reader = Reader::open(image).unwrap();
        let all = reader.entries().read_all().unwrap();
        assert_eq!(all.len(), 4);
        assert!(is_put(&all[0], b"one", b"1"));
        assert!(is_delete(&all[1], b"one"));
        assert!(is_put(&all[2], b"two", &[9u8; 40]));
        assert!(is_put(&all[3], b"", b""));
        assert_eq!(reader.header.file_identifier, 3);
    }
    assert!(matches!(
        Writer::write_all(CompressionType::Snappy, 40, 3, &entries),
        Err(Error::InvalidCompressionBlockSize)
    ));
    assert!(matches!(
        Writer::write_all(CompressionType::Snappy, 5, 3, &Vec::new()),
        Err(Error::InvalidCompressionBlockSize)
    ));
    let empty = Writer::write_all(CompressionType::Snappy, 64, 3, &Vec::new()).unwrap();
    assert_eq!(empty.len(), 84);
}

#[test]
fn a_flush_fails_where_the_header_would_not_load() {
    let entries: Vec<Entry<Vec<u8>>> = (0..2000).map(|_| Entry::Put(Vec::new(), Vec::new())).collect();
    assert!(matches!(
        Writer::write_all(CompressionType::Snappy, 4096, 3, &entries),
        Err(Error::LogHeaderCorrupt)
    ));
    let image = Writer::write_all(CompressionType::Uncompressed, 0, 3, &entries).unwrap();
    let reader = Reader::open(image).unwrap();
    assert_eq!(reader.entries().read_all().unwrap().len(), 2000);

    let mut w = Writer::create(CompressionType::Snappy, 4096, 3).unwrap();
    for _ in 0..2000 {
        w.put(b"", b"").unwrap();
    }
    assert_eq!(w.flush(), Err(Error::LogHeaderCorrupt));
    assert!(w.bytes().len() > 84);
    assert!((w.bytes().len() as u64) < 2000);
    assert_eq!(w.header.data_end as usize, w.bytes().len());
    let stale = Header::load(w.bytes()).unwrap();
    assert_eq!(stale.num_puts, 0);
    assert_eq!(stale.data_end, 84);
    assert_eq!(w.flush(), Err(Error::LogHeaderCorrupt));

    let mut state = 0x2545_f491_4f6c_dd1du64;
    let filler: Vec<u8> = (0..3500)
        .map(|_| {
            state = state.wrapping_mul(6364136223846793005).wrapping_add(1442695040888963407);
            (state >> 56) as u8
        })
        .collect();
    w.put(b"k", &filler).unwrap();
    assert_eq!(w.flush(), Ok(()));
    let image = w.close().unwrap();
    let header = Header::load(&image).unwrap();
    assert_eq!(header.num_puts, 2001);
    assert!(header.num_puts <= header.data_end);
    let reader = Reader::open(image).unwrap();
    let all = reader.entries().read_all().unwrap();
    assert_eq!(all.len(), 2001);
    assert!(is_put(&all[2000], b"k", &filler));

    let mut w = Writer::create(CompressionType::Snappy, 4096, 3).unwrap();
    for _ in 0..2000 {
        w.delete(b"").unwrap();
    }
    assert!(matches!(w.close(), Err(Error::LogHeaderCorrupt)));
}
