use sparkey::error::Error;
use sparkey::hash::builder::{bit_length, encode_position, insert};
use sparkey::hash::reader::live_puts;
use sparkey::hash::table::{decode_position, displacement};
use sparkey::hash::{Header, Reader, Type, Writer};
use sparkey::log::{CompressionType, Entry};

fn log_with(compression: CompressionType, block_size: u32, id: u32, ops: &[(&[u8], Option<&[u8]>)]) -> Vec<u8> {
    let mut w = sparkey::log::Writer::create(compression, block_size, id).unwrap();
    for (key, value) in ops {
        match value {
            Some(v) => w.put(key, v).unwrap(),
            None => w.delete(key).unwrap(),
        }
    }
    w.close().unwrap()
}

fn index_of(log_image: &[u8], hash_type: Option<Type>, seed: u32) -> Vec<u8> {
    let log = sparkey::log::Reader::open(log_image.to_vec()).unwrap();
    Writer::write(&log, hash_type, seed).unwrap()
}

fn open(log_image: &[u8], hash_type: Option<Type>, seed: u32) -> Reader {
    Reader::open(index_of(log_image, hash_type, seed), log_image.to_vec()).unwrap()
}

#[test]
fn roundtrip() {
    let log = {
        let mut writer = sparkey::log::Writer::create(CompressionType::Uncompressed, 0, 10).unwrap();
        writer.put(&[1], &[2, 3, 4, 5]).unwrap();
        writer.put(&[6], &[7, 8, 9, 10]).unwrap();
        writer.close().unwrap()
    };
    let hash = {
        let reader = sparkey::log::Reader::open(log.clone()).unwrap();
        Writer::write(&reader, None, 10).unwrap()
    };

    let reader = Reader::open(hash, log).unwrap();

    assert_eq!(Some(vec![2, 3, 4, 5]), reader.get(&[1]).unwrap());
    assert_eq!(Some(vec![7, 8, 9, 10]), reader.get(&[6]).unwrap());
    assert_eq!(None, reader.get(&[0]).unwrap());
}

#[test]
fn roundtrip_compressed() {
    let log = {
        let mut writer = sparkey::log::Writer::create(CompressionType::Snappy, 1024, 10).unwrap();
        writer.put(&[1], &[2, 3, 4, 5]).unwrap();
        writer.put(&[6], &[7, 8, 9, 10]).unwrap();
        writer.close().unwrap()
    };
    let hash = {
        let reader = sparkey::log::Reader::open(log.clone()).unwrap();
        Writer::write(&reader, None, 10).unwrap()
    };

    let reader = Reader::open(hash, log).unwrap();

    assert_eq!(Some(vec![2, 3, 4, 5]), reader.get(&[1]).unwrap());
    assert_eq!(Some(vec![7, 8, 9, 10]), reader.get(&[6]).unwrap());
    assert_eq!(None, reader.get(&[0]).unwrap());
}

#[test]
fn delete_then_put() {
    for (compression, block_size) in [(CompressionType::Uncompressed, 0u32), (CompressionType::Snappy, 64)] {
        let log = log_with(compression, block_size, 1, &[(b"a", Some(b"1")), (b"a", None), (b"a", Some(b"2"))]);
        let reader = open(&log, None, 3);
        assert_eq!(reader.get(b"a").unwrap(), Some(b"2".to_vec()));
        assert_eq!(reader.num_entries(), 1);
    }
}

#[test]
fn put_then_delete() {
    for (compression, block_size) in [(CompressionType::Uncompressed, 0u32), (CompressionType::Snappy, 64)] {
        let log = log_with(compression, block_size, 1, &[(b"a", Some(b"1")), (b"a", None)]);
        let reader = open(&log, None, 3);
        assert_eq!(reader.get(b"a").unwrap(), None);
        assert_eq!(reader.num_entries(), 0);
        assert_eq!(reader.log_reader().num_puts(), 1);
        assert_eq!(reader.log_reader().num_deletes(), 1);
        assert_eq!(reader.header.hash_capacity, 1);
    }
}

#[test]
fn mismatched_identifier() {
    let log_a = log_with(CompressionType::Uncompressed, 0, 1, &[(b"a", Some(b"1"))]);
    let log_b = log_with(CompressionType::Uncompressed, 0, 2, &[(b"a", Some(b"1"))]);
    let index_a = index_of(&log_a, None, 3);
    assert!(matches!(
        Reader::open(index_a.clone(), log_b),
        Err(Error::FileIdentifierMismatch)
    ));
    assert!(Reader::open(index_a, log_a).is_ok());
}

#[test]
fn index_is_the_same_on_every_run() {
    let ops: Vec<(Vec<u8>, Vec<u8>)> = (0u32..200)
        .map(|i| (format!("key{}", i % 150).into_bytes(), format!("value{}", i).into_bytes()))
        .collect();
    for (compression, block_size) in [(CompressionType::Uncompressed, 0u32), (CompressionType::Snappy, 256)] {
        let mut w = sparkey::log::Writer::create(compression, block_size, 77).unwrap();
        for (k, v) in &ops {
            w.put(k, v).unwrap();
        }
        let log = w.close().unwrap();
        for hash_type in [None, Some(Type::Murmur3_32), Some(Type::Murmur3_64)] {
            let first = index_of(&log, hash_type, 12345);
            let second = index_of(&log, hash_type, 12345);
            assert_eq!(first, second);
        }
        assert_ne!(index_of(&log, None, 1), index_of(&log, None, 2));
    }
}

#[test]
fn every_live_key_is_found() {
    let count = 500u32;
    for (compression, block_size) in [(CompressionType::Uncompressed, 0u32), (CompressionType::Snappy, 128), (CompressionType::Snappy, 4096)] {
        let mut w = sparkey::log::Writer::create(compression, block_size, 5).unwrap();
        for i in 0..count {
            w.put(format!("key{}", i).as_bytes(), format!("old{}", i).as_bytes()).unwrap();
        }
        for i in 0..count {
            if i % 3 == 0 {
                w.delete(format!("key{}", i).as_bytes()).unwrap();
            } else if i % 3 == 1 {
                w.put(format!("key{}", i).as_bytes(), format!("new{}", i).as_bytes()).unwrap();
            }
        }
        let log = w.close().unwrap();
        for hash_type in [Type::Murmur3_32, Type::Murmur3_64] {
            let reader = open(&log, Some(hash_type), 99);
            let mut live = 0u64;
            for i in 0..count {
                let got = reader.get(format!("key{}", i).as_bytes()).unwrap();
                let expected = match i % 3 {
                    0 => None,
                    1 => Some(format!("new{}", i).into_bytes()),
                    _ => Some(format!("old{}", i).into_bytes()),
                };
                if expected.is_some() {
                    live += 1;
                }
                assert_eq!(got, expected);
            }
            assert_eq!(reader.get(b"never").unwrap(), None);
            assert_eq!(reader.get(b"").unwrap(), None);
            assert_eq!(reader.num_entries(), live);
            assert_eq!(reader.header.hash_size, hash_type.as_raw());
            assert_eq!(reader.header.address_size, 4);
            assert_eq!(reader.header.hash_capacity, (live * 13 + 9) / 10);
            assert_eq!(reader.header.garbage_size, 0);
            assert_eq!(reader.header.file_identifier, 5);
            assert_eq!(reader.header.hash_seed, 99);
            assert_eq!(
                reader.header.data_end,
                112 + reader.header.hash_capacity * (4 + hash_type.as_raw() as u64)
            );
            assert_eq!(reader.map.len() as u64, reader.header.data_end);
        }
    }
}

#[test]
fn max_displacement_bounds_every_occupant() {
    let mut w = sparkey::log::Writer::create(CompressionType::Uncompressed, 0, 5).unwrap();
    for i in 0..300u32 {
        w.put(format!("k{}", i).as_bytes(), b"v").unwrap();
    }
    let log = w.close().unwrap();
    let image = index_of(&log, Some(Type::Murmur3_64), 7);
    let header = Header::load(&image).unwrap();
    let capacity = header.hash_capacity;
    let mut largest = 0u64;
    let mut total = 0u64;
    let mut occupied = 0u64;
    for slot in 0..capacity {
        let (hash, position) = sparkey::hash::table::slot_at(&image, &header, slot);
        if position != 0 {
            let d = displacement(capacity, slot, hash);
            largest = largest.max(d);
            total += d;
            occupied += 1;
        }
    }
    assert_eq!(occupied, 300);
    assert_eq!(header.max_displacement, largest);
    assert_eq!(header.total_displacement, total);

    let mut cut = header;
    cut.max_displacement = 0;
    let mut patched = cut.to_bytes();
    patched.extend_from_slice(&image[112..]);
    let reader = Reader::open(patched, log.clone()).unwrap();
    let full = Reader::open(image, log).unwrap();
    let mut missed = 0;
    for i in 0..300u32 {
        let key = format!("k{}", i);
        let found = reader.get(key.as_bytes()).unwrap();
        assert!(full.get(key.as_bytes()).unwrap().is_some());
        if found.is_none() {
            missed += 1;
        }
    }
    assert!(largest == 0 || missed > 0);
}

#[test]
fn index_header_roundtrip_and_failures() {
    let log = log_with(CompressionType::Uncompressed, 0, 1, &[(b"a", Some(b"1"))]);
    let image = index_of(&log, Some(Type::Murmur3_32), 3);
    let header = Header::load(&image).unwrap();
    assert_eq!(header.to_bytes(), image[..112].to_vec());
    assert_eq!(&image[0..4], &[0x8f, 0x31, 0x11, 0x9a]);
    assert_eq!(header.major_version, 1);
    assert_eq!(header.minor_version, 1);
    assert_eq!(header.hash_capacity, 2);
    assert_eq!(header.entry_block_bits, 0);
    assert_eq!(image.len(), 112 + 2 * 8);

    assert_eq!(Header::load(&image[..3]), Err(Error::UnexpectedEof));
    assert_eq!(Header::load(&image[..111]), Err(Error::UnexpectedEof));
    let mut bad = image.clone();
    bad[0] = 0;
    assert_eq!(Header::load(&bad), Err(Error::WrongHashMagicNumber));
    let mut bad = image.clone();
    bad[4] = 2;
    assert_eq!(Header::load(&bad), Err(Error::WrongHashMajorVersion));
    let mut bad = image.clone();
    bad[8] = 2;
    assert_eq!(Header::load(&bad), Err(Error::UnsupportedHashMinorVersion));
    let mut bad = image.clone();
    bad[72] = 5;
    assert_eq!(Header::load(&bad), Err(Error::HashSizeInvalid));
    let mut bad = image.clone();
    bad[68] = 5;
    assert_eq!(Header::load(&bad), Err(Error::AddressSizeInvalid));
    let mut bad = image.clone();
    bad[76] = 3;
    assert_eq!(Header::load(&bad), Err(Error::HashHeaderCorrupt));
    let mut bad = image.clone();
    bad[92] = 64;
    assert_eq!(Header::load(&bad), Err(Error::HashHeaderCorrupt));

    assert!(matches!(
        Reader::open(image[..image.len() - 1].to_vec(), log.clone()),
        Err(Error::HashTooSmall)
    ));
    assert!(matches!(
        Reader::open(image.clone(), log[..log.len() - 1].to_vec()),
        Err(Error::LogTooSmall)
    ));
}

#[test]
fn live_entries_in_insertion_order() {
    for (compression, block_size) in [(CompressionType::Uncompressed, 0u32), (CompressionType::Snappy, 32)] {
        let log = log_with(
            compression,
            block_size,
            1,
            &[
                (b"a", Some(b"1")),
                (b"b", Some(b"2")),
                (b"a", Some(b"3")),
                (b"c", Some(b"4")),
                (b"b", None),
                (b"d", Some(b"5")),
                (b"d", None),
                (b"d", Some(b"6")),
            ],
        );
        let reader = open(&log, None, 3);
        let entries = reader.entries().unwrap();
        assert_eq!(entries.len(), 3);
        assert_eq!(reader.keys().unwrap(), vec![b"a".to_vec(), b"c".to_vec(), b"d".to_vec()]);
        assert_eq!(reader.values().unwrap(), vec![b"3".to_vec(), b"4".to_vec(), b"6".to_vec()]);
        assert_eq!(reader.num_entries(), 3);
        for entry in &entries {
            let value = reader.get(entry.key()).unwrap();
            assert_eq!(value.as_ref(), entry.value());
        }
    }
}

#[test]
fn live_puts_of_a_sequence() {
    let all = vec![
        Entry::Put(b"x".to_vec(), b"1".to_vec()),
        Entry::Delete(b"y".to_vec()),
        Entry::Put(b"x".to_vec(), b"2".to_vec()),
        Entry::Put(b"y".to_vec(), b"3".to_vec()),
    ];
    let live = live_puts(&all);
    assert_eq!(live.len(), 2);
    assert_eq!(live[0].key(), &b"x".to_vec());
    assert_eq!(live[0].value(), Some(&b"2".to_vec()));
    assert_eq!(live[1].key(), &b"y".to_vec());
    assert!(live_puts(&Vec::new()).is_empty());
}

#[test]
fn positions_are_packed_by_bits() {
    assert_eq!(bit_length(0), 0);
    assert_eq!(bit_length(1), 1);
    assert_eq!(bit_length(2), 2);
    assert_eq!(bit_length(3), 2);
    assert_eq!(bit_length(4), 3);
    assert_eq!(bit_length(255), 8);
    assert_eq!(bit_length(256), 9);
    assert_eq!(bit_length(u32::MAX), 32);
    assert_eq!(encode_position(84, 0, 0, 4), Ok(84));
    assert_eq!(encode_position(84, 5, 3, 4), Ok(84 * 8 + 5));
    assert_eq!(decode_position(84 * 8 + 5, 3), (84, 5));
    assert_eq!(decode_position(84, 0), (84, 0));
    assert_eq!(encode_position(84, 8, 3, 4), Err(Error::LogHeaderCorrupt));
    assert_eq!(encode_position(84, 1, 0, 4), Err(Error::LogHeaderCorrupt));
    assert_eq!(encode_position(1 << 31, 0, 1, 4), Err(Error::AddressSizeInvalid));
    assert_eq!(encode_position(1 << 31, 0, 1, 8), Ok(1 << 32));
    assert_eq!(encode_position(1 << 63, 0, 1, 8), Err(Error::AddressSizeInvalid));
}

#[test]
fn robin_hood_insertion_swaps_the_rich() {
    let mut table = vec![(0u64, 0u64); 4];
    assert_eq!(insert(&mut table, 0, 0, 100), Some(0));
    assert_eq!(insert(&mut table, 0, 1, 101), Some(0));
    assert_eq!(table, vec![(0, 100), (1, 101), (0, 0), (0, 0)]);
    assert_eq!(insert(&mut table, 0, 4, 102), Some(0));
    assert_eq!(table, vec![(0, 100), (4, 102), (1, 101), (0, 0)]);
    assert_eq!(insert(&mut table, 0, 0, 103), Some(1));
    assert_eq!(table, vec![(0, 100), (4, 102), (0, 103), (1, 101)]);
    assert_eq!(insert(&mut table, 5, 9, 104), None);
    assert_eq!(displacement(4, 0, 3), 1);
    assert_eq!(displacement(4, 3, 0), 3);
    assert_eq!(displacement(4, 2, 2), 0);
}

#[test]
fn default_hash_is_the_narrow_one_for_small_logs() {
    let log = log_with(CompressionType::Uncompressed, 0, 1, &[(b"a", Some(b"1"))]);
    let header = Header::load(&index_of(&log, None, 3)).unwrap();
    assert_eq!(header.hash_size, 4);
    let header = Header::load(&index_of(&log, Some(Type::Murmur3_64), 3)).unwrap();
    assert_eq!(header.hash_size, 8);
}
