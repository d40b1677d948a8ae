//! What the dictionary of a scan knows about the log: for every key, whether
//! its latest entry is a put, and where that put stands.

use crate::error::Error;
use crate::hash::builder::{
    lemma_scan_unfold, spec_encode_position, spec_scan, DictModel,
};
use crate::hash::lookup::{spec_latest, spec_points_at};
use crate::hash::table::{spec_decode_position, spec_entry_at, spec_skip_entries};
use crate::log::parse::{
    lemma_snappy_remaining, spec_blocks_within, spec_parse_entries,
};
use crate::log::snappy::ChunksModel;
use crate::log::{CompressionType, EntriesModel, Entry};
use vstd::prelude::*;

verus! {

/// Whether an encoded position can be stored in `address_size` bytes.
pub open spec fn position_fits(position: u64, address_size: u32) -> bool {
    address_size == 4 ==> position <= 0xffff_ffff
}

/// Whether row `r` of `dict` says of its key what the entries `seen` say: a
/// live row stands at a position that is not zero, can be stored, and names
/// the put that is the latest entry of the key; a dead row has a key whose
/// latest entry is a delete.
pub open spec fn row_sound(
    dict: DictModel,
    map: Seq<u8>,
    compression_type: CompressionType,
    bits: u32,
    address_size: u32,
    seen: Seq<Entry<Seq<u8>>>,
    r: int,
) -> bool {
    if dict.live[r] {
        &&& dict.positions[r] != 0
        &&& position_fits(dict.positions[r], address_size)
        &&& match spec_points_at(map, compression_type, bits, dict.positions[r]) {
            Ok(Some(Entry::Put(key, value))) => key == dict.keys[r] && spec_latest(
                seen,
                dict.keys[r],
            ) == Some(value),
            _ => false,
        }
    } else {
        spec_latest(seen, dict.keys[r]) is None
    }
}

/// Whether `dict` holds a row for `key`.
pub open spec fn known(dict: DictModel, key: Seq<u8>) -> bool {
    exists|r: int| 0 <= r < dict.keys.len() && #[trigger] dict.keys[r] == key
}

/// Whether `dict` says of every key what the entries `seen` say: no key has
/// two rows, every row is sound, and every key whose latest entry is a put
/// has a row.
pub open spec fn dict_sound(
    dict: DictModel,
    map: Seq<u8>,
    compression_type: CompressionType,
    bits: u32,
    address_size: u32,
    seen: Seq<Entry<Seq<u8>>>,
) -> bool {
    &&& dict.wf()
    &&& forall|i: int, j: int|
        0 <= i < j < dict.keys.len() ==> #[trigger] dict.keys[i] != #[trigger] dict.keys[j]
    &&& forall|r: int|
        0 <= r < dict.keys.len() ==> #[trigger] row_sound(
            dict,
            map,
            compression_type,
            bits,
            address_size,
            seen,
            r,
        )
    &&& forall|key: Seq<u8>| (#[trigger] spec_latest(seen, key)) is Some ==> known(dict, key)
}

/// What `spec_find` gives: the row of the key, or the number of rows where
/// no row has it.
pub proof fn lemma_find(dict: DictModel, key: Seq<u8>, from: int)
    requires
        0 <= from <= dict.keys.len(),
    ensures
        from <= dict.spec_find(key, from) <= dict.keys.len(),
        dict.spec_find(key, from) < dict.keys.len() ==> dict.keys[dict.spec_find(key, from)]
            == key,
        forall|r: int| from <= r < dict.spec_find(key, from) ==> #[trigger] dict.keys[r] != key,
    decreases dict.keys.len() - from,
{
    if from < dict.keys.len() && dict.keys[from] != key {
        lemma_find(dict, key, from + 1);
    }
}

/// The latest value of a key after one more entry.
pub proof fn lemma_latest_push(seen: Seq<Entry<Seq<u8>>>, entry: Entry<Seq<u8>>, key: Seq<u8>)
    ensures
        spec_latest(seen.push(entry), key) == (if entry.spec_key() == key {
            entry.spec_value()
        } else {
            spec_latest(seen, key)
        }),
{
    assert(seen.push(entry).last() == entry);
    assert(seen.push(entry).drop_last() =~= seen);
}

/// Recording one more entry at the position that names it keeps a sound
/// dictionary sound.
pub proof fn lemma_record(
    dict: DictModel,
    map: Seq<u8>,
    compression_type: CompressionType,
    bits: u32,
    address_size: u32,
    seen: Seq<Entry<Seq<u8>>>,
    entry: Entry<Seq<u8>>,
    position: u64,
)
    requires
        dict_sound(dict, map, compression_type, bits, address_size, seen),
        position != 0,
        position_fits(position, address_size),
        spec_points_at(map, compression_type, bits, position) == Ok::<
            Option<Entry<Seq<u8>>>,
            Error,
        >(Some(entry)),
    ensures
        dict_sound(
            dict.spec_record(entry, position),
            map,
            compression_type,
            bits,
            address_size,
            seen.push(entry),
        ),
{
    let after = dict.spec_record(entry, position);
    let later = seen.push(entry);
    let row = dict.spec_find(entry.spec_key(), 0);
    lemma_find(dict, entry.spec_key(), 0);
    assert forall|r: int| 0 <= r < after.keys.len() implies #[trigger] row_sound(
        after,
        map,
        compression_type,
        bits,
        address_size,
        later,
        r,
    ) by {
        lemma_latest_push(seen, entry, after.keys[r]);
        if r < dict.keys.len() {
            assert(row_sound(dict, map, compression_type, bits, address_size, seen, r));
            assert(after.keys[r] == dict.keys[r]);
            if dict.keys[r] == entry.spec_key() {
                assert(r == row) by {
                    if r < row {
                        assert(dict.keys[r] != entry.spec_key());
                    }
                    if row < r {
                        assert(dict.keys[row] != dict.keys[r]);
                    }
                }
            }
        }
    }
    assert forall|i: int, j: int| 0 <= i < j < after.keys.len() implies #[trigger] after.keys[i]
        != #[trigger] after.keys[j] by {
        if j < dict.keys.len() {
            assert(dict.keys[i] != dict.keys[j]);
        } else {
            assert(dict.keys[i] != entry.spec_key());
        }
    }
    assert forall|key: Seq<u8>| (#[trigger] spec_latest(later, key)) is Some implies known(
        after,
        key,
    ) by {
        lemma_latest_push(seen, entry, key);
        if entry.spec_key() == key {
            if row < dict.keys.len() {
                assert(after.keys[row] == key);
            } else {
                assert(after.keys[dict.keys.len() as int] == key);
            }
        } else {
            assert(known(dict, key));
            let r = choose|r: int| 0 <= r < dict.keys.len() && #[trigger] dict.keys[r] == key;
            assert(after.keys[r] == key);
        }
    }
}


/// The kind of log that a cursor state belongs to.
pub open spec fn kind_of(model: EntriesModel) -> CompressionType {
    match model {
        EntriesModel::Uncompressed { position } => CompressionType::Uncompressed,
        EntriesModel::Snappy { chunks } => CompressionType::Snappy,
    }
}

/// What a scan knows of its cursor, where `location` is the location of the
/// entry it read last and `count` the number of entries it has read there:
/// the cursor stands behind that location, and, in a compressed log, where a
/// fresh cursor at that location stands once it has passed over that many
/// entries.
pub open spec fn cursor_ok(model: EntriesModel, map: Seq<u8>, location: u64, count: u64) -> bool {
    match model {
        EntriesModel::Uncompressed { position } => position >= 1 && (count == 0 || location
            < position),
        EntriesModel::Snappy { chunks } => {
            &&& chunks.next_position >= 1
            &&& if count == 0 {
                !chunks.has_unread()
            } else {
                &&& chunks.block is Some
                &&& chunks.block_position == location
                &&& 1 <= location < chunks.next_position
                &&& location < map.len()
                &&& spec_skip_entries(
                    EntriesModel::at(CompressionType::Snappy, location as int),
                    map,
                    count as nat,
                ) == (model, Ok::<(), Error>(()))
            }
        },
    }
}

/// An encoded position is not zero, can be stored, and decodes to the
/// location and the index that it was made of.
pub proof fn lemma_position_roundtrip(location: u64, index: u64, bits: u32, address_size: u32)
    requires
        bits < 64,
        location >= 1,
        spec_encode_position(location, index, bits, address_size) is Ok,
    ensures
        spec_encode_position(location, index, bits, address_size)->Ok_0 != 0,
        position_fits(
            spec_encode_position(location, index, bits, address_size)->Ok_0,
            address_size,
        ),
        spec_decode_position(
            spec_encode_position(location, index, bits, address_size)->Ok_0,
            bits,
        ) == (location, index),
        index < 0x8000_0000_0000_0000,
{
    let mask = ((1u64 << bits) - 1) as u64;
    let encoded = (location << bits) | index;
    assert(bits < 64 ==> (1u64 << bits) >= 1) by (bit_vector);
    assert(bits < 64 && location >= 1 && location <= (u64::MAX >> bits) && index <= mask && mask
        == ((1u64 << bits) - 1) as u64 ==> ((location << bits) | index) != 0 && ((location << bits)
        | index) >> bits == location && ((location << bits) | index) & mask == index && index
        < 0x8000_0000_0000_0000) by (bit_vector);
}

/// Passing over one entry more than `n`, from the state that passing over
/// `n` entries leads to.
pub proof fn lemma_skip_more(model: EntriesModel, map: Seq<u8>, n: nat)
    requires
        spec_skip_entries(model, map, n).1 is Ok,
    ensures
        spec_skip_entries(model, map, n + 1) == spec_skip_entries(model, map, n).0.spec_skip_next(
            map,
        ),
    decreases n,
{
    if n > 0 {
        let (after, r) = model.spec_skip_next(map);
        lemma_skip_more(after, map, (n - 1) as nat);
    } else {
        let (after, r) = model.spec_skip_next(map);
        assert(spec_skip_entries(after, map, 0) == (after, Ok::<(), Error>(())));
    }
}

/// What a scan learns from the entry that its cursor finds: the encoded
/// position that it records names this entry, and the cursor afterwards is
/// where the scan expects it.
pub proof fn lemma_located(
    model: EntriesModel,
    map: Seq<u8>,
    bits: u32,
    address_size: u32,
    location: u64,
    count: u64,
)
    requires
        bits < 64,
        map.len() <= u64::MAX,
        cursor_ok(model, map, location, count),
        model.spec_next_located(map).1 is Ok,
        model.spec_next_located(map).1->Ok_0 is Some,
        spec_encode_position(
            model.spec_next_located(map).1->Ok_0->Some_0.1 as u64,
            if model.spec_next_located(map).1->Ok_0->Some_0.1 == location {
                count
            } else {
                0
            },
            bits,
            address_size,
        ) is Ok,
    ensures
        ({
            let after = model.spec_next_located(map).0;
            let (entry, found) = model.spec_next_located(map).1->Ok_0->Some_0;
            let index = if found == location {
                count
            } else {
                0
            };
            let position = spec_encode_position(found as u64, index, bits, address_size)->Ok_0;
            &&& 1 <= found < map.len()
            &&& position != 0
            &&& position_fits(position, address_size)
            &&& index < u64::MAX
            &&& spec_points_at(map, kind_of(model), bits, position) == Ok::<
                Option<Entry<Seq<u8>>>,
                Error,
            >(Some(entry))
            &&& kind_of(after) == kind_of(model)
            &&& cursor_ok(after, map, found as u64, (index + 1) as u64)
        }),
{
    reveal(spec_entry_at);
    let after = model.spec_next_located(map).0;
    let (entry, found) = model.spec_next_located(map).1->Ok_0->Some_0;
    let index = if found == location {
        count
    } else {
        0
    };
    match model {
        EntriesModel::Uncompressed { position } => {
            crate::log::lemma_read_entry_len(crate::log::spec_tail(map, position));
            assert(found == position);
            assert(index == 0);
            lemma_position_roundtrip(found as u64, index, bits, address_size);
            let start = EntriesModel::at(CompressionType::Uncompressed, found);
            assert(spec_skip_entries(start, map, 0) == (start, Ok::<(), Error>(())));
            assert(start == model);
            assert(spec_entry_at(map, CompressionType::Uncompressed, found, 0) == Ok::<
                Option<Entry<Seq<u8>>>,
                Error,
            >(Some(entry)));
        },
        EntriesModel::Snappy { chunks } => {
            if chunks.has_unread() {
                crate::log::lemma_read_entry_len(chunks.unread());
                assert(found == location);
                lemma_position_roundtrip(found as u64, index, bits, address_size);
                let start = EntriesModel::at(CompressionType::Snappy, location as int);
                lemma_skip_more(start, map, count as nat);
            } else {
                crate::log::snappy::lemma_next_block_advances(map, chunks.next_position);
                let filled = chunks.spec_fill(map)->Ok_0->Some_0;
                crate::log::lemma_read_entry_len(filled.unread());
                assert(found == chunks.next_position);
                assert(index == 0);
                lemma_position_roundtrip(found as u64, index, bits, address_size);
                let start = EntriesModel::at(CompressionType::Snappy, found);
                assert(spec_skip_entries(start, map, 0) == (start, Ok::<(), Error>(())));
                assert(start.spec_next(map) == model.spec_next(map));
                lemma_skip_more(start, map, 0);
                assert(start.spec_skip_next(map) == (after, Ok::<(), Error>(())));
            }
        },
    }
}

/// A scan that succeeds ends with a dictionary that says of every key what
/// the entries of the log say: those seen before, then those that the
/// cursor still had to find.
pub proof fn lemma_scan(
    model: EntriesModel,
    map: Seq<u8>,
    bits: u32,
    address_size: u32,
    dict: DictModel,
    location: u64,
    count: u64,
    seen: Seq<Entry<Seq<u8>>>,
)
    requires
        bits < 64,
        map.len() <= u64::MAX,
        cursor_ok(model, map, location, count),
        dict_sound(dict, map, kind_of(model), bits, address_size, seen),
        spec_scan(model, map, bits, address_size, dict, location, count) is Ok,
    ensures
        model.spec_remaining(map) is Ok,
        dict_sound(
            spec_scan(model, map, bits, address_size, dict, location, count)->Ok_0,
            map,
            kind_of(model),
            bits,
            address_size,
            seen + model.spec_remaining(map)->Ok_0,
        ),
    decreases model.left(map), model.unread_len(),
{
    lemma_scan_unfold(model, map, bits, address_size, dict, location, count);
    model.lemma_next_progress(map);
    match model.spec_next_located(map) {
        (_, Err(e)) => {},
        (_, Ok(None)) => {
            assert(seen + Seq::<Entry<Seq<u8>>>::empty() =~= seen);
        },
        (after, Ok(Some((entry, found)))) => {
            let index = if found == location {
                count
            } else {
                0
            };
            lemma_located(model, map, bits, address_size, location, count);
            let position = spec_encode_position(found as u64, index, bits, address_size)->Ok_0;
            lemma_record(dict, map, kind_of(model), bits, address_size, seen, entry, position);
            lemma_scan(
                after,
                map,
                bits,
                address_size,
                dict.spec_record(entry, position),
                found as u64,
                (index + 1) as u64,
                seen.push(entry),
            );
            let rest = after.spec_remaining(map)->Ok_0;
            assert(seen.push(entry) + rest =~= seen + (seq![entry] + rest));
        },
    }
}


/// **Scanning an uncompressed log succeeds.** Where the entries of an
/// uncompressed log all decode, a scan with no index bits finds a position
/// that can be stored for every one of them: the position is where the
/// entry stands, and that lies inside the log.
pub proof fn lemma_scan_uncompressed(
    map: Seq<u8>,
    position: int,
    address_size: u32,
    dict: DictModel,
    location: u64,
    count: u64,
)
    requires
        1 <= position,
        map.len() <= u64::MAX,
        address_size == 4 ==> map.len() <= 0x1_0000_0000,
        count == 0 || location < position,
        (EntriesModel::Uncompressed { position }).spec_remaining(map) is Ok,
    ensures
        spec_scan(
            EntriesModel::Uncompressed { position },
            map,
            0,
            address_size,
            dict,
            location,
            count,
        ) is Ok,
    decreases (EntriesModel::Uncompressed { position }).left(map),
{
    let model = EntriesModel::Uncompressed { position };
    lemma_scan_unfold(model, map, 0, address_size, dict, location, count);
    model.lemma_next_progress(map);
    match model.spec_next_located(map) {
        (after, Ok(Some((entry, found)))) => {
            crate::log::lemma_read_entry_len(crate::log::spec_tail(map, position));
            let at = found as u64;
            assert(found == position);
            assert(((1u64 << 0u32) - 1) as u64 == 0 && (u64::MAX >> 0u32) == u64::MAX && ((at
                << 0u32) | 0u64) == at) by (bit_vector);
            let encoded = spec_encode_position(at, 0, 0, address_size);
            assert(encoded == Ok::<u64, Error>(at));
            lemma_scan_uncompressed(
                map,
                after->position,
                address_size,
                dict.spec_record(entry, at),
                at,
                1,
            );
        },
        _ => {},
    }
}


/// The largest index that `bits` index bits hold.
pub open spec fn spec_index_mask(bits: u32) -> u64 {
    ((1u64 << bits) - 1) as u64
}

/// A location and an index encode where the index fits the index bits and
/// the location fits the bits above them.
pub proof fn lemma_position_encodes(location: u64, index: u64, bits: u32, address_size: u32)
    requires
        bits <= 32,
        index <= spec_index_mask(bits),
        location <= (u64::MAX >> bits),
        address_size == 4 ==> location <= (0xffff_ffffu64 >> bits),
    ensures
        spec_encode_position(location, index, bits, address_size) is Ok,
{
    let mask = spec_index_mask(bits);
    assert(bits <= 32 ==> (1u64 << bits) >= 1) by (bit_vector);
    assert(bits <= 32 && index <= mask && mask == ((1u64 << bits) - 1) as u64 && location <= (
    0xffff_ffffu64 >> bits) ==> ((location << bits) | index) <= 0xffff_ffff) by (bit_vector);
}

/// **Scanning a compressed log succeeds.** Where the entries of a
/// compressed log all decode, no block holds more entries than the index
/// bits can number, and the end of the log fits the bits above them, a scan
/// finds a position that can be stored for every entry.
pub proof fn lemma_scan_snappy(
    chunks: ChunksModel,
    map: Seq<u8>,
    bits: u32,
    address_size: u32,
    dict: DictModel,
    location: u64,
    count: u64,
    limit: nat,
)
    requires
        bits <= 32,
        map.len() <= u64::MAX,
        cursor_ok(EntriesModel::Snappy { chunks }, map, location, count),
        0 <= chunks.next_position <= map.len(),
        (EntriesModel::Snappy { chunks }).spec_remaining(map) is Ok,
        limit <= spec_index_mask(bits),
        map.len() <= (u64::MAX >> bits),
        address_size == 4 ==> map.len() <= (0xffff_ffffu64 >> bits),
        spec_blocks_within(map.skip(chunks.next_position), limit),
        chunks.has_unread() ==> count + spec_parse_entries(chunks.unread())->Ok_0.len() <= limit,
    ensures
        spec_scan(
            EntriesModel::Snappy { chunks },
            map,
            bits,
            address_size,
            dict,
            location,
            count,
        ) is Ok,
    decreases chunks.blocks_left(map), (EntriesModel::Snappy { chunks }).unread_len(),
{
    let model = EntriesModel::Snappy { chunks };
    lemma_scan_unfold(model, map, bits, address_size, dict, location, count);
    model.lemma_next_progress(map);
    lemma_snappy_remaining(chunks, map);
    match model.spec_next_located(map) {
        (after, Ok(Some((entry, found)))) => {
            let index = if found == location {
                count
            } else {
                0
            };
            let behind = after->chunks;
            if chunks.has_unread() {
                let unread = chunks.unread();
                crate::log::lemma_read_entry_len(unread);
                let n = crate::log::spec_read_entry(unread)->Ok_0.1;
                assert(behind.block->Some_0.skip(behind.offset) =~= unread.skip(n as int));
                assert(found == location);
                assert(spec_parse_entries(unread) is Ok);
                assert(spec_parse_entries(unread)->Ok_0.len() == 1 + spec_parse_entries(
                    unread.skip(n as int),
                )->Ok_0.len());
                lemma_position_encodes(found as u64, index, bits, address_size);
            } else {
                let start = chunks.next_position;
                crate::log::snappy::lemma_next_block_advances(map, start);
                let data = map.skip(start);
                let (block, size) = crate::log::snappy::spec_read_block(data)->Ok_0;
                let filled = chunks.spec_fill(map)->Ok_0->Some_0;
                assert(filled.unread() =~= block);
                crate::log::lemma_read_entry_len(block);
                let n = crate::log::spec_read_entry(block)->Ok_0.1;
                assert(behind.block->Some_0.skip(behind.offset) =~= block.skip(n as int));
                assert(data.skip(size as int) =~= map.skip(start + size));
                assert(found == start);
                assert(index == 0);
                assert(spec_parse_entries(block) is Ok);
                assert(spec_parse_entries(block)->Ok_0.len() == 1 + spec_parse_entries(
                    block.skip(n as int),
                )->Ok_0.len());
                lemma_position_encodes(found as u64, index, bits, address_size);
            }
            lemma_located(model, map, bits, address_size, location, count);
            let position = spec_encode_position(found as u64, index, bits, address_size)->Ok_0;
            lemma_snappy_remaining(behind, map);
            lemma_scan_snappy(
                behind,
                map,
                bits,
                address_size,
                dict.spec_record(entry, position),
                found as u64,
                (index + 1) as u64,
                limit,
            );
        },
        _ => {},
    }
}


/// The index bits for a number hold that number.
pub proof fn lemma_bit_length_mask(m: u32)
    ensures
        crate::hash::builder::spec_bit_length(m) <= 32,
        m <= spec_index_mask(crate::hash::builder::spec_bit_length(m)),
    decreases m,
{
    vstd::arithmetic::power2::lemma2_to64();
    crate::hash::builder::lemma_bit_length_bound(m, 32);
    if m != 0 {
        let half = (m / 2) as u32;
        lemma_bit_length_mask(half);
        crate::hash::builder::lemma_bit_length_bound(half, 31);
        let b = crate::hash::builder::spec_bit_length(half);
        let wider = (b + 1) as u32;
        assert(b <= 31 && wider == b + 1 ==> ((1u64 << wider) - 1) as u64 == 2 * (((1u64 << b)
            - 1) as u64) + 1) by (bit_vector);
    } else {
        assert(((1u64 << 0u32) - 1) as u64 == 0) by (bit_vector);
    }
}

} // verus!
