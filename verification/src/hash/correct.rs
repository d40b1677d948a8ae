//! What an index that was built over a log answers: for every key, the
//! value of its latest entry in the log where that is a put, and nothing
//! else.

use crate::error::Error;
use crate::hash::builder::{
    lemma_bit_length_bound, spec_address_size, spec_bit_length, spec_capacity,
    spec_default_type, spec_empty_table, spec_fill, spec_index_header, spec_scan,
    spec_slot_bytes, spec_table_bytes, spec_write, DictModel,
};
use crate::hash::lookup::{lemma_get, pair_sound, spec_hash_of, spec_latest, table_sound};
use crate::hash::robin_hood::{
    contains, displaced, lemma_fill, lemma_max_displacement, occupied, ordered, row_pair,
    rows_placed, spec_occupied_count,
};
use crate::hash::scanned::{cursor_ok, dict_sound, kind_of, known, lemma_scan, row_sound};
use crate::hash::table::{spec_get, spec_probe, spec_slot_at, spec_slots};
use crate::hash::{lemma_header_roundtrip, spec_load_header, Header, Type};
use crate::log::{CompressionType, EntriesModel, Entry};
use vstd::bytes::{spec_u32_to_le_bytes, spec_u64_to_le_bytes};
use vstd::prelude::*;

verus! {

/// Whether a pair can be stored in a slot of these widths.
pub open spec fn pair_fits(pair: (u64, u64), hash_size: u32, address_size: u32) -> bool {
    &&& hash_size == 4 ==> pair.0 <= 0xffff_ffff
    &&& address_size == 4 ==> pair.1 <= 0xffff_ffff
}

/// The bytes of the first `n` slots are `n` slots long, and hold the bytes
/// of each slot at its place.
pub proof fn lemma_table_bytes(
    slots: Seq<(u64, u64)>,
    n: nat,
    hash_size: u32,
    address_size: u32,
    i: int,
)
    requires
        n <= slots.len(),
        hash_size == 4 || hash_size == 8,
        address_size == 4 || address_size == 8,
        0 <= i < n,
    ensures
        spec_table_bytes(slots, n, hash_size, address_size).len() == n * (hash_size
            + address_size),
        spec_slot_bytes(slots[i], hash_size, address_size).len() == hash_size + address_size,
        0 <= i * (hash_size + address_size),
        i * (hash_size + address_size) + (hash_size + address_size) <= n * (hash_size
            + address_size),
        spec_table_bytes(slots, n, hash_size, address_size).subrange(
            i * (hash_size + address_size),
            i * (hash_size + address_size) + (hash_size + address_size),
        ) == spec_slot_bytes(slots[i], hash_size, address_size),
    decreases n,
{
    vstd::bytes::lemma_auto_spec_u32_to_from_le_bytes();
    vstd::bytes::lemma_auto_spec_u64_to_from_le_bytes();
    let width = (hash_size + address_size) as int;
    let head = spec_table_bytes(slots, (n - 1) as nat, hash_size, address_size);
    let last = spec_slot_bytes(slots[n - 1], hash_size, address_size);
    lemma_table_len(slots, (n - 1) as nat, hash_size, address_size);
    assert(last.len() == width);
    assert(n * width == (n - 1) * width + width) by (nonlinear_arith);
    assert(0 <= i * width && i * width + width <= n * width) by (nonlinear_arith)
        requires
            0 <= i < n,
            width > 0,
    ;
    if i == n - 1 {
        assert((head + last).subrange(i * width, i * width + width) =~= last);
    } else {
        lemma_table_bytes(slots, (n - 1) as nat, hash_size, address_size, i);
        assert(i * width + width <= (n - 1) * width) by (nonlinear_arith)
            requires
                0 <= i < n - 1,
                width > 0,
        ;
        assert((head + last).subrange(i * width, i * width + width) =~= head.subrange(
            i * width,
            i * width + width,
        ));
    }
}

/// The bytes of the first `n` slots are `n` slots long.
pub proof fn lemma_table_len(slots: Seq<(u64, u64)>, n: nat, hash_size: u32, address_size: u32)
    requires
        n <= slots.len(),
        hash_size == 4 || hash_size == 8,
        address_size == 4 || address_size == 8,
    ensures
        spec_table_bytes(slots, n, hash_size, address_size).len() == n * (hash_size
            + address_size),
    decreases n,
{
    vstd::bytes::lemma_auto_spec_u32_to_from_le_bytes();
    vstd::bytes::lemma_auto_spec_u64_to_from_le_bytes();
    let width = (hash_size + address_size) as int;
    if n > 0 {
        lemma_table_len(slots, (n - 1) as nat, hash_size, address_size);
        assert(n * width == (n - 1) * width + width) by (nonlinear_arith);
    } else {
        assert(0 * width == 0) by (nonlinear_arith);
    }
}

/// A slot that was stored reads back as it was, where its pair fits the
/// widths of the table.
pub proof fn lemma_slot_roundtrip(header: Header, slots: Seq<(u64, u64)>, i: int)
    requires
        header.valid(),
        header.hash_capacity == slots.len(),
        0 <= i < slots.len(),
        pair_fits(slots[i], header.hash_size, header.address_size),
    ensures
        spec_slot_at(
            header.spec_bytes() + spec_table_bytes(
                slots,
                slots.len(),
                header.hash_size,
                header.address_size,
            ),
            header,
            i,
        ) == slots[i],
{
    vstd::bytes::lemma_auto_spec_u32_to_from_le_bytes();
    vstd::bytes::lemma_auto_spec_u64_to_from_le_bytes();
    let hash_size = header.hash_size;
    let address_size = header.address_size;
    let width = (hash_size + address_size) as int;
    let table = spec_table_bytes(slots, slots.len(), hash_size, address_size);
    let image = header.spec_bytes() + table;
    lemma_header_roundtrip(header, table);
    lemma_table_bytes(slots, slots.len(), hash_size, address_size, i);
    let off = 112 + i * width;
    let stored = spec_slot_bytes(slots[i], hash_size, address_size);
    assert(image.subrange(off, off + width) =~= table.subrange(i * width, i * width + width));
    let (hash, position) = slots[i];
    assert(hash <= 0xffff_ffff ==> (hash as u32) as u64 == hash) by (bit_vector);
    assert(position <= 0xffff_ffff ==> (position as u32) as u64 == position) by (bit_vector);
    if hash_size == 4 {
        assert(image.subrange(off, off + 4) =~= stored.subrange(0, 4));
        assert(stored.subrange(0, 4) =~= spec_u32_to_le_bytes(hash as u32));
    } else {
        assert(image.subrange(off, off + 8) =~= stored.subrange(0, 8));
        assert(stored.subrange(0, 8) =~= spec_u64_to_le_bytes(hash));
    }
    if address_size == 4 {
        assert(image.subrange(off + hash_size, off + hash_size + 4) =~= stored.subrange(
            hash_size as int,
            hash_size + 4,
        ));
        assert(stored.subrange(hash_size as int, hash_size + 4) =~= spec_u32_to_le_bytes(
            position as u32,
        ));
    } else {
        assert(image.subrange(off + hash_size, off + hash_size + 8) =~= stored.subrange(
            hash_size as int,
            hash_size + 8,
        ));
        assert(stored.subrange(hash_size as int, hash_size + 8) =~= spec_u64_to_le_bytes(
            position,
        ));
    }
}


/// An empty table has no occupant and is ordered.
pub proof fn lemma_empty_table(capacity: nat, n: nat)
    requires
        n <= capacity,
    ensures
        ordered(spec_empty_table(capacity)),
        spec_occupied_count(spec_empty_table(capacity), n) == 0,
    decreases n,
{
    reveal(ordered);
    if n > 0 {
        lemma_empty_table(capacity, (n - 1) as nat);
    }
}

/// A table for `live` keys has more slots than keys.
pub proof fn lemma_capacity_room(live: nat)
    ensures
        spec_capacity(live) > live,
{
    if live > 0 {
        assert((live * 13 + 9) / 10 > live) by (nonlinear_arith)
            requires
                live >= 1,
        ;
    }
}

/// The number of live rows from `from` on is at most the number of rows.
pub proof fn lemma_live_count_bound(dict: DictModel, from: int)
    requires
        dict.wf(),
        0 <= from <= dict.live.len(),
    ensures
        dict.spec_live_count(from) <= dict.live.len() - from,
    decreases dict.live.len() - from,
{
    if from < dict.live.len() {
        lemma_live_count_bound(dict, from + 1);
    }
}

/// The parts of an index that was built: the dictionary of the scan, the
/// table, and the header.
pub struct Built {
    pub kind: Type,
    pub bits: u32,
    pub address_size: u32,
    pub dict: DictModel,
    pub slots: Seq<(u64, u64)>,
    pub header: Header,
}

/// The parts of the index that `spec_write` gives an image of.
pub open spec fn spec_built(
    log: crate::log::Header,
    map: Seq<u8>,
    hash_type: Option<Type>,
    hash_seed: u32,
) -> Built {
    let kind = match hash_type {
        Some(t) => t,
        None => spec_default_type(log.num_puts),
    };
    let bits = spec_bit_length(log.max_entries_per_block);
    let address_size = spec_address_size(log.data_end);
    let dict = spec_scan(
        EntriesModel::at(log.compression_type, log.header_size as int),
        map,
        bits,
        address_size,
        DictModel::empty(),
        0,
        0,
    )->Ok_0;
    let live = dict.spec_live_count(0);
    let filled = spec_fill(dict, 0, kind, hash_seed, spec_empty_table(spec_capacity(live)), 0)->Some_0;
    Built {
        kind,
        bits,
        address_size,
        dict,
        slots: filled.0,
        header: spec_index_header(
            log,
            kind,
            hash_seed,
            address_size,
            bits,
            live,
            filled.0,
            filled.1,
        ),
    }
}

/// The dictionary that building the index over a log scans the log into, or
/// the failure of that scan.
pub open spec fn spec_scanned(log: crate::log::Header, map: Seq<u8>) -> Result<DictModel, Error> {
    spec_scan(
        EntriesModel::at(log.compression_type, log.header_size as int),
        map,
        spec_bit_length(log.max_entries_per_block),
        spec_address_size(log.data_end),
        DictModel::empty(),
        0,
        0,
    )
}

/// Whether the image of the index over a log fits the largest size of an
/// object in memory, where the scan of the log succeeds.
pub open spec fn spec_image_fits(
    log: crate::log::Header,
    map: Seq<u8>,
    hash_type: Option<Type>,
) -> bool {
    let kind = match hash_type {
        Some(t) => t,
        None => spec_default_type(log.num_puts),
    };
    112 + spec_capacity(spec_scanned(log, map)->Ok_0.spec_live_count(0)) * (kind.spec_raw()
        + spec_address_size(log.data_end)) <= usize::MAX
}

/// The index bits of a build are at most 32.
pub proof fn lemma_build_bits(log: crate::log::Header)
    ensures
        spec_bit_length(log.max_entries_per_block) <= 32,
{
    vstd::arithmetic::power2::lemma2_to64();
    lemma_bit_length_bound(log.max_entries_per_block, 32);
}

/// How `spec_write` comes to its image, step by step.
pub proof fn lemma_write_parts(
    log: crate::log::Header,
    map: Seq<u8>,
    hash_type: Option<Type>,
    hash_seed: u32,
)
    requires
        spec_write(log, map, hash_type, hash_seed) is Ok,
    ensures
        ({
            let built = spec_built(log, map, hash_type, hash_seed);
            let live = built.dict.spec_live_count(0);
            &&& built.bits <= 32
            &&& built.address_size == 4 || built.address_size == 8
            &&& built.kind.spec_raw() == 4 || built.kind.spec_raw() == 8
            &&& Type::spec_of_size(built.kind.spec_raw()) == built.kind
            &&& spec_scan(
                EntriesModel::at(log.compression_type, log.header_size as int),
                map,
                built.bits,
                built.address_size,
                DictModel::empty(),
                0,
                0,
            ) == Ok::<DictModel, Error>(built.dict)
            &&& 112 + spec_capacity(live) * (built.kind.spec_raw() + built.address_size)
                <= usize::MAX
            &&& spec_fill(
                built.dict,
                0,
                built.kind,
                hash_seed,
                spec_empty_table(spec_capacity(live)),
                0,
            ) is Some
            &&& spec_fill(
                built.dict,
                0,
                built.kind,
                hash_seed,
                spec_empty_table(spec_capacity(live)),
                0,
            )->Some_0.0 == built.slots
            &&& spec_write(log, map, hash_type, hash_seed)->Ok_0 == built.header.spec_bytes()
                + spec_table_bytes(
                built.slots,
                built.slots.len(),
                built.kind.spec_raw(),
                built.address_size,
            )
        }),
{
    vstd::arithmetic::power2::lemma2_to64();
    lemma_bit_length_bound(log.max_entries_per_block, 32);
}

/// The dictionary of a scan that succeeded says of every key what the
/// entries of the log say.
pub proof fn lemma_built_dict(
    log: crate::log::Header,
    map: Seq<u8>,
    hash_type: Option<Type>,
    hash_seed: u32,
)
    requires
        log.header_size >= 1,
        map.len() == log.data_end,
        spec_scanned(log, map) is Ok,
    ensures
        ({
            let built = spec_built(log, map, hash_type, hash_seed);
            let start = EntriesModel::at(log.compression_type, log.header_size as int);
            &&& start.spec_remaining(map) is Ok
            &&& dict_sound(
                built.dict,
                map,
                log.compression_type,
                built.bits,
                built.address_size,
                start.spec_remaining(map)->Ok_0,
            )
            &&& rows_placed(built.dict)
            &&& built.dict.wf()
        }),
{
    lemma_build_bits(log);
    let built = spec_built(log, map, hash_type, hash_seed);
    let bits = built.bits;
    let address_size = built.address_size;
    let dict = built.dict;
    let start = EntriesModel::at(log.compression_type, log.header_size as int);
    assert(kind_of(start) == log.compression_type);
    assert(cursor_ok(start, map, 0, 0));
    let nothing = Seq::<Entry<Seq<u8>>>::empty();
    assert(dict_sound(DictModel::empty(), map, log.compression_type, bits, address_size, nothing))
        by {
        assert forall|key: Seq<u8>| (#[trigger] spec_latest(nothing, key)) is Some implies known(
            DictModel::empty(),
            key,
        ) by {}
    }
    lemma_scan(start, map, bits, address_size, DictModel::empty(), 0, 0, nothing);
    let entries = start.spec_remaining(map)->Ok_0;
    assert(nothing + entries =~= entries);
    assert(rows_placed(dict)) by {
        assert forall|r: int| 0 <= r < dict.keys.len() && #[trigger] dict.live[r]
            implies dict.positions[r] != 0 by {
            assert(row_sound(dict, map, log.compression_type, bits, address_size, entries, r));
        }
    }
}

/// The table of an index that was built is ordered, holds the pairs of the
/// live rows of the dictionary and nothing else, and has more slots than
/// occupants.
pub proof fn lemma_built_slots(
    log: crate::log::Header,
    map: Seq<u8>,
    hash_type: Option<Type>,
    hash_seed: u32,
)
    requires
        log.header_size >= 1,
        map.len() == log.data_end,
        spec_scanned(log, map) is Ok,
    ensures
        ({
            let built = spec_built(log, map, hash_type, hash_seed);
            &&& spec_fill(
                built.dict,
                0,
                built.kind,
                hash_seed,
                spec_empty_table(spec_capacity(built.dict.spec_live_count(0))),
                0,
            ) is Some
            &&& built.slots.len() == spec_capacity(built.dict.spec_live_count(0))
            &&& built.slots.len() >= 1
            &&& built.dict.spec_live_count(0) <= built.dict.keys.len()
            &&& ordered(built.slots)
            &&& spec_occupied_count(built.slots, built.slots.len())
                == built.dict.spec_live_count(0)
            &&& forall|pair: (u64, u64)|
                pair.1 != 0 ==> (#[trigger] contains(built.slots, pair) <==> row_pair(
                    built.dict,
                    built.kind,
                    hash_seed,
                    0,
                    pair,
                ))
            &&& forall|s: int|
                0 <= s < built.slots.len() && !#[trigger] occupied(built.slots, s)
                    ==> built.slots[s] == (0u64, 0u64)
        }),
{
    lemma_build_bits(log);
    lemma_built_dict(log, map, hash_type, hash_seed);
    let built = spec_built(log, map, hash_type, hash_seed);
    let dict = built.dict;
    let live = dict.spec_live_count(0);
    let capacity = spec_capacity(live);
    let empty = spec_empty_table(capacity);
    lemma_capacity_room(live);
    lemma_empty_table(capacity, capacity);
    lemma_live_count_bound(dict, 0);
    lemma_fill(dict, 0, built.kind, hash_seed, empty, 0);
    let slots = built.slots;
    assert forall|pair: (u64, u64)| pair.1 != 0 implies (#[trigger] contains(slots, pair)
        <==> row_pair(dict, built.kind, hash_seed, 0, pair)) by {
        if contains(empty, pair) {
            let s = choose|s: int| 0 <= s < empty.len() && #[trigger] empty[s] == pair;
        }
    }
    assert forall|s: int| 0 <= s < slots.len() && !#[trigger] occupied(slots, s) implies slots[s]
        == (0u64, 0u64) by {
        assert(slots[s] == empty[s]);
    }
}

/// The header of an index that was built is valid, loads from the image,
/// and bounds the displacement of every occupant of the table.
pub proof fn lemma_built_header(
    log: crate::log::Header,
    map: Seq<u8>,
    hash_type: Option<Type>,
    hash_seed: u32,
)
    requires
        log.header_size >= 1,
        map.len() == log.data_end,
        spec_write(log, map, hash_type, hash_seed) is Ok,
    ensures
        ({
            let built = spec_built(log, map, hash_type, hash_seed);
            let image = spec_write(log, map, hash_type, hash_seed)->Ok_0;
            &&& built.header.valid()
            &&& built.header.hash_capacity == built.slots.len()
            &&& built.header.hash_size == built.kind.spec_raw()
            &&& built.header.address_size == built.address_size
            &&& built.header.entry_block_bits == built.bits
            &&& built.header.hash_seed == hash_seed
            &&& built.header.file_identifier == log.file_identifier
            &&& built.header.num_entries == built.dict.spec_live_count(0)
            &&& image == built.header.spec_bytes() + spec_table_bytes(
                built.slots,
                built.slots.len(),
                built.header.hash_size,
                built.header.address_size,
            )
            &&& image.len() == built.header.data_end
            &&& spec_load_header(image) == Ok::<Header, Error>(built.header)
            &&& forall|s: int|
                0 <= s < built.slots.len() && #[trigger] occupied(built.slots, s) ==> displaced(
                    built.slots,
                    s,
                ) <= built.header.max_displacement
        }),
{
    lemma_write_parts(log, map, hash_type, hash_seed);
    lemma_built_slots(log, map, hash_type, hash_seed);
    let built = spec_built(log, map, hash_type, hash_seed);
    let slots = built.slots;
    let header = built.header;
    let capacity = slots.len();
    let width = built.kind.spec_raw() + built.address_size;
    assert(capacity <= usize::MAX && 112 + capacity * width <= u64::MAX) by (nonlinear_arith)
        requires
            112 + capacity * width <= usize::MAX,
            width >= 8,
            capacity >= 0,
    ;
    lemma_max_displacement(slots, slots.len());
    assert(header.valid());
    let table = spec_table_bytes(slots, slots.len(), header.hash_size, header.address_size);
    lemma_header_roundtrip(header, table);
    lemma_table_len(slots, slots.len(), header.hash_size, header.address_size);
}

/// A hash of the narrow kind fits four bytes.
pub proof fn lemma_hash_fits(kind: Type, key: Seq<u8>, seed: u32)
    ensures
        kind.spec_raw() == 4 ==> kind.spec_hash(key, seed) <= 0xffff_ffff,
{
}

/// The pair of a live row that is sound fits its slot and points at the
/// latest put of its key.
pub proof fn lemma_pair_of_row(
    header: Header,
    map: Seq<u8>,
    compression_type: CompressionType,
    entries: Seq<Entry<Seq<u8>>>,
    dict: DictModel,
    kind: Type,
    r: int,
)
    requires
        0 <= r < dict.keys.len(),
        dict.live[r],
        row_sound(
            dict,
            map,
            compression_type,
            header.entry_block_bits,
            header.address_size,
            entries,
            r,
        ),
        header.hash_size == kind.spec_raw(),
        Type::spec_of_size(header.hash_size) == kind,
    ensures
        pair_sound(
            header,
            map,
            compression_type,
            entries,
            (kind.spec_hash(dict.keys[r], header.hash_seed), dict.positions[r]),
        ),
        pair_fits(
            (kind.spec_hash(dict.keys[r], header.hash_seed), dict.positions[r]),
            header.hash_size,
            header.address_size,
        ),
{
    lemma_hash_fits(kind, dict.keys[r], header.hash_seed);
}

/// In the table of an index that was built, every pair fits its slot and
/// every occupant points at the latest put of its key.
pub proof fn lemma_built_sound(
    log: crate::log::Header,
    map: Seq<u8>,
    hash_type: Option<Type>,
    hash_seed: u32,
)
    requires
        log.header_size >= 1,
        map.len() == log.data_end,
        spec_write(log, map, hash_type, hash_seed) is Ok,
    ensures
        ({
            let built = spec_built(log, map, hash_type, hash_seed);
            let start = EntriesModel::at(log.compression_type, log.header_size as int);
            &&& table_sound(
                built.slots,
                built.header,
                map,
                log.compression_type,
                start.spec_remaining(map)->Ok_0,
            )
            &&& forall|s: int|
                0 <= s < built.slots.len() ==> #[trigger] pair_fits(
                    built.slots[s],
                    built.header.hash_size,
                    built.header.address_size,
                )
        }),
{
    lemma_write_parts(log, map, hash_type, hash_seed);
    lemma_built_dict(log, map, hash_type, hash_seed);
    lemma_built_slots(log, map, hash_type, hash_seed);
    lemma_built_header(log, map, hash_type, hash_seed);
    let built = spec_built(log, map, hash_type, hash_seed);
    let slots = built.slots;
    let header = built.header;
    let dict = built.dict;
    let entries = EntriesModel::at(log.compression_type, log.header_size as int).spec_remaining(
        map,
    )->Ok_0;
    assert forall|s: int| 0 <= s < slots.len() && #[trigger] occupied(
        slots,
        s,
    ) implies pair_sound(header, map, log.compression_type, entries, slots[s]) && pair_fits(
        slots[s],
        header.hash_size,
        header.address_size,
    ) by {
        let pair = slots[s];
        assert(contains(slots, pair));
        assert(row_pair(dict, built.kind, hash_seed, 0, pair));
        let r = choose|r: int|
            0 <= r < dict.keys.len() && #[trigger] dict.live[r] && pair == (
                built.kind.spec_hash(dict.keys[r], hash_seed),
                dict.positions[r],
            );
        assert(row_sound(
            dict,
            map,
            log.compression_type,
            built.bits,
            built.address_size,
            entries,
            r,
        ));
        lemma_pair_of_row(header, map, log.compression_type, entries, dict, built.kind, r);
    }
    assert forall|s: int| 0 <= s < slots.len() implies #[trigger] pair_fits(
        slots[s],
        header.hash_size,
        header.address_size,
    ) by {
        if !occupied(slots, s) {
            assert(slots[s] == (0u64, 0u64));
        }
    }
}

/// The slots of an index that was built read back from its image as they
/// were stored.
pub proof fn lemma_built_slots_read(
    log: crate::log::Header,
    map: Seq<u8>,
    hash_type: Option<Type>,
    hash_seed: u32,
)
    requires
        log.header_size >= 1,
        map.len() == log.data_end,
        spec_write(log, map, hash_type, hash_seed) is Ok,
    ensures
        ({
            let built = spec_built(log, map, hash_type, hash_seed);
            let image = spec_write(log, map, hash_type, hash_seed)->Ok_0;
            &&& spec_load_header(image) == Ok::<Header, Error>(built.header)
            &&& spec_slots(image, built.header) == built.slots
        }),
{
    lemma_built_header(log, map, hash_type, hash_seed);
    lemma_built_sound(log, map, hash_type, hash_seed);
    let built = spec_built(log, map, hash_type, hash_seed);
    let image = spec_write(log, map, hash_type, hash_seed)->Ok_0;
    let header = built.header;
    let slots = built.slots;
    assert(spec_slots(image, header) =~= slots) by {
        assert forall|i: int| 0 <= i < slots.len() implies spec_slots(image, header)[i]
            == slots[i] by {
            assert(pair_fits(slots[i], header.hash_size, header.address_size));
            lemma_slot_roundtrip(header, slots, i);
        }
    }
}

/// **Lookups are correct.** In the index that was built over a log, looking
/// a key up gives the value of the key's latest entry in the log where that
/// entry is a put, and nothing where it is a delete or the key has no
/// entry.
pub proof fn lemma_get_correct(
    log: crate::log::Header,
    map: Seq<u8>,
    hash_type: Option<Type>,
    hash_seed: u32,
    key: Seq<u8>,
)
    requires
        log.header_size >= 1,
        map.len() == log.data_end,
        spec_write(log, map, hash_type, hash_seed) is Ok,
    ensures
        ({
            let image = spec_write(log, map, hash_type, hash_seed)->Ok_0;
            let entries = EntriesModel::at(
                log.compression_type,
                log.header_size as int,
            ).spec_remaining(map);
            &&& entries is Ok
            &&& spec_load_header(image) is Ok
            &&& spec_load_header(image)->Ok_0.data_end == image.len()
            &&& spec_load_header(image)->Ok_0.file_identifier == log.file_identifier
            &&& spec_get(
                spec_slots(image, spec_load_header(image)->Ok_0),
                spec_load_header(image)->Ok_0,
                map,
                log.compression_type,
                key,
            ) == Ok::<Option<Seq<u8>>, Error>(spec_latest(entries->Ok_0, key))
        }),
{
    lemma_write_parts(log, map, hash_type, hash_seed);
    lemma_built_dict(log, map, hash_type, hash_seed);
    lemma_built_slots(log, map, hash_type, hash_seed);
    lemma_built_header(log, map, hash_type, hash_seed);
    lemma_built_sound(log, map, hash_type, hash_seed);
    lemma_built_slots_read(log, map, hash_type, hash_seed);
    let built = spec_built(log, map, hash_type, hash_seed);
    let image = spec_write(log, map, hash_type, hash_seed)->Ok_0;
    let header = built.header;
    let slots = built.slots;
    let entries = EntriesModel::at(log.compression_type, log.header_size as int).spec_remaining(
        map,
    )->Ok_0;
    if let Some(value) = spec_latest(entries, key) {
        assert(known(built.dict, key));
        let r = choose|r: int| 0 <= r < built.dict.keys.len() && #[trigger] built.dict.keys[r] == key;
        assert(row_sound(
            built.dict,
            map,
            log.compression_type,
            built.bits,
            built.address_size,
            entries,
            r,
        ));
        assert(built.dict.live[r]);
        let pair = (built.kind.spec_hash(key, hash_seed), built.dict.positions[r]);
        assert(row_pair(built.dict, built.kind, hash_seed, 0, pair));
        assert(contains(slots, pair));
        let target = choose|s: int| 0 <= s < slots.len() && #[trigger] slots[s] == pair;
        assert(occupied(slots, target));
    }
    lemma_get(slots, header, map, log.compression_type, entries, key);
}

/// **The largest displacement bounds every probe.** In the index that was
/// built over a log, no occupant of the table is displaced further than the
/// header says, and a probe that has come further than that finds nothing.
pub proof fn lemma_displacement_bound(
    log: crate::log::Header,
    map: Seq<u8>,
    hash_type: Option<Type>,
    hash_seed: u32,
    key: Seq<u8>,
    slot: int,
    d: int,
)
    requires
        log.header_size >= 1,
        map.len() == log.data_end,
        spec_write(log, map, hash_type, hash_seed) is Ok,
    ensures
        ({
            let image = spec_write(log, map, hash_type, hash_seed)->Ok_0;
            let header = spec_load_header(image)->Ok_0;
            let slots = spec_slots(image, header);
            &&& spec_load_header(image) is Ok
            &&& forall|s: int|
                0 <= s < slots.len() && #[trigger] occupied(slots, s) ==> displaced(slots, s)
                    <= header.max_displacement
            &&& d > header.max_displacement ==> spec_probe(
                slots,
                header,
                map,
                log.compression_type,
                key,
                spec_hash_of(header, key),
                slot,
                d,
            ) == Ok::<Option<Seq<u8>>, Error>(None)
        }),
{
    lemma_built_header(log, map, hash_type, hash_seed);
    lemma_built_slots_read(log, map, hash_type, hash_seed);
    let built = spec_built(log, map, hash_type, hash_seed);
    let header = built.header;
    let slots = built.slots;
    crate::hash::table::lemma_probe_unfold(
        slots,
        header,
        map,
        log.compression_type,
        key,
        spec_hash_of(header, key),
        slot,
        d,
    );
}


/// **An index opens over its log.** The image of the index that was built
/// over a log opens together with the image of that log, as the header and
/// the table that were built.
pub proof fn lemma_index_opens(
    log_data: Seq<u8>,
    hash_type: Option<Type>,
    hash_seed: u32,
)
    requires
        crate::log::spec_open(log_data) is Ok,
        spec_write(
            crate::log::spec_open(log_data)->Ok_0.0,
            crate::log::spec_open(log_data)->Ok_0.1,
            hash_type,
            hash_seed,
        ) is Ok,
    ensures
        ({
            let (log, map) = crate::log::spec_open(log_data)->Ok_0;
            let image = spec_write(log, map, hash_type, hash_seed)->Ok_0;
            crate::hash::reader::spec_open_index(image, log_data) == Ok::<
                (Header, Seq<u8>, crate::log::Header, Seq<u8>),
                Error,
            >((spec_load_header(image)->Ok_0, image, log, map))
        }),
{
    let (log, map) = crate::log::spec_open(log_data)->Ok_0;
    let image = spec_write(log, map, hash_type, hash_seed)->Ok_0;
    lemma_built_header(log, map, hash_type, hash_seed);
    assert(image.take(image.len() as int) =~= image);
}


/// **Building is repeatable.** The image of an index depends on nothing but
/// the log, the hash function and the seed: building twice from the same
/// gives the same bytes.
pub proof fn lemma_write_repeatable(
    first_log: crate::log::Header,
    first_map: Seq<u8>,
    second_log: crate::log::Header,
    second_map: Seq<u8>,
    hash_type: Option<Type>,
    hash_seed: u32,
)
    requires
        first_log == second_log,
        first_map == second_map,
    ensures
        spec_write(first_log, first_map, hash_type, hash_seed) == spec_write(
            second_log,
            second_map,
            hash_type,
            hash_seed,
        ),
{
}


/// **When building succeeds.** Building the index over a log succeeds
/// exactly where the scan of the log succeeds and the image fits the largest
/// size of an object in memory: once every entry has its position, the
/// table has room for every live key. A failure is the failure of the scan,
/// or `IO(EFBIG)` for an image that does not fit.
pub proof fn lemma_write_succeeds(
    log: crate::log::Header,
    map: Seq<u8>,
    hash_type: Option<Type>,
    hash_seed: u32,
)
    requires
        log.header_size >= 1,
        map.len() == log.data_end,
    ensures
        spec_write(log, map, hash_type, hash_seed) is Ok <==> spec_scanned(log, map) is Ok
            && spec_image_fits(log, map, hash_type),
        spec_scanned(log, map) is Err ==> spec_write(log, map, hash_type, hash_seed) == Err::<
            Seq<u8>,
            Error,
        >(spec_scanned(log, map)->Err_0),
        spec_scanned(log, map) is Ok && !spec_image_fits(log, map, hash_type) ==> spec_write(
            log,
            map,
            hash_type,
            hash_seed,
        ) == Err::<Seq<u8>, Error>(Error::IO(crate::util::EFBIG)),
{
    if spec_scanned(log, map) is Ok {
        lemma_built_slots(log, map, hash_type, hash_seed);
    }
}

/// **Building over an uncompressed log succeeds.** Where an uncompressed
/// log reads back and its header records no entry in a block, as the header
/// of every uncompressed log that was written does, the scan succeeds, and
/// so does the build where the image fits the largest size of an object in
/// memory.
pub proof fn lemma_write_succeeds_uncompressed(
    log: crate::log::Header,
    map: Seq<u8>,
    hash_type: Option<Type>,
    hash_seed: u32,
)
    requires
        log.header_size >= 1,
        map.len() == log.data_end,
        log.compression_type == CompressionType::Uncompressed,
        log.max_entries_per_block == 0,
        EntriesModel::at(log.compression_type, log.header_size as int).spec_remaining(map) is Ok,
    ensures
        spec_scanned(log, map) is Ok,
        spec_image_fits(log, map, hash_type) ==> spec_write(log, map, hash_type, hash_seed) is Ok,
{
    crate::hash::scanned::lemma_scan_uncompressed(
        map,
        log.header_size as int,
        spec_address_size(log.data_end),
        DictModel::empty(),
        0,
        0,
    );
    lemma_write_succeeds(log, map, hash_type, hash_seed);
}


/// **Building over a compressed log succeeds.** Where a compressed log
/// reads back, no block of it holds more entries than its header records,
/// and its data end fits the bits that a position has above its index bits,
/// the scan succeeds, and so does the build where the image fits the
/// largest size of an object in memory.
pub proof fn lemma_write_succeeds_compressed(
    log: crate::log::Header,
    map: Seq<u8>,
    hash_type: Option<Type>,
    hash_seed: u32,
)
    requires
        1 <= log.header_size <= log.data_end,
        map.len() == log.data_end,
        log.compression_type == CompressionType::Snappy,
        EntriesModel::at(log.compression_type, log.header_size as int).spec_remaining(map) is Ok,
        crate::log::parse::spec_blocks_within(
            map.skip(log.header_size as int),
            log.max_entries_per_block as nat,
        ),
        log.data_end <= (u64::MAX >> spec_bit_length(log.max_entries_per_block)),
        spec_address_size(log.data_end) == 4 ==> log.data_end <= (0xffff_ffffu64
            >> spec_bit_length(log.max_entries_per_block)),
    ensures
        spec_scanned(log, map) is Ok,
        spec_image_fits(log, map, hash_type) ==> spec_write(log, map, hash_type, hash_seed) is Ok,
{
    crate::hash::scanned::lemma_bit_length_mask(log.max_entries_per_block);
    let chunks = crate::log::snappy::ChunksModel {
        next_position: log.header_size as int,
        block: None,
        block_position: 0,
        offset: 0,
    };
    crate::hash::scanned::lemma_scan_snappy(
        chunks,
        map,
        spec_bit_length(log.max_entries_per_block),
        spec_address_size(log.data_end),
        DictModel::empty(),
        0,
        0,
        log.max_entries_per_block as nat,
    );
    lemma_write_succeeds(log, map, hash_type, hash_seed);
}


/// **Building over a written log succeeds.** The image of a writer that
/// has counted its entries rightly from the start and has no open block is
/// a log whose scan succeeds, where, in a compressed log, the data end fits
/// the bits that a position has above its index bits; the build succeeds
/// where its image fits the largest size of an object in memory.
pub proof fn lemma_written_log_builds(
    w: crate::log::writer::WriterModel,
    hash_type: Option<Type>,
    hash_seed: u32,
)
    requires
        w.wf(),
        w.counted(),
        w.block.len() == 0,
        w.header.compression_type == CompressionType::Snappy ==> w.header.data_end <= (u64::MAX
            >> spec_bit_length(w.header.max_entries_per_block)) && (spec_address_size(
            w.header.data_end,
        ) == 4 ==> w.header.data_end <= (0xffff_ffffu64 >> spec_bit_length(
            w.header.max_entries_per_block,
        ))),
    ensures
        EntriesModel::at(
            w.header.compression_type,
            w.header.header_size as int,
        ).spec_remaining(w.file) == w.spec_logged(),
        spec_scanned(w.header, w.file) is Ok,
        spec_image_fits(w.header, w.file, hash_type) ==> spec_write(
            w.header,
            w.file,
            hash_type,
            hash_seed,
        ) is Ok,
{
    match w.header.compression_type {
        CompressionType::Uncompressed => {
            crate::log::parse::lemma_uncompressed_remaining(w.file, 84);
            lemma_write_succeeds_uncompressed(w.header, w.file, hash_type, hash_seed);
        },
        CompressionType::Snappy => {
            let chunks = crate::log::snappy::ChunksModel {
                next_position: 84,
                block: None,
                block_position: 0,
                offset: 0,
            };
            crate::log::parse::lemma_snappy_remaining(chunks, w.file);
            assert(crate::log::parse::spec_parse_entries(w.block) == Ok::<
                Seq<Entry<Seq<u8>>>,
                Error,
            >(Seq::empty()));
            if let Ok(entries) = crate::log::parse::spec_parse_blocks(w.file.skip(84)) {
                assert(entries + Seq::<Entry<Seq<u8>>>::empty() =~= entries);
            }
            lemma_write_succeeds_compressed(w.header, w.file, hash_type, hash_seed);
        },
    }
}

} // verus!
