//! What a lookup gives in a table that holds the live keys of a log: the
//! latest value of every key that is live, and nothing for every other key.

use crate::error::Error;
use crate::hash::robin_hood::{
    displaced, lemma_displacement, lemma_path, occupied, ordered, spec_back,
};
use crate::hash::table::{
    lemma_probe_unfold, spec_decode_position, spec_entry_at, spec_get, spec_next_slot,
    spec_probe, spec_probe_step,
};
use crate::hash::{Header, Type};
use crate::log::{CompressionType, Entry};
use vstd::prelude::*;

verus! {

/// The value that the latest entry of `key` in `entries` puts, or nothing
/// where that entry is a delete or the key has no entry.
pub open spec fn spec_latest(entries: Seq<Entry<Seq<u8>>>, key: Seq<u8>) -> Option<Seq<u8>>
    decreases entries.len(),
{
    if entries.len() == 0 {
        None
    } else if entries.last().spec_key() == key {
        entries.last().spec_value()
    } else {
        spec_latest(entries.drop_last(), key)
    }
}

/// The entry that the encoded position `encoded` names in the log `map`.
pub open spec fn spec_points_at(
    map: Seq<u8>,
    compression_type: CompressionType,
    bits: u32,
    encoded: u64,
) -> Result<Option<Entry<Seq<u8>>>, Error> {
    let (position, index) = spec_decode_position(encoded, bits);
    spec_entry_at(map, compression_type, position as int, index as nat)
}

/// The hash of `key` in an index with the header `header`.
pub open spec fn spec_hash_of(header: Header, key: Seq<u8>) -> u64 {
    Type::spec_of_size(header.hash_size).spec_hash(key, header.hash_seed)
}

/// Whether `pair` points at a put that is the latest entry of its key in
/// `entries`, and holds the hash of that key.
pub open spec fn pair_sound(
    header: Header,
    map: Seq<u8>,
    compression_type: CompressionType,
    entries: Seq<Entry<Seq<u8>>>,
    pair: (u64, u64),
) -> bool {
    match spec_points_at(map, compression_type, header.entry_block_bits, pair.1) {
        Ok(Some(Entry::Put(key, value))) => pair.0 == spec_hash_of(header, key) && spec_latest(
            entries,
            key,
        ) == Some(value),
        _ => false,
    }
}

/// Whether every occupant of the table points at a put that is the latest
/// entry of its key.
pub open spec fn table_sound(
    slots: Seq<(u64, u64)>,
    header: Header,
    map: Seq<u8>,
    compression_type: CompressionType,
    entries: Seq<Entry<Seq<u8>>>,
) -> bool {
    forall|s: int|
        0 <= s < slots.len() && #[trigger] occupied(slots, s) ==> pair_sound(
            header,
            map,
            compression_type,
            entries,
            slots[s],
        )
}

/// A probe for a key that is not live finds nothing, in a table whose every
/// occupant points at the latest put of its key.
pub proof fn lemma_probe_absent(
    slots: Seq<(u64, u64)>,
    header: Header,
    map: Seq<u8>,
    compression_type: CompressionType,
    entries: Seq<Entry<Seq<u8>>>,
    key: Seq<u8>,
    slot: int,
    d: int,
)
    requires
        header.hash_capacity == slots.len(),
        0 <= slot < slots.len(),
        table_sound(slots, header, map, compression_type, entries),
        spec_latest(entries, key) is None,
    ensures
        spec_probe(
            slots,
            header,
            map,
            compression_type,
            key,
            spec_hash_of(header, key),
            slot,
            d,
        ) == Ok::<Option<Seq<u8>>, Error>(None),
    decreases header.max_displacement - d + 1,
{
    let h = spec_hash_of(header, key);
    lemma_probe_unfold(slots, header, map, compression_type, key, h, slot, d);
    if 0 <= d <= header.max_displacement {
        if slots[slot].1 != 0 {
            assert(occupied(slots, slot));
            assert(pair_sound(header, map, compression_type, entries, slots[slot]));
            if spec_probe_step(slots, header, map, compression_type, key, h, slot, d) is None {
                lemma_probe_absent(
                    slots,
                    header,
                    map,
                    compression_type,
                    entries,
                    key,
                    spec_next_slot(slots.len() as int, slot),
                    d + 1,
                );
            }
        }
    }
}

/// A probe for a live key finds its latest value, in an ordered table whose
/// every occupant points at the latest put of its key and one of whose
/// slots, `target`, holds this key: from `steps` slots in front of that
/// slot on.
pub proof fn lemma_probe_present(
    slots: Seq<(u64, u64)>,
    header: Header,
    map: Seq<u8>,
    compression_type: CompressionType,
    entries: Seq<Entry<Seq<u8>>>,
    key: Seq<u8>,
    value: Seq<u8>,
    target: int,
    steps: nat,
)
    requires
        header.hash_capacity == slots.len(),
        ordered(slots),
        table_sound(slots, header, map, compression_type, entries),
        0 <= target < slots.len(),
        occupied(slots, target),
        slots[target].0 == spec_hash_of(header, key),
        spec_points_at(map, compression_type, header.entry_block_bits, slots[target].1) == Ok::<
            Option<Entry<Seq<u8>>>,
            Error,
        >(Some(Entry::Put(key, value))),
        spec_latest(entries, key) == Some(value),
        displaced(slots, target) <= header.max_displacement,
        steps <= displaced(slots, target),
    ensures
        spec_probe(
            slots,
            header,
            map,
            compression_type,
            key,
            spec_hash_of(header, key),
            spec_back(slots.len() as int, target, steps),
            displaced(slots, target) - steps,
        ) == Ok::<Option<Seq<u8>>, Error>(Some(value)),
    decreases steps,
{
    let h = spec_hash_of(header, key);
    let slot = spec_back(slots.len() as int, target, steps);
    let d = displaced(slots, target) - steps;
    lemma_path(slots, target, steps);
    lemma_displacement(slots.len() as int, target, slots[target].0);
    lemma_probe_unfold(slots, header, map, compression_type, key, h, slot, d);
    if steps > 0 {
        assert(occupied(slots, slot));
        assert(pair_sound(header, map, compression_type, entries, slots[slot]));
        lemma_probe_present(
            slots,
            header,
            map,
            compression_type,
            entries,
            key,
            value,
            target,
            (steps - 1) as nat,
        );
    }
}

/// A lookup gives the latest value of a key that is live and nothing for
/// any other key, in an ordered table whose every occupant points at the
/// latest put of its key, which holds every live key, and whose header
/// bounds the displacement of every occupant.
pub proof fn lemma_get(
    slots: Seq<(u64, u64)>,
    header: Header,
    map: Seq<u8>,
    compression_type: CompressionType,
    entries: Seq<Entry<Seq<u8>>>,
    key: Seq<u8>,
)
    requires
        header.hash_capacity == slots.len(),
        slots.len() >= 1,
        ordered(slots),
        table_sound(slots, header, map, compression_type, entries),
        forall|s: int|
            0 <= s < slots.len() && #[trigger] occupied(slots, s) ==> displaced(slots, s)
                <= header.max_displacement,
        spec_latest(entries, key) is Some ==> exists|target: int|
            0 <= target < slots.len() && #[trigger] occupied(slots, target) && slots[target].0
                == spec_hash_of(header, key) && spec_points_at(
                map,
                compression_type,
                header.entry_block_bits,
                slots[target].1,
            ) == Ok::<Option<Entry<Seq<u8>>>, Error>(
                Some(Entry::Put(key, spec_latest(entries, key)->Some_0)),
            ),
    ensures
        spec_get(slots, header, map, compression_type, key) == Ok::<Option<Seq<u8>>, Error>(
            spec_latest(entries, key),
        ),
{
    let h = spec_hash_of(header, key);
    let capacity = slots.len() as int;
    crate::hash::robin_hood::lemma_displacement_start(capacity, h);
    match spec_latest(entries, key) {
        None => {
            lemma_probe_absent(
                slots,
                header,
                map,
                compression_type,
                entries,
                key,
                h as int % capacity,
                0,
            );
        },
        Some(value) => {
            let target = choose|target: int|
                0 <= target < slots.len() && #[trigger] occupied(slots, target)
                    && slots[target].0 == h && spec_points_at(
                    map,
                    compression_type,
                    header.entry_block_bits,
                    slots[target].1,
                ) == Ok::<Option<Entry<Seq<u8>>>, Error>(Some(Entry::Put(key, value)));
            let steps = displaced(slots, target) as nat;
            lemma_displacement(capacity, target, h);
            lemma_path(slots, target, steps);
            let start = spec_back(capacity, target, steps);
            lemma_displacement(capacity, start, h);
            assert(start == h as int % capacity);
            lemma_probe_present(
                slots,
                header,
                map,
                compression_type,
                entries,
                key,
                value,
                target,
                steps,
            );
        },
    }
}


/// A live put is the latest entry of its key: what a full scan of the index
/// hands out for a key is what a lookup of that key gives.
pub proof fn lemma_live_is_latest(entries: Seq<Entry<Seq<u8>>>, i: int)
    requires
        0 <= i < entries.len(),
        crate::hash::reader::spec_is_live(entries, i),
    ensures
        spec_latest(entries, entries[i].spec_key()) == entries[i].spec_value(),
    decreases entries.len(),
{
    if i < entries.len() - 1 {
        let shorter = entries.drop_last();
        assert(entries.last() == entries[entries.len() - 1]);
        assert(entries[entries.len() - 1].spec_key() != entries[i].spec_key());
        assert(shorter[i] == entries[i]);
        assert(crate::hash::reader::spec_is_live(shorter, i)) by {
            assert forall|j: int| i < j < shorter.len() implies (#[trigger] shorter[j]).spec_key()
                != shorter[i].spec_key() by {
                assert(shorter[j] == entries[j]);
            }
        }
        lemma_live_is_latest(shorter, i);
    }
}

} // verus!
