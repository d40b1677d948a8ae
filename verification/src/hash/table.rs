//! The hash table of an index: slots of a stored hash and an encoded
//! position, probed linearly from the slot that the hash names.

use crate::codec::{get_u32, get_u64, spec_u32_at, spec_u64_at};
use crate::error::Error;
use crate::hash::Header;
use crate::log::{CompressionType, EntriesModel, Entry, Reader};
use vstd::prelude::*;

verus! {

/// Whether `a` and `b` hold the same bytes.
pub fn bytes_eq(a: &[u8], b: &[u8]) -> (same: bool)
    ensures
        same == (a@ == b@),
{
    if a.len() != b.len() {
        return false;
    }
    let mut i: usize = 0;
    while i < a.len()
        invariant
            i <= a.len(),
            a.len() == b.len(),
            forall|j: int| 0 <= j < i ==> a@[j] == b@[j],
        decreases a.len() - i,
    {
        if a[i] != b[i] {
            return false;
        }
        i = i + 1;
    }
    proof {
        assert(a@ =~= b@);
    }
    true
}

/// The distance, in slots and around the end of the table, from the slot
/// that `hash` names to `slot`.
pub open spec fn spec_displacement(capacity: int, slot: int, hash: u64) -> int {
    (capacity + slot - (hash as int % capacity)) % capacity
}

/// The distance from the slot that `hash` names to `slot`.
pub fn displacement(capacity: u64, slot: u64, hash: u64) -> (d: u64)
    requires
        0 < capacity <= 0x7fff_ffff_ffff_ffff,
        slot < capacity,
    ensures
        d == spec_displacement(capacity as int, slot as int, hash),
        d < capacity,
{
    (capacity + slot - hash % capacity) % capacity
}

/// The stored hash and the encoded position in slot `i` of the table in the
/// index image `image`. An encoded position of zero marks an empty slot.
pub open spec fn spec_slot_at(image: Seq<u8>, header: Header, i: int) -> (u64, u64) {
    let off = 112 + i * header.slot_size();
    (
        if header.hash_size == 4 {
            spec_u32_at(image, off) as u64
        } else {
            spec_u64_at(image, off)
        },
        if header.address_size == 4 {
            spec_u32_at(image, off + header.hash_size) as u64
        } else {
            spec_u64_at(image, off + header.hash_size)
        },
    )
}

/// The slots of the table in the index image `image`.
pub open spec fn spec_slots(image: Seq<u8>, header: Header) -> Seq<(u64, u64)> {
    Seq::new(header.hash_capacity as nat, |i: int| spec_slot_at(image, header, i))
}

/// Reads slot `i` of the table in `image`.
pub fn slot_at(image: &[u8], header: &Header, i: u64) -> (slot: (u64, u64))
    requires
        header.valid(),
        image@.len() == header.data_end,
        i < header.hash_capacity,
    ensures
        slot == spec_slot_at(image@, *header, i as int),
{
    let slot_size: u64 = (header.hash_size + header.address_size) as u64;
    proof {
        assert(112 + i * slot_size + slot_size <= 112 + header.hash_capacity * slot_size)
            by (nonlinear_arith)
            requires
                i < header.hash_capacity,
                slot_size > 0,
        ;
        assert(image@.len() == image.len());
    }
    let off: usize = (112 + i * slot_size) as usize;
    let hash: u64 = if header.hash_size == 4 {
        get_u32(image, off) as u64
    } else {
        get_u64(image, off)
    };
    let position_off: usize = off + header.hash_size as usize;
    let position: u64 = if header.address_size == 4 {
        get_u32(image, position_off) as u64
    } else {
        get_u64(image, position_off)
    };
    (hash, position)
}

/// The state of a cursor that started at `model` and passed over `n`
/// entries, and whether that failed.
pub open spec fn spec_skip_entries(model: EntriesModel, map: Seq<u8>, n: nat) -> (
    EntriesModel,
    Result<(), Error>,
)
    decreases n,
{
    if n == 0 {
        (model, Ok(()))
    } else {
        match model.spec_skip_next(map) {
            (after, Ok(())) => spec_skip_entries(after, map, (n - 1) as nat),
            (after, Err(e)) => (after, Err(e)),
        }
    }
}

/// The entry that an encoded position names: the one found by starting at
/// `position` in the log `map`, passing over `index` entries and decoding
/// the next. A position at or behind the end of the log names no entry.
#[verifier::opaque]
pub open spec fn spec_entry_at(
    map: Seq<u8>,
    compression_type: CompressionType,
    position: int,
    index: nat,
) -> Result<Option<Entry<Seq<u8>>>, Error> {
    if position >= map.len() {
        Ok(None)
    } else {
        match spec_skip_entries(EntriesModel::at(compression_type, position), map, index) {
            (after, Ok(())) => after.spec_next(map).1,
            (_, Err(e)) => Err(e),
        }
    }
}

/// Finds the entry that an encoded position names.
pub fn entry_at(log: &Reader, position: u64, index: u64) -> (r: Result<
    Option<Entry<Vec<u8>>>,
    Error,
>)
    ensures
        crate::log::next_view(r) == spec_entry_at(
            log.map@,
            log.header.compression_type,
            position as int,
            index as nat,
        ),
{
    proof {
        reveal(spec_entry_at);
    }
    if position >= log.map.len() as u64 {
        return Ok(None);
    }
    let mut entries = log.entries_at(position as usize);
    let mut i: u64 = 0;
    while i < index
        invariant
            i <= index,
            position < log.map@.len(),
            entries.reader() == log,
            spec_skip_entries(
                EntriesModel::at(log.header.compression_type, position as int),
                log.map@,
                index as nat,
            ) == spec_skip_entries(entries@, log.map@, (index - i) as nat),
        decreases index - i,
    {
        let ghost before = entries@;
        match entries.skip_next() {
            Ok(()) => {},
            Err(e) => {
                proof {
                    reveal(spec_entry_at);
                    assert(spec_skip_entries(before, log.map@, (index - i) as nat).1 == Err::<
                        (),
                        Error,
                    >(e));
                }
                return Err(e);
            },
        }
        proof {
            assert(spec_skip_entries(before, log.map@, (index - i) as nat) == spec_skip_entries(
                entries@,
                log.map@,
                (index - i - 1) as nat,
            ));
        }
        i = i + 1;
    }
    proof {
        reveal(spec_entry_at);
    }
    entries.try_next()
}


/// The position of a block and the index of an entry in it, as an encoded
/// position of `bits` index bits holds them: the index in the low bits, the
/// block position above.
pub open spec fn spec_decode_position(encoded: u64, bits: u32) -> (u64, u64) {
    (encoded >> bits, encoded & (((1u64 << bits) - 1) as u64))
}

/// Splits an encoded position into the position of a block and the index of
/// an entry in it.
pub fn decode_position(encoded: u64, bits: u32) -> (r: (u64, u64))
    requires
        bits < 64,
    ensures
        r == spec_decode_position(encoded, bits),
{
    proof {
        assert(bits < 64 ==> (1u64 << bits) >= 1) by (bit_vector);
    }
    (encoded >> bits, encoded & ((1u64 << bits) - 1))
}

/// What one step of a probe for `key` decides at `slot`, `displacement`
/// slots from the slot that its hash `h` names: the outcome, or nothing
/// where the probe goes on to the next slot. The outcome is the value of the
/// put that the slot points at, where the slot stores `h` and that put has
/// this key; nothing at an empty slot and at an occupant that sits closer to
/// its own slot than the probe is to its; a failure where the log does not
/// decode at the position that a slot with this hash points at.
pub open spec fn spec_probe_step(
    slots: Seq<(u64, u64)>,
    header: Header,
    map: Seq<u8>,
    compression_type: CompressionType,
    key: Seq<u8>,
    h: u64,
    slot: int,
    displacement: int,
) -> Option<Result<Option<Seq<u8>>, Error>> {
    let (stored_hash, encoded) = slots[slot];
    if encoded == 0 {
        Some(Ok(None))
    } else {
        let (position, index) = spec_decode_position(encoded, header.entry_block_bits);
        let hit = if stored_hash == h {
            spec_entry_at(map, compression_type, position as int, index as nat)
        } else {
            Ok(None)
        };
        match hit {
            Err(e) => Some(Err(e)),
            Ok(Some(Entry::Put(k, v))) if k == key => Some(Ok(Some(v))),
            _ => {
                if spec_displacement(header.hash_capacity as int, slot, stored_hash)
                    < displacement {
                    Some(Ok(None))
                } else {
                    None
                }
            },
        }
    }
}

/// The slot behind `slot`, around the end of the table.
pub open spec fn spec_next_slot(capacity: int, slot: int) -> int {
    if slot + 1 >= capacity {
        0
    } else {
        slot + 1
    }
}

/// What probing for `key` gives from `slot` on: the outcome of the first
/// step that decides, and nothing past the largest displacement that the
/// header records.
#[verifier::opaque]
pub open spec fn spec_probe(
    slots: Seq<(u64, u64)>,
    header: Header,
    map: Seq<u8>,
    compression_type: CompressionType,
    key: Seq<u8>,
    h: u64,
    slot: int,
    displacement: int,
) -> Result<Option<Seq<u8>>, Error>
    decreases header.max_displacement - displacement + 1,
{
    if displacement > header.max_displacement || displacement < 0 {
        Ok(None)
    } else {
        match spec_probe_step(
            slots,
            header,
            map,
            compression_type,
            key,
            h,
            slot,
            displacement,
        ) {
            Some(outcome) => outcome,
            None => spec_probe(
                slots,
                header,
                map,
                compression_type,
                key,
                h,
                spec_next_slot(header.hash_capacity as int, slot),
                displacement + 1,
            ),
        }
    }
}

/// `spec_probe`, one step unfolded.
pub proof fn lemma_probe_unfold(
    slots: Seq<(u64, u64)>,
    header: Header,
    map: Seq<u8>,
    compression_type: CompressionType,
    key: Seq<u8>,
    h: u64,
    slot: int,
    displacement: int,
)
    ensures
        spec_probe(slots, header, map, compression_type, key, h, slot, displacement) == (if displacement
            > header.max_displacement || displacement < 0 {
            Ok::<Option<Seq<u8>>, Error>(None)
        } else {
            match spec_probe_step(
                slots,
                header,
                map,
                compression_type,
                key,
                h,
                slot,
                displacement,
            ) {
                Some(outcome) => outcome,
                None => spec_probe(
                    slots,
                    header,
                    map,
                    compression_type,
                    key,
                    h,
                    spec_next_slot(header.hash_capacity as int, slot),
                    displacement + 1,
                ),
            }
        }),
{
    reveal(spec_probe);
}

/// What looking `key` up gives: the outcome of probing from the slot that
/// its hash names.
pub open spec fn spec_get(
    slots: Seq<(u64, u64)>,
    header: Header,
    map: Seq<u8>,
    compression_type: CompressionType,
    key: Seq<u8>,
) -> Result<Option<Seq<u8>>, Error> {
    let h = crate::hash::Type::spec_of_size(header.hash_size).spec_hash(key, header.hash_seed);
    spec_probe(
        slots,
        header,
        map,
        compression_type,
        key,
        h,
        h as int % header.hash_capacity as int,
        0,
    )
}

/// The view of what a lookup hands out.
pub open spec fn get_view(r: Result<Option<Vec<u8>>, Error>) -> Result<Option<Seq<u8>>, Error> {
    match r {
        Ok(Some(value)) => Ok(Some(value@)),
        Ok(None) => Ok(None),
        Err(e) => Err(e),
    }
}

/// A table of a valid header has fewer than 2^61 slots.
pub proof fn lemma_capacity_bound(header: Header)
    requires
        header.valid(),
    ensures
        header.hash_capacity <= 0x1fff_ffff_ffff_ffff,
{
    assert(header.hash_capacity <= 0x1fff_ffff_ffff_ffff) by (nonlinear_arith)
        requires
            112 + header.hash_capacity * header.slot_size() <= u64::MAX,
            header.slot_size() >= 8,
    ;
}

/// The view of what a step of a probe hands out.
pub open spec fn step_view(r: Option<Result<Option<Vec<u8>>, Error>>) -> Option<
    Result<Option<Seq<u8>>, Error>,
> {
    match r {
        Some(outcome) => Some(get_view(outcome)),
        None => None,
    }
}

/// Takes one step of a probe for `key`.
pub fn probe_step(
    image: &[u8],
    header: &Header,
    log: &Reader,
    key: &[u8],
    h: u64,
    slot: u64,
    d: u64,
) -> (r: Option<Result<Option<Vec<u8>>, Error>>)
    requires
        header.valid(),
        image@.len() == header.data_end,
        slot < header.hash_capacity,
    ensures
        step_view(r) == spec_probe_step(
            spec_slots(image@, *header),
            *header,
            log.map@,
            log.header.compression_type,
            key@,
            h,
            slot as int,
            d as int,
        ),
{
    proof {
        lemma_capacity_bound(*header);
    }
    let (stored_hash, encoded) = slot_at(image, header, slot);
    if encoded == 0 {
        return Some(Ok(None));
    }
    if stored_hash == h {
        let (position, index) = decode_position(encoded, header.entry_block_bits);
        match entry_at(log, position, index) {
            Err(e) => {
                return Some(Err(e));
            },
            Ok(Some(Entry::Put(k, v))) => {
                if bytes_eq(k.as_slice(), key) {
                    return Some(Ok(Some(v)));
                }
            },
            Ok(_) => {},
        }
    }
    if displacement(header.hash_capacity, slot, stored_hash) < d {
        return Some(Ok(None));
    }
    None
}

/// Looks `key` up in the table of the index image `image` over the log
/// `log`.
pub fn get(image: &[u8], header: &Header, log: &Reader, key: &[u8]) -> (r: Result<
    Option<Vec<u8>>,
    Error,
>)
    requires
        header.valid(),
        image@.len() == header.data_end,
    ensures
        get_view(r) == spec_get(
            spec_slots(image@, *header),
            *header,
            log.map@,
            log.header.compression_type,
            key@,
        ),
{
    let h: u64 = crate::hash::Type::of_size(header.hash_size).hash(key, header.hash_seed);
    let capacity: u64 = header.hash_capacity;
    let mut slot: u64 = h % capacity;
    let mut d: u64 = 0;
    let ghost slots = spec_slots(image@, *header);
    let ghost map = log.map@;
    let ghost ctype = log.header.compression_type;
    let ghost goal = spec_get(slots, *header, map, ctype, key@);
    while d <= header.max_displacement
        invariant
            header.valid(),
            image@.len() == header.data_end,
            capacity == header.hash_capacity,
            slot < capacity,
            slots == spec_slots(image@, *header),
            map == log.map@,
            ctype == log.header.compression_type,
            goal == spec_get(slots, *header, map, ctype, key@),
            goal == spec_probe(slots, *header, map, ctype, key@, h, slot as int, d as int),
        decreases header.max_displacement - d,
    {
        proof {
            lemma_probe_unfold(slots, *header, map, ctype, key@, h, slot as int, d as int);
            lemma_probe_unfold(
                slots,
                *header,
                map,
                ctype,
                key@,
                h,
                spec_next_slot(capacity as int, slot as int),
                d + 1,
            );
        }
        match probe_step(image, header, log, key, h, slot, d) {
            Some(outcome) => {
                return outcome;
            },
            None => {},
        }
        if d == header.max_displacement {
            return Ok(None);
        }
        slot = if slot + 1 >= capacity {
            0
        } else {
            slot + 1
        };
        d = d + 1;
    }
    proof {
        lemma_probe_unfold(slots, *header, map, ctype, key@, h, slot as int, d as int);
    }
    Ok(None)
}

} // verus!
