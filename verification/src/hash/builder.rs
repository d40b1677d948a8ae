//! Building an index: the log is scanned once into a dictionary that keeps
//! the latest entry of every key, a table is sized for the keys that are
//! live, and each of them is inserted by Robin-Hood probing.

use crate::codec::{put_u32, put_u64};
use crate::error::Error;
use crate::hash::table::{bytes_eq, displacement, spec_displacement, spec_next_slot};
use crate::hash::{Header, Type, HEADER_SIZE, MAJOR_VERSION, MINOR_VERSION};
use crate::log::{EntriesModel, Entry, Reader};
use crate::util::EFBIG;
use vstd::bytes::{spec_u32_to_le_bytes, spec_u64_to_le_bytes};
use vstd::prelude::*;

verus! {

/// The number of bits that it takes to write `m`: the least `b` with
/// `m < 2^b`.
pub open spec fn spec_bit_length(m: u32) -> u32
    decreases m,
{
    if m == 0 {
        0
    } else {
        (1 + spec_bit_length(m / 2)) as u32
    }
}

/// The number of bits it takes to write a number is at most the width of
/// the number.
pub proof fn lemma_bit_length_bound(m: u32, width: u32)
    requires
        width <= 32,
        m as int <= vstd::arithmetic::power2::pow2(width as nat) - 1,
    ensures
        spec_bit_length(m) <= width,
    decreases m,
{
    if m != 0 {
        vstd::arithmetic::power2::lemma2_to64();
        if width == 0 {
            assert(vstd::arithmetic::power2::pow2(0) == 1);
        } else {
            vstd::arithmetic::power2::lemma_pow2_unfold(width as nat);
            lemma_bit_length_bound(m / 2, (width - 1) as u32);
        }
    }
}

/// The number of bits that it takes to write `m`.
pub fn bit_length(m: u32) -> (bits: u32)
    ensures
        bits == spec_bit_length(m),
        bits <= 32,
{
    proof {
        vstd::arithmetic::power2::lemma2_to64();
        lemma_bit_length_bound(m, 32);
    }
    let mut rest: u32 = m;
    let mut bits: u32 = 0;
    while rest != 0
        invariant
            spec_bit_length(m) == bits + spec_bit_length(rest),
            spec_bit_length(m) <= 32,
        decreases rest,
    {
        proof {
            vstd::arithmetic::power2::lemma2_to64();
            lemma_bit_length_bound(rest / 2, 32);
        }
        rest = rest / 2;
        bits = bits + 1;
    }
    bits
}

/// The encoded position of the entry with index `index` in the block at
/// `location`: the index in the low `bits` bits, the location above. An
/// index that `bits` bits cannot hold means that a block holds more entries
/// than the log's header admits: `LogHeaderCorrupt`. A position that the
/// address width cannot hold is `AddressSizeInvalid`.
pub open spec fn spec_encode_position(location: u64, index: u64, bits: u32, address_size: u32)
    -> Result<u64, Error> {
    let mask = ((1u64 << bits) - 1) as u64;
    if index > mask {
        Err(Error::LogHeaderCorrupt)
    } else if location > (u64::MAX >> bits) {
        Err(Error::AddressSizeInvalid)
    } else {
        let encoded = (location << bits) | index;
        if address_size == 4 && encoded > 0xffff_ffff {
            Err(Error::AddressSizeInvalid)
        } else {
            Ok(encoded)
        }
    }
}

/// Encodes the position of the entry with index `index` in the block at
/// `location`.
pub fn encode_position(location: u64, index: u64, bits: u32, address_size: u32) -> (r: Result<
    u64,
    Error,
>)
    requires
        bits < 64,
    ensures
        r == spec_encode_position(location, index, bits, address_size),
{
    proof {
        assert(bits < 64 ==> (1u64 << bits) >= 1) by (bit_vector);
    }
    let mask: u64 = (1u64 << bits) - 1;
    if index > mask {
        return Err(Error::LogHeaderCorrupt);
    }
    if location > (u64::MAX >> bits) {
        return Err(Error::AddressSizeInvalid);
    }
    let encoded: u64 = (location << bits) | index;
    if address_size == 4 && encoded > 0xffff_ffff {
        return Err(Error::AddressSizeInvalid);
    }
    Ok(encoded)
}

/// The dictionary that a scan of the log builds: for every key that was
/// put, in the order of first appearance, the encoded position of its latest
/// put and whether that put is still its latest entry.
pub struct DictModel {
    pub keys: Seq<Seq<u8>>,
    pub positions: Seq<u64>,
    pub live: Seq<bool>,
}

impl DictModel {
    /// The three columns have one length.
    pub open spec fn wf(self) -> bool {
        self.keys.len() == self.positions.len() && self.keys.len() == self.live.len()
    }

    /// The dictionary without any key.
    pub open spec fn empty() -> DictModel {
        DictModel { keys: Seq::empty(), positions: Seq::empty(), live: Seq::empty() }
    }

    /// The first row at or behind `from` that holds `key`, or the number of
    /// rows where there is none.
    pub open spec fn spec_find(self, key: Seq<u8>, from: int) -> int
        decreases self.keys.len() - from,
    {
        if from < 0 || from >= self.keys.len() {
            self.keys.len() as int
        } else if self.keys[from] == key {
            from
        } else {
            self.spec_find(key, from + 1)
        }
    }

    /// The dictionary after one more entry of the log, which was found at
    /// the encoded position `position`: a put makes its key live at that
    /// position, a delete makes its key dead where the dictionary holds it.
    pub open spec fn spec_record(self, entry: Entry<Seq<u8>>, position: u64) -> DictModel {
        let row = self.spec_find(entry.spec_key(), 0);
        match entry {
            Entry::Put(key, _) => {
                if row < self.keys.len() {
                    DictModel {
                        keys: self.keys,
                        positions: self.positions.update(row, position),
                        live: self.live.update(row, true),
                    }
                } else {
                    DictModel {
                        keys: self.keys.push(key),
                        positions: self.positions.push(position),
                        live: self.live.push(true),
                    }
                }
            },
            Entry::Delete(_) => {
                if row < self.keys.len() {
                    DictModel { live: self.live.update(row, false), ..self }
                } else {
                    self
                }
            },
        }
    }

    /// The number of live keys among the rows from `from` on.
    pub open spec fn spec_live_count(self, from: int) -> nat
        decreases self.live.len() - from,
    {
        if from < 0 || from >= self.live.len() {
            0
        } else if self.live[from] {
            1 + self.spec_live_count(from + 1)
        } else {
            self.spec_live_count(from + 1)
        }
    }
}

/// The dictionary that a scan of the log builds.
pub struct Dict {
    pub keys: Vec<Vec<u8>>,
    pub positions: Vec<u64>,
    pub live: Vec<bool>,
}

impl View for Dict {
    type V = DictModel;

    open spec fn view(&self) -> DictModel {
        DictModel {
            keys: Seq::new(self.keys@.len(), |i: int| self.keys@[i]@),
            positions: self.positions@,
            live: self.live@,
        }
    }
}

impl Dict {
    /// The dictionary without any key.
    pub fn new() -> (d: Dict)
        ensures
            d@ == DictModel::empty(),
            d@.wf(),
    {
        let d = Dict { keys: Vec::new(), positions: Vec::new(), live: Vec::new() };
        proof {
            assert(d@.keys =~= Seq::<Seq<u8>>::empty());
        }
        d
    }

    /// The first row that holds `key`, or the number of rows where there is
    /// none.
    pub fn find(&self, key: &[u8]) -> (row: usize)
        requires
            self@.wf(),
        ensures
            row == self@.spec_find(key@, 0),
            row <= self.keys@.len(),
    {
        let mut i: usize = 0;
        while i < self.keys.len()
            invariant
                i <= self.keys@.len(),
                self@.spec_find(key@, 0) == self@.spec_find(key@, i as int),
            decreases self.keys.len() - i,
        {
            if bytes_eq(self.keys[i].as_slice(), key) {
                return i;
            }
            i = i + 1;
        }
        i
    }

    /// Takes note of one more entry of the log, which was found at the
    /// encoded position `position`.
    pub fn record(&mut self, entry: Entry<Vec<u8>>, position: u64)
        requires
            old(self)@.wf(),
        ensures
            final(self)@ == old(self)@.spec_record(entry@, position),
            final(self)@.wf(),
    {
        let row: usize = self.find(entry.key().as_slice());
        match entry {
            Entry::Put(key, _) => {
                if row < self.keys.len() {
                    self.positions.set(row, position);
                    self.live.set(row, true);
                    proof {
                        assert(self@.keys =~= old(self)@.keys);
                    }
                } else {
                    self.keys.push(key);
                    self.positions.push(position);
                    self.live.push(true);
                    proof {
                        assert(self@.keys =~= old(self)@.keys.push(key@));
                    }
                }
            },
            Entry::Delete(_) => {
                if row < self.keys.len() {
                    self.live.set(row, false);
                    proof {
                        assert(self@.keys =~= old(self)@.keys);
                    }
                }
            },
        }
    }

    /// The number of live keys.
    pub fn live_count(&self) -> (n: usize)
        requires
            self@.wf(),
        ensures
            n == self@.spec_live_count(0),
    {
        let mut n: usize = 0;
        let mut i: usize = self.live.len();
        while i > 0
            invariant
                i <= self.live@.len(),
                self.live@.len() <= usize::MAX,
                n == self@.spec_live_count(i as int),
                n <= self.live@.len() - i,
            decreases i,
        {
            i = i - 1;
            if self.live[i] {
                n = n + 1;
            }
        }
        n
    }
}

/// What scanning the rest of the log gives, from the cursor state `model`
/// on: the dictionary `dict` after every entry still to come, or the first
/// failure. Each entry is recorded at its encoded position: the position
/// that locates it and its index among the entries with that location,
/// where `location` is the location of the entry before and `count` the
/// number of entries seen there.
#[verifier::opaque]
pub open spec fn spec_scan(
    model: EntriesModel,
    map: Seq<u8>,
    bits: u32,
    address_size: u32,
    dict: DictModel,
    location: u64,
    count: u64,
) -> Result<DictModel, Error>
    decreases model.left(map), model.unread_len(),
    via spec_scan_decreases
{
    match model.spec_next_located(map) {
        (_, Err(e)) => Err(e),
        (_, Ok(None)) => Ok(dict),
        (after, Ok(Some((entry, found)))) => {
            let index = if found == location {
                count
            } else {
                0
            };
            match spec_encode_position(found as u64, index, bits, address_size) {
                Err(e) => Err(e),
                Ok(position) => spec_scan(
                    after,
                    map,
                    bits,
                    address_size,
                    dict.spec_record(entry, position),
                    found as u64,
                    (index + 1) as u64,
                ),
            }
        },
    }
}

#[via_fn]
proof fn spec_scan_decreases(
    model: EntriesModel,
    map: Seq<u8>,
    bits: u32,
    address_size: u32,
    dict: DictModel,
    location: u64,
    count: u64,
) {
    model.lemma_next_progress(map);
}

/// `spec_scan`, one entry unfolded.
pub proof fn lemma_scan_unfold(
    model: EntriesModel,
    map: Seq<u8>,
    bits: u32,
    address_size: u32,
    dict: DictModel,
    location: u64,
    count: u64,
)
    ensures
        spec_scan(model, map, bits, address_size, dict, location, count) == (match model.spec_next_located(
            map,
        ) {
            (_, Err(e)) => Err::<DictModel, Error>(e),
            (_, Ok(None)) => Ok(dict),
            (after, Ok(Some((entry, found)))) => {
                let index = if found == location {
                    count
                } else {
                    0
                };
                match spec_encode_position(found as u64, index, bits, address_size) {
                    Err(e) => Err(e),
                    Ok(position) => spec_scan(
                        after,
                        map,
                        bits,
                        address_size,
                        dict.spec_record(entry, position),
                        found as u64,
                        (index + 1) as u64,
                    ),
                }
            },
        }),
{
    reveal(spec_scan);
}

/// Scans the log into a dictionary.
pub fn scan(log: &Reader, bits: u32, address_size: u32) -> (r: Result<Dict, Error>)
    requires
        bits <= 32,
    ensures
        match r {
            Ok(dict) => spec_scan(
                EntriesModel::at(log.header.compression_type, log.header.header_size as int),
                log.map@,
                bits,
                address_size,
                DictModel::empty(),
                0,
                0,
            ) == Ok::<DictModel, Error>(dict@) && dict@.wf(),
            Err(e) => spec_scan(
                EntriesModel::at(log.header.compression_type, log.header.header_size as int),
                log.map@,
                bits,
                address_size,
                DictModel::empty(),
                0,
                0,
            ) == Err::<DictModel, Error>(e),
        },
{
    let mut cursor = log.entries();
    let mut dict = Dict::new();
    let mut location: u64 = 0;
    let mut count: u64 = 0;
    let ghost map = log.map@;
    let ghost goal = spec_scan(cursor@, map, bits, address_size, dict@, 0, 0);
    loop
        invariant
            bits <= 32,
            cursor.reader() == log,
            map == log.map@,
            dict@.wf(),
            count <= 0x1_0000_0000,
            goal == spec_scan(
                EntriesModel::at(log.header.compression_type, log.header.header_size as int),
                map,
                bits,
                address_size,
                DictModel::empty(),
                0,
                0,
            ),
            goal == spec_scan(cursor@, map, bits, address_size, dict@, location, count),
        decreases cursor@.left(map), cursor@.unread_len(),
    {
        proof {
            lemma_scan_unfold(cursor@, map, bits, address_size, dict@, location, count);
            cursor@.lemma_next_progress(map);
        }
        match cursor.try_next_located() {
            Err(e) => {
                return Err(e);
            },
            Ok(None) => {
                return Ok(dict);
            },
            Ok(Some((entry, found))) => {
                let index: u64 = if found as u64 == location {
                    count
                } else {
                    0
                };
                let position = match encode_position(found as u64, index, bits, address_size) {
                    Ok(p) => p,
                    Err(e) => {
                        return Err(e);
                    },
                };
                proof {
                    assert(bits <= 32 ==> ((1u64 << bits) - 1) as u64 <= 0xffff_ffff)
                        by (bit_vector);
                }
                dict.record(entry, position);
                location = found as u64;
                count = index + 1;
            },
        }
    }
}


/// `c + 1`, or the largest 64-bit number where `c` is that already.
pub open spec fn spec_bump(c: u64) -> u64 {
    if c == u64::MAX {
        c
    } else {
        (c + 1) as u64
    }
}

/// What inserting the pair of `hash` and `position` gives, probing from
/// `slot` on, `d` slots from the slot that `hash` names, with `fuel` probes
/// to go: the slots afterwards and the number of collisions, or nothing
/// where the probes run out. An empty slot takes the pair. An occupant that
/// sits closer to its own slot than the pair is to its gives way: the pair
/// takes the slot and the occupant is inserted further on. A probe that
/// meets an occupant with the hash that is being inserted counts as a
/// collision.
#[verifier::opaque]
pub open spec fn spec_insert(
    slots: Seq<(u64, u64)>,
    collisions: u64,
    hash: u64,
    position: u64,
    slot: int,
    d: int,
    fuel: nat,
) -> Option<(Seq<(u64, u64)>, u64)>
    decreases fuel,
{
    if fuel == 0 {
        None
    } else {
        let (stored_hash, stored_position) = slots[slot];
        if stored_position == 0 {
            Some((slots.update(slot, (hash, position)), collisions))
        } else {
            let counted = if stored_hash == hash {
                spec_bump(collisions)
            } else {
                collisions
            };
            let occupant = spec_displacement(slots.len() as int, slot, stored_hash);
            let next = spec_next_slot(slots.len() as int, slot);
            if occupant < d {
                spec_insert(
                    slots.update(slot, (hash, position)),
                    counted,
                    stored_hash,
                    stored_position,
                    next,
                    occupant + 1,
                    (fuel - 1) as nat,
                )
            } else {
                spec_insert(slots, counted, hash, position, next, d + 1, (fuel - 1) as nat)
            }
        }
    }
}

/// `spec_insert`, one probe unfolded.
pub proof fn lemma_insert_unfold(
    slots: Seq<(u64, u64)>,
    collisions: u64,
    hash: u64,
    position: u64,
    slot: int,
    d: int,
    fuel: nat,
)
    ensures
        spec_insert(slots, collisions, hash, position, slot, d, fuel) == (if fuel == 0 {
            None::<(Seq<(u64, u64)>, u64)>
        } else {
            let (stored_hash, stored_position) = slots[slot];
            if stored_position == 0 {
                Some((slots.update(slot, (hash, position)), collisions))
            } else {
                let counted = if stored_hash == hash {
                    spec_bump(collisions)
                } else {
                    collisions
                };
                let occupant = spec_displacement(slots.len() as int, slot, stored_hash);
                let next = spec_next_slot(slots.len() as int, slot);
                if occupant < d {
                    spec_insert(
                        slots.update(slot, (hash, position)),
                        counted,
                        stored_hash,
                        stored_position,
                        next,
                        occupant + 1,
                        (fuel - 1) as nat,
                    )
                } else {
                    spec_insert(slots, counted, hash, position, next, d + 1, (fuel - 1) as nat)
                }
            }
        }),
{
    reveal(spec_insert);
}

/// Inserts the pair of `hash` and `position` into `table`. Gives the number
/// of collisions afterwards, or nothing where the table has no room.
pub fn insert(table: &mut Vec<(u64, u64)>, collisions: u64, hash: u64, position: u64) -> (r:
    Option<u64>)
    requires
        1 <= old(table)@.len() <= 0x1fff_ffff_ffff_ffff,
    ensures
        final(table)@.len() == old(table)@.len(),
        match spec_insert(
            old(table)@,
            collisions,
            hash,
            position,
            hash as int % old(table)@.len() as int,
            0,
            old(table)@.len(),
        ) {
            Some((slots, counted)) => r == Some(counted) && final(table)@ == slots,
            None => r is None,
        },
{
    let capacity: u64 = table.len() as u64;
    let mut h: u64 = hash;
    let mut p: u64 = position;
    let mut slot: u64 = hash % capacity;
    let mut d: u64 = 0;
    let mut c: u64 = collisions;
    let mut fuel: u64 = capacity;
    let ghost goal = spec_insert(
        table@,
        collisions,
        hash,
        position,
        hash as int % table@.len() as int,
        0,
        table@.len(),
    );
    while fuel > 0
        invariant
            table@.len() == capacity,
            table@.len() == old(table)@.len(),
            capacity <= usize::MAX,
            goal == spec_insert(
                old(table)@,
                collisions,
                hash,
                position,
                hash as int % old(table)@.len() as int,
                0,
                old(table)@.len(),
            ),
            1 <= capacity <= 0x1fff_ffff_ffff_ffff,
            slot < capacity,
            fuel <= capacity,
            d <= capacity - fuel,
            goal == spec_insert(table@, c, h, p, slot as int, d as int, fuel as nat),
        decreases fuel,
    {
        proof {
            lemma_insert_unfold(table@, c, h, p, slot as int, d as int, fuel as nat);
        }
        let (stored_hash, stored_position) = table[slot as usize];
        if stored_position == 0 {
            table.set(slot as usize, (h, p));
            return Some(c);
        }
        if stored_hash == h && c < u64::MAX {
            c = c + 1;
        }
        let occupant: u64 = displacement(capacity, slot, stored_hash);
        if occupant < d {
            table.set(slot as usize, (h, p));
            h = stored_hash;
            p = stored_position;
            d = occupant + 1;
        } else {
            d = d + 1;
        }
        slot = if slot + 1 >= capacity {
            0
        } else {
            slot + 1
        };
        fuel = fuel - 1;
    }
    proof {
        lemma_insert_unfold(table@, c, h, p, slot as int, d as int, 0);
    }
    None
}

/// What inserting the live keys of `dict` from row `from` on gives, each
/// under its hash of kind `hash_type` with `seed`: the slots afterwards and
/// the number of collisions, or nothing where the table has no room.
pub open spec fn spec_fill(
    dict: DictModel,
    from: int,
    hash_type: Type,
    seed: u32,
    slots: Seq<(u64, u64)>,
    collisions: u64,
) -> Option<(Seq<(u64, u64)>, u64)>
    decreases dict.keys.len() - from,
{
    if from < 0 || from >= dict.keys.len() {
        Some((slots, collisions))
    } else if dict.live[from] {
        let hash = hash_type.spec_hash(dict.keys[from], seed);
        match spec_insert(
            slots,
            collisions,
            hash,
            dict.positions[from],
            hash as int % slots.len() as int,
            0,
            slots.len(),
        ) {
            None => None,
            Some((after, counted)) => spec_fill(dict, from + 1, hash_type, seed, after, counted),
        }
    } else {
        spec_fill(dict, from + 1, hash_type, seed, slots, collisions)
    }
}

/// Inserts the live keys of `dict` into `table`. Gives the number of
/// collisions, or nothing where the table has no room.
pub fn fill(dict: &Dict, hash_type: Type, seed: u32, table: &mut Vec<(u64, u64)>) -> (r: Option<
    u64,
>)
    requires
        dict@.wf(),
        1 <= old(table)@.len() <= 0x1fff_ffff_ffff_ffff,
    ensures
        final(table)@.len() == old(table)@.len(),
        match spec_fill(dict@, 0, hash_type, seed, old(table)@, 0) {
            Some((slots, counted)) => r == Some(counted) && final(table)@ == slots,
            None => r is None,
        },
{
    let mut collisions: u64 = 0;
    let mut i: usize = 0;
    let ghost goal = spec_fill(dict@, 0, hash_type, seed, table@, 0);
    while i < dict.keys.len()
        invariant
            dict@.wf(),
            i <= dict.keys@.len(),
            table@.len() == old(table)@.len(),
            1 <= table@.len() <= 0x1fff_ffff_ffff_ffff,
            goal == spec_fill(dict@, 0, hash_type, seed, old(table)@, 0),
            goal == spec_fill(dict@, i as int, hash_type, seed, table@, collisions),
        decreases dict.keys.len() - i,
    {
        if dict.live[i] {
            let hash: u64 = hash_type.hash(dict.keys[i].as_slice(), seed);
            match insert(table, collisions, hash, dict.positions[i]) {
                Some(counted) => {
                    collisions = counted;
                },
                None => {
                    return None;
                },
            }
        }
        i = i + 1;
    }
    Some(collisions)
}

/// The largest displacement among the occupants of the first `n` slots.
pub open spec fn spec_max_displacement(slots: Seq<(u64, u64)>, n: nat) -> int
    decreases n,
{
    if n == 0 {
        0
    } else {
        let rest = spec_max_displacement(slots, (n - 1) as nat);
        let (hash, position) = slots[n - 1];
        let here = spec_displacement(slots.len() as int, n - 1, hash);
        if position != 0 && here > rest {
            here
        } else {
            rest
        }
    }
}

/// The sum of the displacements of the occupants of the first `n` slots.
pub open spec fn spec_total_displacement(slots: Seq<(u64, u64)>, n: nat) -> int
    decreases n,
{
    if n == 0 {
        0
    } else {
        let rest = spec_total_displacement(slots, (n - 1) as nat);
        let (hash, position) = slots[n - 1];
        if position != 0 {
            rest + spec_displacement(slots.len() as int, n - 1, hash)
        } else {
            rest
        }
    }
}

/// `total`, or the largest 64-bit number where `total` passes it.
pub open spec fn spec_clamp(total: int) -> u64 {
    if total > u64::MAX {
        u64::MAX
    } else {
        total as u64
    }
}

/// The largest displacement in `table`, and the sum of all of them, which
/// stops at the largest 64-bit number.
pub fn displacements(table: &Vec<(u64, u64)>) -> (r: (u64, u64))
    requires
        1 <= table@.len() <= 0x1fff_ffff_ffff_ffff,
    ensures
        r.0 == spec_max_displacement(table@, table@.len()),
        r.1 == spec_clamp(spec_total_displacement(table@, table@.len())),
{
    let capacity: u64 = table.len() as u64;
    let mut largest: u64 = 0;
    let mut total: u64 = 0;
    let mut i: usize = 0;
    while i < table.len()
        invariant
            i <= table@.len(),
            capacity == table@.len(),
            1 <= capacity <= 0x1fff_ffff_ffff_ffff,
            largest == spec_max_displacement(table@, i as nat),
            largest < capacity,
            0 <= spec_total_displacement(table@, i as nat),
            total == spec_clamp(spec_total_displacement(table@, i as nat)),
        decreases table.len() - i,
    {
        let (hash, position) = table[i];
        if position != 0 {
            let here: u64 = displacement(capacity, i as u64, hash);
            if here > largest {
                largest = here;
            }
            total = total.saturating_add(here);
        }
        i = i + 1;
    }
    (largest, total)
}

/// The number of slots in a table for `live` keys: thirteen tenths of
/// their number, rounded up, which fills the table to at most ten
/// thirteenths; one slot where there is no key.
pub open spec fn spec_capacity(live: nat) -> nat {
    if live == 0 {
        1
    } else {
        (live * 13 + 9) / 10
    }
}

/// The bytes that store one slot: the hash in `hash_size` bytes, then the
/// encoded position in `address_size` bytes, both little-endian.
pub open spec fn spec_slot_bytes(slot: (u64, u64), hash_size: u32, address_size: u32) -> Seq<u8> {
    (if hash_size == 4 {
        spec_u32_to_le_bytes(slot.0 as u32)
    } else {
        spec_u64_to_le_bytes(slot.0)
    }) + (if address_size == 4 {
        spec_u32_to_le_bytes(slot.1 as u32)
    } else {
        spec_u64_to_le_bytes(slot.1)
    })
}

/// The bytes that store the first `n` slots.
pub open spec fn spec_table_bytes(slots: Seq<(u64, u64)>, n: nat, hash_size: u32, address_size: u32)
    -> Seq<u8>
    decreases n,
{
    if n == 0 {
        Seq::empty()
    } else {
        spec_table_bytes(slots, (n - 1) as nat, hash_size, address_size) + spec_slot_bytes(
            slots[n - 1],
            hash_size,
            address_size,
        )
    }
}

/// Appends the bytes that store `table` to `out`.
pub fn emit_table(out: &mut Vec<u8>, table: &Vec<(u64, u64)>, hash_size: u32, address_size: u32)
    ensures
        final(out)@ == old(out)@ + spec_table_bytes(
            table@,
            table@.len(),
            hash_size,
            address_size,
        ),
{
    let mut i: usize = 0;
    proof {
        assert(out@ =~= old(out)@ + spec_table_bytes(table@, 0, hash_size, address_size));
    }
    while i < table.len()
        invariant
            i <= table@.len(),
            out@ == old(out)@ + spec_table_bytes(table@, i as nat, hash_size, address_size),
        decreases table.len() - i,
    {
        let (hash, position) = table[i];
        let ghost before = out@;
        if hash_size == 4 {
            put_u32(out, #[verifier::truncate] (hash as u32));
        } else {
            put_u64(out, hash);
        }
        if address_size == 4 {
            put_u32(out, #[verifier::truncate] (position as u32));
        } else {
            put_u64(out, position);
        }
        proof {
            let done = spec_table_bytes(table@, i as nat, hash_size, address_size);
            let one = spec_slot_bytes(table@[i as int], hash_size, address_size);
            assert(out@ =~= old(out)@ + (done + one));
        }
        i = i + 1;
    }
}

/// The hash function that an index is built with where none is asked for:
/// the 32-bit one for a log of fewer than 2^23 puts, the 64-bit one else.
pub open spec fn spec_default_type(num_puts: u64) -> Type {
    if num_puts < 0x80_0000 {
        Type::Murmur3_32
    } else {
        Type::Murmur3_64
    }
}

/// The header of the index that is built over a log with the header `log`,
/// with a table of `slots` for `live` keys.
pub open spec fn spec_index_header(
    log: crate::log::Header,
    hash_type: Type,
    hash_seed: u32,
    address_size: u32,
    bits: u32,
    live: nat,
    slots: Seq<(u64, u64)>,
    collisions: u64,
) -> Header {
    Header {
        major_version: MAJOR_VERSION,
        minor_version: MINOR_VERSION,
        file_identifier: log.file_identifier,
        hash_seed,
        data_end: (HEADER_SIZE + slots.len() * (hash_type.spec_raw() + address_size)) as u64,
        max_key_len: log.max_key_len,
        max_value_len: log.max_value_len,
        num_puts: log.num_puts,
        garbage_size: 0,
        num_entries: live as u64,
        address_size,
        hash_size: hash_type.spec_raw(),
        hash_capacity: slots.len() as u64,
        max_displacement: spec_max_displacement(slots, slots.len()) as u64,
        entry_block_bits: bits,
        hash_collisions: collisions,
        total_displacement: spec_clamp(spec_total_displacement(slots, slots.len())),
    }
}

/// The width of the addresses in the index over a log that ends at
/// `data_end`: four bytes where that fits 32 bits, else eight.
pub open spec fn spec_address_size(data_end: u64) -> u32 {
    if data_end < 0x1_0000_0000 {
        4
    } else {
        8
    }
}

/// The image of the index over the log with header `log` and bytes `map`:
/// a failure of scanning the log; `IO(EFBIG)` where the image would pass
/// the largest size of an object in memory; else the header and the table
/// that inserting every live key gives.
pub open spec fn spec_write(
    log: crate::log::Header,
    map: Seq<u8>,
    hash_type: Option<Type>,
    hash_seed: u32,
) -> Result<Seq<u8>, Error> {
    let kind = match hash_type {
        Some(t) => t,
        None => spec_default_type(log.num_puts),
    };
    let bits = spec_bit_length(log.max_entries_per_block);
    let address_size = spec_address_size(log.data_end);
    match spec_scan(
        EntriesModel::at(log.compression_type, log.header_size as int),
        map,
        bits,
        address_size,
        DictModel::empty(),
        0,
        0,
    ) {
        Err(e) => Err(e),
        Ok(dict) => {
            let live = dict.spec_live_count(0);
            let capacity = spec_capacity(live);
            if HEADER_SIZE + capacity * (kind.spec_raw() + address_size) > usize::MAX {
                Err(Error::IO(EFBIG))
            } else {
                match spec_fill(dict, 0, kind, hash_seed, spec_empty_table(capacity), 0) {
                    None => Err(Error::Internal),
                    Some((slots, collisions)) => {
                        let header = spec_index_header(
                            log,
                            kind,
                            hash_seed,
                            address_size,
                            bits,
                            live,
                            slots,
                            collisions,
                        );
                        Ok(header.spec_bytes() + spec_table_bytes(
                            slots,
                            slots.len(),
                            kind.spec_raw(),
                            address_size,
                        ))
                    },
                }
            }
        },
    }
}

/// The view of what building an index hands out.
pub open spec fn write_view(r: Result<Vec<u8>, Error>) -> Result<Seq<u8>, Error> {
    match r {
        Ok(image) => Ok(image@),
        Err(e) => Err(e),
    }
}

/// A table of `capacity` empty slots.
pub open spec fn spec_empty_table(capacity: nat) -> Seq<(u64, u64)> {
    Seq::new(capacity, |i: int| (0u64, 0u64))
}

/// A table of `capacity` empty slots.
fn empty_table(capacity: usize) -> (table: Vec<(u64, u64)>)
    ensures
        table@ == spec_empty_table(capacity as nat),
{
    let mut table: Vec<(u64, u64)> = Vec::new();
    while table.len() < capacity
        invariant
            table@.len() <= capacity,
            forall|i: int| 0 <= i < table@.len() ==> table@[i] == (0u64, 0u64),
        decreases capacity - table.len(),
    {
        table.push((0u64, 0u64));
    }
    proof {
        assert(table@ =~= spec_empty_table(capacity as nat));
    }
    table
}

/// The builder of indexes.
#[derive(Debug)]
pub struct Writer;

impl Writer {
    /// Builds the image of the index over `log`, with the hash function
    /// `hash_type`, or the default one where none is given, and the seed
    /// `hash_seed`, which the caller picks at random.
    pub fn write(log: &Reader, hash_type: Option<Type>, hash_seed: u32) -> (r: Result<
        Vec<u8>,
        Error,
    >)
        ensures
            write_view(r) == spec_write(log.header, log.map@, hash_type, hash_seed),
    {
        let kind = match hash_type {
            Some(t) => t,
            None => if log.header.num_puts < 0x80_0000 {
                Type::Murmur3_32
            } else {
                Type::Murmur3_64
            },
        };
        let bits: u32 = bit_length(log.header.max_entries_per_block);
        let address_size: u32 = if log.header.data_end < 0x1_0000_0000 {
            4
        } else {
            8
        };
        let dict = match scan(log, bits, address_size) {
            Ok(dict) => dict,
            Err(e) => {
                return Err(e);
            },
        };
        let live: usize = dict.live_count();
        let capacity: u128 = if live == 0 {
            1
        } else {
            (live as u128 * 13 + 9) / 10
        };
        let slot_size: u32 = kind.as_raw() + address_size;
        proof {
            assert(capacity * slot_size <= 0x20_0000_0000_0000_0000) by (nonlinear_arith)
                requires
                    capacity <= 0x2_0000_0000_0000_0000,
                    slot_size <= 16,
            ;
        }
        let size: u128 = 112 + capacity * slot_size as u128;
        if size > usize::MAX as u128 {
            return Err(Error::IO(EFBIG));
        }
        proof {
            assert(capacity <= 0x1fff_ffff_ffff_ffff) by (nonlinear_arith)
                requires
                    112 + capacity * slot_size <= u64::MAX,
                    slot_size >= 8,
            ;
            assert(capacity <= usize::MAX) by (nonlinear_arith)
                requires
                    112 + capacity * slot_size <= usize::MAX,
                    slot_size >= 8,
            ;
        }
        let mut table = empty_table(capacity as usize);
        let collisions = match fill(&dict, kind, hash_seed, &mut table) {
            Some(c) => c,
            None => {
                return Err(Error::Internal);
            },
        };
        let (max_displacement, total_displacement) = displacements(&table);
        let header = Header {
            major_version: MAJOR_VERSION,
            minor_version: MINOR_VERSION,
            file_identifier: log.header.file_identifier,
            hash_seed,
            data_end: size as u64,
            max_key_len: log.header.max_key_len,
            max_value_len: log.header.max_value_len,
            num_puts: log.header.num_puts,
            garbage_size: 0,
            num_entries: live as u64,
            address_size,
            hash_size: kind.as_raw(),
            hash_capacity: capacity as u64,
            max_displacement,
            entry_block_bits: bits,
            hash_collisions: collisions,
            total_displacement,
        };
        let mut out = header.to_bytes();
        emit_table(&mut out, &table, kind.as_raw(), address_size);
        Ok(out)
    }
}

} // verus!
