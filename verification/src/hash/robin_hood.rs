//! Why probing finds what Robin-Hood insertion stored: the order that
//! insertion keeps among the occupants of a table, and what a probe meets
//! in a table that has it.

use crate::hash::builder::{
    lemma_insert_unfold, spec_fill, spec_insert, spec_max_displacement, DictModel,
};
use crate::hash::Type;
use crate::hash::table::{spec_displacement, spec_next_slot};
use vstd::prelude::*;

verus! {

/// Whether slot `s` holds a pair.
pub open spec fn occupied(slots: Seq<(u64, u64)>, s: int) -> bool {
    slots[s].1 != 0
}

/// The displacement of the occupant of slot `s`.
pub open spec fn displaced(slots: Seq<(u64, u64)>, s: int) -> int {
    spec_displacement(slots.len() as int, s, slots[s].0)
}

/// The slot in front of `slot`, around the start of the table.
pub open spec fn spec_prev_slot(capacity: int, slot: int) -> int {
    if slot == 0 {
        capacity - 1
    } else {
        slot - 1
    }
}

/// The order that Robin-Hood insertion keeps: an occupant that is displaced
/// has an occupant in the slot in front of it, and that one is displaced by
/// no less than one slot fewer.
#[verifier::opaque]
pub open spec fn ordered(slots: Seq<(u64, u64)>) -> bool {
    forall|s: int|
        0 <= s < slots.len() && #[trigger] occupied(slots, s) && displaced(slots, s) >= 1
            ==> occupied(slots, spec_prev_slot(slots.len() as int, s)) && displaced(
            slots,
            spec_prev_slot(slots.len() as int, s),
        ) >= displaced(slots, s) - 1
}

/// The displacement at `slot` of a pair with hash `hash`, without modular
/// arithmetic: the distance from the slot that the hash names, around the
/// end of the table where `slot` lies in front of that one.
pub proof fn lemma_displacement(capacity: int, slot: int, hash: u64)
    requires
        0 <= slot < capacity,
    ensures
        0 <= hash as int % capacity < capacity,
        spec_displacement(capacity, slot, hash) == (if slot >= hash as int % capacity {
            slot - hash as int % capacity
        } else {
            capacity + slot - hash as int % capacity
        }),
        0 <= spec_displacement(capacity, slot, hash) < capacity,
{
    let ideal = hash as int % capacity;
    assert(0 <= ideal < capacity) by (nonlinear_arith)
        requires
            ideal == hash as int % capacity,
            capacity > 0,
    ;
    if slot >= ideal {
        vstd::arithmetic::div_mod::lemma_mod_add_multiples_vanish(slot - ideal, capacity);
        vstd::arithmetic::div_mod::lemma_small_mod((slot - ideal) as nat, capacity as nat);
        assert(capacity + slot - ideal == capacity + (slot - ideal));
    } else {
        vstd::arithmetic::div_mod::lemma_small_mod(
            (capacity + slot - ideal) as nat,
            capacity as nat,
        );
    }
}

/// At the slot that a hash names, its displacement is zero.
pub proof fn lemma_displacement_start(capacity: int, hash: u64)
    requires
        0 < capacity,
    ensures
        0 <= hash as int % capacity < capacity,
        spec_displacement(capacity, hash as int % capacity, hash) == 0,
{
    assert(0 <= hash as int % capacity < capacity) by (nonlinear_arith)
        requires
            capacity > 0,
    ;
    lemma_displacement(capacity, hash as int % capacity, hash);
}

/// One slot further on, a displacement is one more, as long as that stays
/// inside the table.
pub proof fn lemma_displacement_next(capacity: int, slot: int, hash: u64)
    requires
        0 <= slot < capacity,
        spec_displacement(capacity, slot, hash) + 1 < capacity,
    ensures
        0 <= spec_next_slot(capacity, slot) < capacity,
        spec_displacement(capacity, spec_next_slot(capacity, slot), hash) == spec_displacement(
            capacity,
            slot,
            hash,
        ) + 1,
        spec_prev_slot(capacity, spec_next_slot(capacity, slot)) == slot,
{
    lemma_displacement(capacity, slot, hash);
    lemma_displacement(capacity, spec_next_slot(capacity, slot), hash);
}

/// One slot back, a displacement that is not zero is one less.
pub proof fn lemma_displacement_prev(capacity: int, slot: int, hash: u64)
    requires
        0 <= slot < capacity,
        spec_displacement(capacity, slot, hash) >= 1,
    ensures
        0 <= spec_prev_slot(capacity, slot) < capacity,
        spec_displacement(capacity, spec_prev_slot(capacity, slot), hash) == spec_displacement(
            capacity,
            slot,
            hash,
        ) - 1,
        spec_next_slot(capacity, spec_prev_slot(capacity, slot)) == slot,
{
    lemma_displacement(capacity, slot, hash);
    lemma_displacement(capacity, spec_prev_slot(capacity, slot), hash);
}


/// The number of slots from `from` forward to `to`, around the end of the
/// table.
pub open spec fn spec_distance(capacity: int, from: int, to: int) -> int {
    if to >= from {
        to - from
    } else {
        capacity + to - from
    }
}

/// Whether some slot holds `pair`.
pub open spec fn contains(slots: Seq<(u64, u64)>, pair: (u64, u64)) -> bool {
    exists|s: int| 0 <= s < slots.len() && #[trigger] slots[s] == pair
}

/// The number of occupants of the first `n` slots.
pub open spec fn spec_occupied_count(slots: Seq<(u64, u64)>, n: nat) -> nat
    decreases n,
{
    if n == 0 {
        0
    } else if slots[n - 1].1 != 0 {
        1 + spec_occupied_count(slots, (n - 1) as nat)
    } else {
        spec_occupied_count(slots, (n - 1) as nat)
    }
}

/// What putting `pair` into slot `slot` does to the number of occupants of
/// the first `n` slots.
pub proof fn lemma_count_update(slots: Seq<(u64, u64)>, slot: int, pair: (u64, u64), n: nat)
    requires
        0 <= slot < slots.len(),
        n <= slots.len(),
        pair.1 != 0,
    ensures
        spec_occupied_count(slots.update(slot, pair), n) == spec_occupied_count(slots, n) + (if slot
            < n && slots[slot].1 == 0 {
            1nat
        } else {
            0nat
        }),
    decreases n,
{
    if n > 0 {
        lemma_count_update(slots, slot, pair, (n - 1) as nat);
    }
}

/// A table with fewer occupants than slots has an empty slot.
pub proof fn lemma_count_room(slots: Seq<(u64, u64)>, n: nat) -> (empty: int)
    requires
        n <= slots.len(),
        spec_occupied_count(slots, n) < n,
    ensures
        0 <= empty < n,
        !occupied(slots, empty),
    decreases n,
{
    lemma_count_bound(slots, n);
    if slots[n - 1].1 == 0 {
        n - 1
    } else {
        lemma_count_room(slots, (n - 1) as nat)
    }
}

/// The first `n` slots have at most `n` occupants.
pub proof fn lemma_count_bound(slots: Seq<(u64, u64)>, n: nat)
    requires
        n <= slots.len(),
    ensures
        spec_occupied_count(slots, n) <= n,
    decreases n,
{
    if n > 0 {
        lemma_count_bound(slots, (n - 1) as nat);
    }
}

/// Putting a pair into a slot keeps the order of the table, where the pair
/// is displaced by no less than what the slot held, and has in front of it
/// what a displaced occupant has to have.
pub proof fn lemma_ordered_update(slots: Seq<(u64, u64)>, slot: int, pair: (u64, u64))
    requires
        ordered(slots),
        0 <= slot < slots.len(),
        pair.1 != 0,
        occupied(slots, slot) ==> spec_displacement(slots.len() as int, slot, pair.0)
            >= displaced(slots, slot),
        spec_displacement(slots.len() as int, slot, pair.0) >= 1 ==> occupied(
            slots,
            spec_prev_slot(slots.len() as int, slot),
        ) && displaced(slots, spec_prev_slot(slots.len() as int, slot)) >= spec_displacement(
            slots.len() as int,
            slot,
            pair.0,
        ) - 1,
    ensures
        ordered(slots.update(slot, pair)),
{
    reveal(ordered);
    let capacity = slots.len() as int;
    let after = slots.update(slot, pair);
    lemma_displacement(capacity, slot, pair.0);
    assert forall|s: int|
        0 <= s < after.len() && #[trigger] occupied(after, s) && displaced(after, s)
            >= 1 implies occupied(after, spec_prev_slot(capacity, s)) && displaced(
        after,
        spec_prev_slot(capacity, s),
    ) >= displaced(after, s) - 1 by {
        let before = spec_prev_slot(capacity, s);
        lemma_displacement(capacity, s, after[s].0);
        if s == slot {
            assert(occupied(slots, before));
            assert(before != slot);
        } else {
            assert(occupied(slots, s));
            if before == slot {
                assert(occupied(slots, slot));
            }
        }
    }
}

/// Inserting a pair into an ordered table with an empty slot in reach
/// succeeds and gives an ordered table that holds the pair besides what it
/// held, with one occupant more.
pub proof fn lemma_insert(
    slots: Seq<(u64, u64)>,
    collisions: u64,
    hash: u64,
    position: u64,
    slot: int,
    d: int,
    fuel: nat,
    empty: int,
)
    requires
        ordered(slots),
        0 <= slot < slots.len(),
        position != 0,
        spec_displacement(slots.len() as int, slot, hash) == d,
        d + fuel <= slots.len(),
        d >= 1 ==> occupied(slots, spec_prev_slot(slots.len() as int, slot)) && displaced(
            slots,
            spec_prev_slot(slots.len() as int, slot),
        ) >= d - 1,
        0 <= empty < slots.len(),
        !occupied(slots, empty),
        spec_distance(slots.len() as int, slot, empty) < fuel,
    ensures
        spec_insert(slots, collisions, hash, position, slot, d, fuel) is Some,
        ({
            let after = spec_insert(slots, collisions, hash, position, slot, d, fuel)->Some_0.0;
            &&& after.len() == slots.len()
            &&& ordered(after)
            &&& spec_occupied_count(after, after.len()) == spec_occupied_count(
                slots,
                slots.len(),
            ) + 1
            &&& forall|pair: (u64, u64)|
                pair.1 != 0 ==> (#[trigger] contains(after, pair) <==> contains(slots, pair)
                    || pair == (hash, position))
            &&& forall|s: int|
                0 <= s < after.len() && !#[trigger] occupied(after, s) ==> after[s] == slots[s]
        }),
    decreases fuel,
{
    let capacity = slots.len() as int;
    lemma_insert_unfold(slots, collisions, hash, position, slot, d, fuel);
    lemma_displacement(capacity, slot, hash);
    let (stored_hash, stored_position) = slots[slot];
    if stored_position == 0 {
        let after = slots.update(slot, (hash, position));
        lemma_ordered_update(slots, slot, (hash, position));
        lemma_count_update(slots, slot, (hash, position), slots.len());
        assert forall|pair: (u64, u64)| pair.1 != 0 implies (#[trigger] contains(after, pair)
            <==> contains(slots, pair) || pair == (hash, position)) by {
            if contains(after, pair) {
                let s = choose|s: int| 0 <= s < after.len() && #[trigger] after[s] == pair;
                if s != slot {
                    assert(slots[s] == pair);
                }
            }
            if contains(slots, pair) {
                let s = choose|s: int| 0 <= s < slots.len() && #[trigger] slots[s] == pair;
                assert(s != slot);
                assert(after[s] == pair);
            }
            if pair == (hash, position) {
                assert(after[slot] == pair);
            }
        }
    } else {
        assert(occupied(slots, slot));
        assert(empty != slot);
        let counted = if stored_hash == hash {
            crate::hash::builder::spec_bump(collisions)
        } else {
            collisions
        };
        let occupant = displaced(slots, slot);
        let next = spec_next_slot(capacity, slot);
        lemma_displacement(capacity, slot, stored_hash);
        if occupant < d {
            let swapped = slots.update(slot, (hash, position));
            lemma_ordered_update(slots, slot, (hash, position));
            lemma_count_update(slots, slot, (hash, position), slots.len());
            lemma_displacement_next(capacity, slot, stored_hash);
            assert(swapped[slot] == (hash, position));
            assert(!occupied(swapped, empty));
            lemma_insert(
                swapped,
                counted,
                stored_hash,
                stored_position,
                next,
                occupant + 1,
                (fuel - 1) as nat,
                empty,
            );
            let after = spec_insert(
                swapped,
                counted,
                stored_hash,
                stored_position,
                next,
                occupant + 1,
                (fuel - 1) as nat,
            )->Some_0.0;
            assert forall|pair: (u64, u64)| pair.1 != 0 implies (#[trigger] contains(after, pair)
                <==> contains(slots, pair) || pair == (hash, position)) by {
                assert(contains(after, pair) <==> contains(swapped, pair) || pair == (
                    stored_hash,
                    stored_position,
                ));
                if contains(swapped, pair) {
                    let s = choose|s: int| 0 <= s < swapped.len() && #[trigger] swapped[s] == pair;
                    if s != slot {
                        assert(slots[s] == pair);
                    }
                }
                if contains(slots, pair) {
                    let s = choose|s: int| 0 <= s < slots.len() && #[trigger] slots[s] == pair;
                    if s != slot {
                        assert(swapped[s] == pair);
                    }
                }
                if pair == (hash, position) {
                    assert(swapped[slot] == pair);
                }
                if pair == (stored_hash, stored_position) {
                    assert(slots[slot] == pair);
                }
            }
        } else {
            lemma_displacement_next(capacity, slot, hash);
            lemma_insert(
                slots,
                counted,
                hash,
                position,
                next,
                d + 1,
                (fuel - 1) as nat,
                empty,
            );
        }
    }
}


/// Whether `pair` is the hash and the encoded position of a live row of
/// `dict` at or behind row `from`.
pub open spec fn row_pair(dict: DictModel, hash_type: Type, seed: u32, from: int, pair: (u64, u64))
    -> bool {
    exists|r: int|
        from <= r < dict.keys.len() && #[trigger] dict.live[r] && pair == (
            hash_type.spec_hash(dict.keys[r], seed),
            dict.positions[r],
        )
}

/// Whether every live row of `dict` has an encoded position that is not
/// zero, as the occupant of a slot has to have.
pub open spec fn rows_placed(dict: DictModel) -> bool {
    forall|r: int| 0 <= r < dict.keys.len() && #[trigger] dict.live[r] ==> dict.positions[r] != 0
}

/// Inserting the live rows of a dictionary into an ordered table with room
/// for them succeeds and gives an ordered table that holds them besides what
/// it held.
pub proof fn lemma_fill(
    dict: DictModel,
    from: int,
    hash_type: Type,
    seed: u32,
    slots: Seq<(u64, u64)>,
    collisions: u64,
)
    requires
        dict.wf(),
        rows_placed(dict),
        0 <= from <= dict.keys.len(),
        ordered(slots),
        spec_occupied_count(slots, slots.len()) + dict.spec_live_count(from) < slots.len(),
    ensures
        spec_fill(dict, from, hash_type, seed, slots, collisions) is Some,
        ({
            let after = spec_fill(dict, from, hash_type, seed, slots, collisions)->Some_0.0;
            &&& after.len() == slots.len()
            &&& ordered(after)
            &&& spec_occupied_count(after, after.len()) == spec_occupied_count(
                slots,
                slots.len(),
            ) + dict.spec_live_count(from)
            &&& forall|pair: (u64, u64)|
                pair.1 != 0 ==> (#[trigger] contains(after, pair) <==> contains(slots, pair)
                    || row_pair(dict, hash_type, seed, from, pair))
            &&& forall|s: int|
                0 <= s < after.len() && !#[trigger] occupied(after, s) ==> after[s] == slots[s]
        }),
    decreases dict.keys.len() - from,
{
    if from < dict.keys.len() {
        if dict.live[from] {
            let capacity = slots.len() as int;
            let hash = hash_type.spec_hash(dict.keys[from], seed);
            let position = dict.positions[from];
            let empty = lemma_count_room(slots, slots.len());
            lemma_displacement_start(capacity, hash);
            lemma_insert(
                slots,
                collisions,
                hash,
                position,
                hash as int % capacity,
                0,
                slots.len(),
                empty,
            );
            let (mid, counted) = spec_insert(
                slots,
                collisions,
                hash,
                position,
                hash as int % capacity,
                0,
                slots.len(),
            )->Some_0;
            lemma_fill(dict, from + 1, hash_type, seed, mid, counted);
            let after = spec_fill(dict, from + 1, hash_type, seed, mid, counted)->Some_0.0;
            assert forall|pair: (u64, u64)| pair.1 != 0 implies (#[trigger] contains(after, pair)
                <==> contains(slots, pair) || row_pair(dict, hash_type, seed, from, pair)) by {
                assert(contains(mid, pair) <==> contains(slots, pair) || pair == (hash, position));
                if row_pair(dict, hash_type, seed, from + 1, pair) {
                    let r = choose|r: int|
                        from + 1 <= r < dict.keys.len() && #[trigger] dict.live[r] && pair == (
                            hash_type.spec_hash(dict.keys[r], seed),
                            dict.positions[r],
                        );
                    assert(from <= r && dict.live[r]);
                }
                if pair == (hash, position) {
                    assert(dict.live[from]);
                }
                if row_pair(dict, hash_type, seed, from, pair) {
                    let r = choose|r: int|
                        from <= r < dict.keys.len() && #[trigger] dict.live[r] && pair == (
                            hash_type.spec_hash(dict.keys[r], seed),
                            dict.positions[r],
                        );
                    if r != from {
                        assert(from + 1 <= r && dict.live[r]);
                    }
                }
            }
            assert forall|s: int| 0 <= s < after.len() && !#[trigger] occupied(
                after,
                s,
            ) implies after[s] == slots[s] by {
                assert(after[s] == mid[s]);
                assert(!occupied(mid, s));
            }
        } else {
            lemma_fill(dict, from + 1, hash_type, seed, slots, collisions);
            let after = spec_fill(dict, from + 1, hash_type, seed, slots, collisions)->Some_0.0;
            assert forall|pair: (u64, u64)| pair.1 != 0 implies (#[trigger] contains(after, pair)
                <==> contains(slots, pair) || row_pair(dict, hash_type, seed, from, pair)) by {
                if row_pair(dict, hash_type, seed, from + 1, pair) {
                    let r = choose|r: int|
                        from + 1 <= r < dict.keys.len() && #[trigger] dict.live[r] && pair == (
                            hash_type.spec_hash(dict.keys[r], seed),
                            dict.positions[r],
                        );
                    assert(from <= r && dict.live[r]);
                }
                if row_pair(dict, hash_type, seed, from, pair) {
                    let r = choose|r: int|
                        from <= r < dict.keys.len() && #[trigger] dict.live[r] && pair == (
                            hash_type.spec_hash(dict.keys[r], seed),
                            dict.positions[r],
                        );
                    assert(from + 1 <= r && dict.live[r]);
                }
            }
        }
    }
}

/// The largest displacement among the first `n` slots bounds the
/// displacement of each of their occupants, and stays inside the table.
pub proof fn lemma_max_displacement(slots: Seq<(u64, u64)>, n: nat)
    requires
        n <= slots.len(),
    ensures
        0 <= spec_max_displacement(slots, n),
        n > 0 ==> spec_max_displacement(slots, n) < slots.len(),
        forall|s: int|
            0 <= s < n && #[trigger] occupied(slots, s) ==> displaced(slots, s)
                <= spec_max_displacement(slots, n),
    decreases n,
{
    if n > 0 {
        lemma_max_displacement(slots, (n - 1) as nat);
        lemma_displacement(slots.len() as int, n - 1, slots[n - 1].0);
    }
}

/// The slot `steps` slots in front of `slot`, around the start of the
/// table.
pub open spec fn spec_back(capacity: int, slot: int, steps: nat) -> int
    decreases steps,
{
    if steps == 0 {
        slot
    } else {
        spec_prev_slot(capacity, spec_back(capacity, slot, (steps - 1) as nat))
    }
}

/// In an ordered table, the slots between the one that a hash names and
/// the one that holds a pair with this hash are all occupied, each by a pair
/// that is displaced no less than the probe for the hash is when it gets
/// there.
pub proof fn lemma_path(slots: Seq<(u64, u64)>, target: int, steps: nat)
    requires
        ordered(slots),
        0 <= target < slots.len(),
        occupied(slots, target),
        steps <= displaced(slots, target),
    ensures
        0 <= spec_back(slots.len() as int, target, steps) < slots.len(),
        occupied(slots, spec_back(slots.len() as int, target, steps)),
        displaced(slots, spec_back(slots.len() as int, target, steps)) >= displaced(
            slots,
            target,
        ) - steps,
        spec_displacement(
            slots.len() as int,
            spec_back(slots.len() as int, target, steps),
            slots[target].0,
        ) == displaced(slots, target) - steps,
        steps > 0 ==> spec_next_slot(
            slots.len() as int,
            spec_back(slots.len() as int, target, steps),
        ) == spec_back(slots.len() as int, target, (steps - 1) as nat),
    decreases steps,
{
    if steps > 0 {
        reveal(ordered);
        let capacity = slots.len() as int;
        lemma_path(slots, target, (steps - 1) as nat);
        let behind = spec_back(capacity, target, (steps - 1) as nat);
        lemma_displacement(capacity, behind, slots[behind].0);
        lemma_displacement_prev(capacity, behind, slots[target].0);
        assert(occupied(slots, behind) && displaced(slots, behind) >= 1);
    }
}

} // verus!
