//! What a payload holds: the entries that a cursor finds in it, stated on
//! the bytes alone, and what appending to a payload does to them.

use crate::error::Error;
use crate::log::raw::snappy_decompressed;
use crate::log::snappy::{spec_read_block, ChunksModel};
use crate::log::writer::spec_encode_entry;
use crate::log::{
    lemma_read_entry_len, spec_payload_len, spec_prepend, spec_read_entry, EntriesModel, Entry,
};
use crate::vlq::{
    lemma_read_vlq_len, lemma_read_vlq_prefix, lemma_vlq_roundtrip, spec_read_vlq, spec_write_vlq,
};
use vstd::prelude::*;

verus! {

/// The entries that `data` holds back to back, or the first failure of
/// decoding one.
pub open spec fn spec_parse_entries(data: Seq<u8>) -> Result<Seq<Entry<Seq<u8>>>, Error>
    decreases data.len(),
    via spec_parse_entries_decreases
{
    if data.len() == 0 {
        Ok(Seq::empty())
    } else {
        match spec_read_entry(data) {
            Err(e) => Err(e),
            Ok((entry, n)) => spec_prepend(seq![entry], spec_parse_entries(data.skip(n as int))),
        }
    }
}

#[via_fn]
proof fn spec_parse_entries_decreases(data: Seq<u8>) {
    lemma_read_entry_len(data);
}

/// An entry that decodes from the front of `s` decodes the same whatever
/// bytes follow `s`.
pub proof fn lemma_read_entry_prefix(s: Seq<u8>, t: Seq<u8>)
    requires
        spec_read_entry(s) is Ok,
    ensures
        spec_read_entry(s + t) == spec_read_entry(s),
{
    lemma_read_vlq_prefix(s, t);
    lemma_read_vlq_len(s);
    let (a, la) = spec_read_vlq(s)->Ok_0;
    assert((s + t).skip(la as int) =~= s.skip(la as int) + t);
    lemma_read_vlq_prefix(s.skip(la as int), t);
    lemma_read_vlq_len(s.skip(la as int));
    let (b, lb) = spec_read_vlq(s.skip(la as int))->Ok_0;
    let start = (la + lb) as int;
    let total = start + spec_payload_len(a, b);
    assert(total <= s.len());
    if a == 0 {
        assert((s + t).subrange(start, start + b) =~= s.subrange(start, start + b));
    } else {
        assert((s + t).subrange(start, start + a - 1) =~= s.subrange(start, start + a - 1));
        assert((s + t).subrange(start + a - 1, start + a - 1 + b) =~= s.subrange(
            start + a - 1,
            start + a - 1 + b,
        ));
    }
}

/// What the two integers `a` and `b` at the head of `whole` decode to, where
/// `whole` is their encodings followed by `tail`.
proof fn lemma_read_head(a: u64, b: u64, tail: Seq<u8>, whole: Seq<u8>)
    requires
        whole == spec_write_vlq(a) + spec_write_vlq(b) + tail,
    ensures
        spec_read_vlq(whole) == Ok::<(u64, nat), Error>((a, spec_write_vlq(a).len())),
        spec_read_vlq(whole.skip(spec_write_vlq(a).len() as int)) == Ok::<(u64, nat), Error>(
            (b, spec_write_vlq(b).len()),
        ),
        whole.len() == spec_write_vlq(a).len() + spec_write_vlq(b).len() + tail.len(),
        spec_write_vlq(a).len() >= 1,
        spec_write_vlq(b).len() >= 1,
{
    let first = spec_write_vlq(a);
    let second = spec_write_vlq(b);
    lemma_vlq_roundtrip(a, second + tail);
    assert(whole =~= first + (second + tail));
    assert(whole.skip(first.len() as int) =~= second + tail);
    lemma_vlq_roundtrip(b, tail);
}

proof fn lemma_delete_roundtrip(key: Seq<u8>, rest: Seq<u8>)
    requires
        key.len() <= u64::MAX,
    ensures
        spec_read_entry(spec_encode_entry(Entry::Delete(key)) + rest) == Ok::<
            (Entry<Seq<u8>>, nat),
            Error,
        >((Entry::Delete(key), spec_encode_entry(Entry::Delete(key)).len())),
        spec_encode_entry(Entry::Delete(key)).len() >= 2,
{
    let b = key.len() as u64;
    let encoded = spec_encode_entry(Entry::Delete(key));
    let whole = encoded + rest;
    assert(whole =~= spec_write_vlq(0) + spec_write_vlq(b) + (key + rest));
    lemma_read_head(0, b, key + rest, whole);
    let start = (spec_write_vlq(0).len() + spec_write_vlq(b).len()) as int;
    assert(encoded.len() == start + key.len());
    assert(whole.subrange(start, start + b) =~= key);
}

proof fn lemma_put_roundtrip(key: Seq<u8>, value: Seq<u8>, rest: Seq<u8>)
    requires
        key.len() < u64::MAX,
        value.len() <= u64::MAX,
    ensures
        spec_read_entry(spec_encode_entry(Entry::Put(key, value)) + rest) == Ok::<
            (Entry<Seq<u8>>, nat),
            Error,
        >((Entry::Put(key, value), spec_encode_entry(Entry::Put(key, value)).len())),
        spec_encode_entry(Entry::Put(key, value)).len() >= 2,
{
    let a = (key.len() + 1) as u64;
    let b = value.len() as u64;
    let encoded = spec_encode_entry(Entry::Put(key, value));
    let whole = encoded + rest;
    assert(whole =~= spec_write_vlq(a) + spec_write_vlq(b) + (key + value + rest));
    lemma_read_head(a, b, key + value + rest, whole);
    let start = (spec_write_vlq(a).len() + spec_write_vlq(b).len()) as int;
    assert(encoded.len() == start + key.len() + value.len());
    assert(whole.subrange(start, start + a - 1) =~= key);
    assert(whole.subrange(start + a - 1, start + a - 1 + b) =~= value);
}

/// Decoding the bytes of an entry gives the entry back, together with the
/// number of its bytes, whatever bytes follow them.
pub proof fn lemma_entry_roundtrip(entry: Entry<Seq<u8>>, rest: Seq<u8>)
    requires
        entry.spec_key().len() < u64::MAX,
        entry is Put ==> entry->Put_1.len() <= u64::MAX,
    ensures
        spec_read_entry(spec_encode_entry(entry) + rest) == Ok::<(Entry<Seq<u8>>, nat), Error>(
            (entry, spec_encode_entry(entry).len()),
        ),
        spec_encode_entry(entry).len() >= 2,
{
    match entry {
        Entry::Delete(key) => {
            lemma_delete_roundtrip(key, rest);
        },
        Entry::Put(key, value) => {
            lemma_put_roundtrip(key, value, rest);
        },
    }
}

/// Appending the bytes of one entry to a payload that decodes appends that
/// entry to what the payload holds.
pub proof fn lemma_parse_entries_append(data: Seq<u8>, entry: Entry<Seq<u8>>)
    requires
        spec_parse_entries(data) is Ok,
        entry.spec_key().len() < u64::MAX,
        entry is Put ==> entry->Put_1.len() <= u64::MAX,
    ensures
        spec_parse_entries(data + spec_encode_entry(entry)) == Ok::<
            Seq<Entry<Seq<u8>>>,
            Error,
        >(spec_parse_entries(data)->Ok_0.push(entry)),
    decreases data.len(),
{
    let encoded = spec_encode_entry(entry);
    if data.len() == 0 {
        assert(data + encoded =~= encoded + Seq::<u8>::empty());
        lemma_entry_roundtrip(entry, Seq::empty());
        assert(encoded.skip(encoded.len() as int) =~= Seq::<u8>::empty());
        assert((encoded + Seq::<u8>::empty()).skip(encoded.len() as int) =~= Seq::<u8>::empty());
        assert(spec_parse_entries(Seq::<u8>::empty()) == Ok::<Seq<Entry<Seq<u8>>>, Error>(
            Seq::empty(),
        ));
        assert(seq![entry] + Seq::<Entry<Seq<u8>>>::empty() =~= Seq::<
            Entry<Seq<u8>>,
        >::empty().push(entry));
    } else {
        lemma_entry_roundtrip(entry, Seq::empty());
        lemma_read_entry_len(data);
        lemma_read_entry_prefix(data, encoded);
        let (first, n) = spec_read_entry(data)->Ok_0;
        assert((data + encoded).skip(n as int) =~= data.skip(n as int) + encoded);
        lemma_parse_entries_append(data.skip(n as int), entry);
        let rest = spec_parse_entries(data.skip(n as int))->Ok_0;
        assert(seq![first] + rest.push(entry) =~= (seq![first] + rest).push(entry));
    }
}

/// The entries that a cursor over an uncompressed log finds from `position`
/// on are the ones that the bytes from there on hold back to back.
pub proof fn lemma_uncompressed_remaining(map: Seq<u8>, position: int)
    requires
        0 <= position <= map.len(),
    ensures
        (EntriesModel::Uncompressed { position }).spec_remaining(map) == spec_parse_entries(
            map.skip(position),
        ),
    decreases map.len() - position,
{
    let model = EntriesModel::Uncompressed { position };
    let data = map.skip(position);
    if position < map.len() {
        lemma_read_entry_len(data);
        if let Ok((entry, n)) = spec_read_entry(data) {
            assert(data.skip(n as int) =~= map.skip(position + n));
            lemma_uncompressed_remaining(map, position + n);
        }
    }
}


/// `second` behind `first`, where neither is a failure; else the first
/// failure of the two.
pub open spec fn spec_concat(
    first: Result<Seq<Entry<Seq<u8>>>, Error>,
    second: Result<Seq<Entry<Seq<u8>>>, Error>,
) -> Result<Seq<Entry<Seq<u8>>>, Error> {
    match first {
        Err(e) => Err(e),
        Ok(entries) => spec_prepend(entries, second),
    }
}

/// The entries that one decoded block holds. A block holds at least one
/// entry: one without a byte is a failure.
pub open spec fn spec_parse_block(block: Seq<u8>) -> Result<Seq<Entry<Seq<u8>>>, Error> {
    if block.len() == 0 {
        Err(Error::VlqUnderrun)
    } else {
        spec_parse_entries(block)
    }
}

/// The entries that the blocks in `data` hold, block after block, or the
/// first failure of decoding a block or an entry in it.
pub open spec fn spec_parse_blocks(data: Seq<u8>) -> Result<Seq<Entry<Seq<u8>>>, Error>
    decreases data.len(),
    via spec_parse_blocks_decreases
{
    if data.len() == 0 {
        Ok(Seq::empty())
    } else {
        match spec_read_block(data) {
            Err(e) => Err(e),
            Ok((block, size)) => spec_concat(
                spec_parse_block(block),
                spec_parse_blocks(data.skip(size as int)),
            ),
        }
    }
}

#[via_fn]
proof fn spec_parse_blocks_decreases(data: Seq<u8>) {
    lemma_read_block_len(data);
}

/// A decoded block occupies at least one byte and lies inside the input.
pub proof fn lemma_read_block_len(data: Seq<u8>)
    ensures
        spec_read_block(data) is Ok ==> 1 <= spec_read_block(data)->Ok_0.1 <= data.len(),
{
    lemma_read_vlq_len(data);
}

/// A block that decodes from the front of `s` decodes the same whatever
/// bytes follow `s`.
pub proof fn lemma_read_block_prefix(s: Seq<u8>, t: Seq<u8>)
    requires
        spec_read_block(s) is Ok,
    ensures
        spec_read_block(s + t) == spec_read_block(s),
{
    lemma_read_vlq_prefix(s, t);
    lemma_read_vlq_len(s);
    let (compressed_size, start) = spec_read_vlq(s)->Ok_0;
    assert((s + t).subrange(start as int, start + compressed_size) =~= s.subrange(
        start as int,
        start + compressed_size,
    ));
}

/// The frame of a compressed block decodes to the block: its compressed
/// size as a variable-length integer, then the compressed bytes.
pub proof fn lemma_frame_roundtrip(compressed: Seq<u8>, block: Seq<u8>)
    requires
        compressed.len() <= u64::MAX,
        snappy_decompressed(compressed) == Some(block),
    ensures
        spec_read_block(spec_write_vlq(compressed.len() as u64) + compressed) == Ok::<
            (Seq<u8>, nat),
            Error,
        >((block, (spec_write_vlq(compressed.len() as u64) + compressed).len())),
{
    let head = spec_write_vlq(compressed.len() as u64);
    let frame = head + compressed;
    lemma_vlq_roundtrip(compressed.len() as u64, compressed);
    assert(frame.subrange(head.len() as int, (head.len() + compressed.len()) as int)
        =~= compressed);
}

/// Appending the frame of one more block to a payload that decodes appends
/// the entries of that block to what the payload holds.
pub proof fn lemma_parse_blocks_append(data: Seq<u8>, frame: Seq<u8>, block: Seq<u8>)
    requires
        spec_parse_blocks(data) is Ok,
        spec_read_block(frame) == Ok::<(Seq<u8>, nat), Error>((block, frame.len())),
        block.len() > 0,
    ensures
        spec_parse_blocks(data + frame) == spec_prepend(
            spec_parse_blocks(data)->Ok_0,
            spec_parse_entries(block),
        ),
    decreases data.len(),
{
    if data.len() == 0 {
        assert(data + frame =~= frame);
        lemma_read_block_len(frame);
        assert(frame.skip(frame.len() as int) =~= Seq::<u8>::empty());
        assert(spec_parse_blocks(Seq::<u8>::empty()) == Ok::<Seq<Entry<Seq<u8>>>, Error>(
            Seq::empty(),
        ));
        if let Ok(entries) = spec_parse_entries(block) {
            assert(entries + Seq::<Entry<Seq<u8>>>::empty() =~= Seq::<Entry<Seq<u8>>>::empty()
                + entries);
        }
    } else {
        lemma_read_block_len(data);
        lemma_read_block_prefix(data, frame);
        let (first, n) = spec_read_block(data)->Ok_0;
        assert((data + frame).skip(n as int) =~= data.skip(n as int) + frame);
        lemma_parse_blocks_append(data.skip(n as int), frame, block);
        let head = spec_parse_block(first)->Ok_0;
        let rest = spec_parse_blocks(data.skip(n as int))->Ok_0;
        if let Ok(entries) = spec_parse_entries(block) {
            assert(head + (rest + entries) =~= (head + rest) + entries);
        }
    }
}

/// What a cursor over a compressed log still has to find: the entries left
/// in its current block, then those of the blocks from its next position on.
pub open spec fn spec_chunks_remaining(chunks: ChunksModel, map: Seq<u8>) -> Result<
    Seq<Entry<Seq<u8>>>,
    Error,
> {
    if chunks.has_unread() {
        spec_concat(
            spec_parse_entries(chunks.unread()),
            spec_parse_blocks(map.skip(chunks.next_position)),
        )
    } else {
        spec_parse_blocks(map.skip(chunks.next_position))
    }
}

/// The entries that a cursor over a compressed log finds are the ones left
/// in its current block, then those that the blocks behind it hold.
pub proof fn lemma_snappy_remaining(chunks: ChunksModel, map: Seq<u8>)
    requires
        0 <= chunks.next_position <= map.len(),
    ensures
        (EntriesModel::Snappy { chunks }).spec_remaining(map) == spec_chunks_remaining(
            chunks,
            map,
        ),
    decreases chunks.blocks_left(map), (EntriesModel::Snappy { chunks }).unread_len(),
{
    let model = EntriesModel::Snappy { chunks };
    let behind = spec_parse_blocks(map.skip(chunks.next_position));
    if chunks.has_unread() {
        let unread = chunks.unread();
        lemma_read_entry_len(unread);
        if let Ok((entry, n)) = spec_read_entry(unread) {
            let after = chunks.advanced(n as int);
            lemma_snappy_remaining(after, map);
            assert(after.block->Some_0.skip(after.offset) =~= unread.skip(n as int));
            if after.has_unread() {
                if let Ok(inner) = spec_parse_entries(after.unread()) {
                    if let Ok(tail) = behind {
                        assert(seq![entry] + (inner + tail) =~= (seq![entry] + inner) + tail);
                    }
                }
            } else {
                assert(unread.skip(n as int).len() == 0);
                if let Ok(tail) = behind {
                    assert(seq![entry] + tail =~= (seq![entry] + Seq::<
                        Entry<Seq<u8>>,
                    >::empty()) + tail);
                }
            }
        }
    } else {
        let position = chunks.next_position;
        if position >= map.len() {
            assert(map.skip(position).len() == 0);
        } else {
            let data = map.skip(position);
            lemma_read_block_len(data);
            if let Ok((block, size)) = spec_read_block(data) {
                let filled = ChunksModel {
                    next_position: position + size,
                    block: Some(block),
                    block_position: position,
                    offset: 0,
                };
                assert(chunks.spec_fill(map) == Ok::<Option<ChunksModel>, Error>(Some(filled)));
                assert(data.skip(size as int) =~= map.skip(position + size));
                assert(block.skip(0) =~= block);
                if block.len() > 0 {
                    assert(filled.spec_fill(map) == Ok::<Option<ChunksModel>, Error>(
                        Some(filled),
                    ));
                    lemma_snappy_remaining(filled, map);
                    assert(model.spec_next(map) == (EntriesModel::Snappy {
                        chunks: filled,
                    }).spec_next(map));
                }
            }
        }
    }
}


/// Whether each block in `data` holds at most `limit` entries, as far as
/// the blocks decode.
pub open spec fn spec_blocks_within(data: Seq<u8>, limit: nat) -> bool
    decreases data.len(),
    via spec_blocks_within_decreases
{
    if data.len() == 0 {
        true
    } else {
        match spec_read_block(data) {
            Err(_) => true,
            Ok((block, size)) => (match spec_parse_block(block) {
                Ok(entries) => entries.len() <= limit,
                Err(_) => true,
            }) && spec_blocks_within(data.skip(size as int), limit),
        }
    }
}

#[via_fn]
proof fn spec_blocks_within_decreases(data: Seq<u8>, limit: nat) {
    lemma_read_block_len(data);
}


/// Blocks that hold at most `small` entries each hold at most `large`,
/// where `large` is no less.
pub proof fn lemma_blocks_within_wider(data: Seq<u8>, small: nat, large: nat)
    requires
        spec_blocks_within(data, small),
        small <= large,
    ensures
        spec_blocks_within(data, large),
    decreases data.len(),
{
    if data.len() > 0 {
        lemma_read_block_len(data);
        if let Ok((block, size)) = spec_read_block(data) {
            lemma_blocks_within_wider(data.skip(size as int), small, large);
        }
    }
}

/// Appending the frame of a block of at most `limit` entries to a payload
/// whose blocks hold at most `limit` entries each gives such a payload
/// again.
pub proof fn lemma_blocks_within_append(
    data: Seq<u8>,
    frame: Seq<u8>,
    block: Seq<u8>,
    limit: nat,
)
    requires
        spec_parse_blocks(data) is Ok,
        spec_read_block(frame) == Ok::<(Seq<u8>, nat), Error>((block, frame.len())),
        spec_blocks_within(data, limit),
        spec_parse_block(block) is Ok ==> spec_parse_block(block)->Ok_0.len() <= limit,
    ensures
        spec_blocks_within(data + frame, limit),
    decreases data.len(),
{
    if data.len() == 0 {
        assert(data + frame =~= frame);
        lemma_read_block_len(frame);
        assert(frame.skip(frame.len() as int) =~= Seq::<u8>::empty());
        assert(spec_blocks_within(Seq::<u8>::empty(), limit));
    } else {
        lemma_read_block_len(data);
        lemma_read_block_prefix(data, frame);
        let (first, n) = spec_read_block(data)->Ok_0;
        assert((data + frame).skip(n as int) =~= data.skip(n as int) + frame);
        lemma_blocks_within_append(data.skip(n as int), frame, block, limit);
    }
}

} // verus!
