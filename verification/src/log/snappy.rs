//! Compressed logs: a sequence of blocks, each a variable-length integer that
//! gives the compressed size, followed by that many Snappy-encoded bytes.

use crate::error::Error;
use crate::log::raw::{decompress_vec, snappy_decompressed};
use crate::log::{entry_len, read_entry, spec_entry_len, spec_read_entry, spec_tail, tail, Entry, Reader};
use crate::vlq::{read_vlq, spec_read_vlq};
use vstd::prelude::*;
use vstd::slice::slice_subrange;

verus! {

/// What decoding the block at the front of `data` gives: its decoded bytes
/// and the number of bytes it occupies in `data`. A block that claims more
/// bytes than `data` holds is `LogTooSmall`; one that does not decode is
/// `BlockCorrupt`.
pub open spec fn spec_read_block(data: Seq<u8>) -> Result<(Seq<u8>, nat), Error> {
    match spec_read_vlq(data) {
        Err(e) => Err(e),
        Ok((compressed_size, start)) => {
            if start + compressed_size > data.len() {
                Err(Error::LogTooSmall)
            } else {
                match snappy_decompressed(data.subrange(start as int, start + compressed_size)) {
                    Some(block) => Ok((block, start + compressed_size as nat)),
                    None => Err(Error::BlockCorrupt),
                }
            }
        },
    }
}

/// Decodes the block at the front of `data`.
pub fn read_block(data: &[u8]) -> (r: Result<(Vec<u8>, usize), Error>)
    ensures
        match r {
            Ok((block, size)) => spec_read_block(data@) == Ok::<(Seq<u8>, nat), Error>(
                (block@, size as nat),
            ),
            Err(e) => spec_read_block(data@) == Err::<(Seq<u8>, nat), Error>(e),
        },
{
    let (compressed_size, start) = match read_vlq(data) {
        Ok(p) => p,
        Err(e) => {
            return Err(e);
        },
    };
    proof {
        crate::vlq::lemma_read_vlq_len(data@);
    }
    if compressed_size > (data.len() - start) as u64 {
        return Err(Error::LogTooSmall);
    }
    let end: usize = start + compressed_size as usize;
    match decompress_vec(slice_subrange(data, start, end)) {
        Some(block) => Ok((block, end)),
        None => Err(Error::BlockCorrupt),
    }
}


/// One decoded block and the position in the log at which it starts.
#[derive(Debug)]
pub struct Block {
    pub position: usize,
    pub data: Vec<u8>,
}

/// What decoding the block at `position` in `map` gives: nothing at or behind
/// the end, else the decoded bytes and the position of the block behind it.
pub open spec fn spec_next_block(map: Seq<u8>, position: int) -> Result<
    Option<(Seq<u8>, int)>,
    Error,
> {
    if position >= map.len() {
        Ok(None)
    } else {
        match spec_read_block(spec_tail(map, position)) {
            Ok((data, size)) => Ok(Some((data, position + size))),
            Err(e) => Err(e),
        }
    }
}

/// Decodes the block at `position` in the log of `reader`, giving the block
/// and the position of the block behind it.
pub fn load_block(reader: &Reader, position: usize) -> (r: Result<Option<(Block, usize)>, Error>)
    ensures
        match r {
            Ok(Some((block, next))) => spec_next_block(reader.map@, position as int) == Ok::<
                Option<(Seq<u8>, int)>,
                Error,
            >(Some((block.data@, next as int))) && block.position == position && position < next
                <= reader.map@.len(),
            Ok(None) => spec_next_block(reader.map@, position as int) == Ok::<
                Option<(Seq<u8>, int)>,
                Error,
            >(None),
            Err(e) => spec_next_block(reader.map@, position as int) == Err::<
                Option<(Seq<u8>, int)>,
                Error,
            >(e),
        },
{
    if position >= reader.map.len() {
        return Ok(None);
    }
    let slice = tail(reader.map.as_slice(), position);
    proof {
        crate::vlq::lemma_read_vlq_len(slice@);
    }
    match read_block(slice) {
        Ok((data, size)) => Ok(Some((Block { position, data }, position + size))),
        Err(e) => Err(e),
    }
}

/// A cursor over the blocks of a compressed log.
#[derive(Debug)]
pub struct Blocks<'a> {
    pub reader: &'a Reader,
    pub next_position: usize,
}

impl<'a> Blocks<'a> {
    /// A cursor at the first block of the log.
    pub fn new(reader: &'a Reader) -> (r: Blocks<'a>)
        ensures
            r.reader == reader,
            r.next_position == reader.header.header_size,
    {
        Blocks { reader, next_position: reader.header.header_size as usize }
    }

    /// A cursor at the block that starts at `next_position`.
    pub fn new_at(reader: &'a Reader, next_position: usize) -> (r: Blocks<'a>)
        ensures
            r.reader == reader,
            r.next_position == next_position,
    {
        Blocks { reader, next_position }
    }

    /// Decodes the block at the cursor and moves behind it. A failure, or the
    /// end of the log, leaves the cursor where it was.
    pub fn try_next(&mut self) -> (r: Result<Option<Block>, Error>)
        ensures
            final(self).reader == old(self).reader,
            match r {
                Ok(Some(block)) => spec_next_block(
                    old(self).reader.map@,
                    old(self).next_position as int,
                ) == Ok::<Option<(Seq<u8>, int)>, Error>(
                    Some((block.data@, final(self).next_position as int)),
                ) && block.position == old(self).next_position,
                Ok(None) => spec_next_block(old(self).reader.map@, old(self).next_position as int)
                    == Ok::<Option<(Seq<u8>, int)>, Error>(None) && final(self).next_position
                    == old(self).next_position,
                Err(e) => spec_next_block(old(self).reader.map@, old(self).next_position as int)
                    == Err::<Option<(Seq<u8>, int)>, Error>(e) && final(self).next_position == old(
                    self,
                ).next_position,
            },
    {
        match load_block(self.reader, self.next_position) {
            Ok(Some((block, next))) => {
                self.next_position = next;
                Ok(Some(block))
            },
            Ok(None) => Ok(None),
            Err(e) => Err(e),
        }
    }

    /// The next block, in the shape that an iterator hands out.
    pub fn next(&mut self) -> (r: Option<Result<Block, Error>>)
        ensures
            final(self).reader == old(self).reader,
            match r {
                Some(Ok(block)) => spec_next_block(
                    old(self).reader.map@,
                    old(self).next_position as int,
                ) == Ok::<Option<(Seq<u8>, int)>, Error>(
                    Some((block.data@, final(self).next_position as int)),
                ) && block.position == old(self).next_position,
                None => spec_next_block(old(self).reader.map@, old(self).next_position as int)
                    == Ok::<Option<(Seq<u8>, int)>, Error>(None) && final(self).next_position
                    == old(self).next_position,
                Some(Err(e)) => spec_next_block(
                    old(self).reader.map@,
                    old(self).next_position as int,
                ) == Err::<Option<(Seq<u8>, int)>, Error>(e) && final(self).next_position == old(
                    self,
                ).next_position,
            },
    {
        crate::util::flip_option(self.try_next())
    }
}

/// The state of a cursor inside the blocks of a compressed log: where the
/// next block starts, the block that is current, where that one starts, and
/// how many of its bytes are used up.
pub struct ChunksModel {
    pub next_position: int,
    pub block: Option<Seq<u8>>,
    pub block_position: int,
    pub offset: int,
}

impl ChunksModel {
    /// Whether the current block has bytes left.
    pub open spec fn has_unread(self) -> bool {
        self.block is Some && 0 <= self.offset < self.block->Some_0.len()
    }

    /// The bytes of the current block that are left.
    pub open spec fn unread(self) -> Seq<u8> {
        self.block->Some_0.skip(self.offset)
    }

    /// This state, `n` bytes further into the current block.
    pub open spec fn advanced(self, n: int) -> ChunksModel {
        ChunksModel { offset: self.offset + n, ..self }
    }

    /// The state in which a block with bytes left is current, if there is
    /// one: this state where its block has bytes left, else the state at the
    /// start of the next block of `map`, or nothing where the log has ended.
    pub open spec fn spec_fill(self, map: Seq<u8>) -> Result<Option<ChunksModel>, Error> {
        if self.has_unread() {
            Ok(Some(self))
        } else {
            match spec_next_block(map, self.next_position) {
                Err(e) => Err(e),
                Ok(None) => Ok(None),
                Ok(Some((data, next))) => Ok(
                    Some(
                        ChunksModel {
                            next_position: next,
                            block: Some(data),
                            block_position: self.next_position,
                            offset: 0,
                        },
                    ),
                ),
            }
        }
    }

    /// What decoding the next entry gives: the state afterwards, and the
    /// entry, or nothing where the log has ended. An entry lies inside one
    /// block: a block that ends inside an entry, or holds no byte at all, is a
    /// failure. A failure to decode an entry leaves the state at the start of
    /// that entry.
    pub open spec fn spec_next(self, map: Seq<u8>) -> (ChunksModel, Result<
        Option<Entry<Seq<u8>>>,
        Error,
    >) {
        match self.spec_fill(map) {
            Err(e) => (self, Err(e)),
            Ok(None) => (self, Ok(None)),
            Ok(Some(filled)) => match spec_read_entry(filled.unread()) {
                Err(e) => (filled, Err(e)),
                Ok((entry, n)) => (filled.advanced(n as int), Ok(Some(entry))),
            },
        }
    }

    /// What passing over the next entry gives: the state afterwards, and
    /// whether it failed. Where the log has ended there is no entry to pass
    /// over: `UnexpectedEof`.
    pub open spec fn spec_skip_next(self, map: Seq<u8>) -> (ChunksModel, Result<(), Error>) {
        match self.spec_fill(map) {
            Err(e) => (self, Err(e)),
            Ok(None) => (self, Err(Error::UnexpectedEof)),
            Ok(Some(filled)) => match spec_entry_len(filled.unread()) {
                Err(e) => (filled, Err(e)),
                Ok(n) => (filled.advanced(n as int), Ok(())),
            },
        }
    }

    /// What reading at most `max` bytes gives: the state afterwards and the
    /// bytes, which come from one block and are none where the log has ended.
    pub open spec fn spec_read(self, map: Seq<u8>, max: nat) -> (ChunksModel, Result<
        Seq<u8>,
        Error,
    >) {
        match self.spec_fill(map) {
            Err(e) => (self, Err(e)),
            Ok(None) => (self, Ok(Seq::empty())),
            Ok(Some(filled)) => {
                let n = if max <= filled.unread().len() {
                    max as int
                } else {
                    filled.unread().len() as int
                };
                (filled.advanced(n), Ok(filled.unread().take(n)))
            },
        }
    }

    /// The distance from the next block to the end of `map`.
    pub open spec fn blocks_left(self, map: Seq<u8>) -> nat {
        if self.next_position < map.len() {
            (map.len() - self.next_position) as nat
        } else {
            0
        }
    }

    /// What passing over `size` bytes gives, across as many blocks as it
    /// takes: the state afterwards, and whether it failed. Running out of
    /// blocks is `LogTooSmall`.
    pub open spec fn spec_skip(self, map: Seq<u8>, size: nat) -> (ChunksModel, Result<(), Error>)
        decreases self.blocks_left(map), size,
        via Self::spec_skip_decreases
    {
        if size == 0 {
            (self, Ok(()))
        } else {
            match self.spec_fill(map) {
                Err(e) => (self, Err(e)),
                Ok(None) => (self, Err(Error::LogTooSmall)),
                Ok(Some(filled)) => {
                    let n = if size <= filled.unread().len() {
                        size
                    } else {
                        filled.unread().len()
                    };
                    filled.advanced(n as int).spec_skip(map, (size - n) as nat)
                },
            }
        }
    }

    #[via_fn]
    proof fn spec_skip_decreases(self, map: Seq<u8>, size: nat) {
        if size != 0 {
            if let Ok(Some(filled)) = self.spec_fill(map) {
                if !self.has_unread() {
                    lemma_next_block_advances(map, self.next_position);
                }
            }
        }
    }
}

/// A block that was decoded at `position` ends behind `position` and inside
/// `map`.
pub proof fn lemma_next_block_advances(map: Seq<u8>, position: int)
    requires
        spec_next_block(map, position) is Ok,
        spec_next_block(map, position)->Ok_0 is Some,
    ensures
        0 <= position < spec_next_block(map, position)->Ok_0->Some_0.1 <= map.len(),
{
    crate::vlq::lemma_read_vlq_len(spec_tail(map, position));
}

/// A cursor over the bytes inside the blocks of a compressed log.
#[derive(Debug)]
pub struct BlockChunks<'a> {
    pub blocks: Blocks<'a>,
    pub current_block: Option<Block>,
    pub block_offset: usize,
}

impl<'a> View for BlockChunks<'a> {
    type V = ChunksModel;

    open spec fn view(&self) -> ChunksModel {
        ChunksModel {
            next_position: self.blocks.next_position as int,
            block: match self.current_block {
                Some(block) => Some(block.data@),
                None => None,
            },
            block_position: match self.current_block {
                Some(block) => block.position as int,
                None => 0,
            },
            offset: self.block_offset as int,
        }
    }
}

impl<'a> BlockChunks<'a> {
    /// A cursor in front of the first block that `blocks` will give.
    pub fn new(blocks: Blocks<'a>) -> (r: BlockChunks<'a>)
        ensures
            r.blocks == blocks,
            r@ == (ChunksModel {
                next_position: blocks.next_position as int,
                block: None,
                block_position: 0,
                offset: 0,
            }),
    {
        BlockChunks { blocks, current_block: None, block_offset: 0 }
    }

    /// Makes a block with bytes left current, loading the next block where
    /// the current one is used up. Gives `false` where the log has ended. A
    /// failure, or the end of the log, leaves the cursor where it was.
    pub fn fill(&mut self) -> (r: Result<bool, Error>)
        ensures
            final(self).blocks.reader == old(self).blocks.reader,
            match r {
                Ok(true) => old(self)@.spec_fill(old(self).blocks.reader.map@) == Ok::<
                    Option<ChunksModel>,
                    Error,
                >(Some(final(self)@)) && final(self).current_block is Some,
                Ok(false) => old(self)@.spec_fill(old(self).blocks.reader.map@) == Ok::<
                    Option<ChunksModel>,
                    Error,
                >(None) && *final(self) == *old(self),
                Err(e) => old(self)@.spec_fill(old(self).blocks.reader.map@) == Err::<
                    Option<ChunksModel>,
                    Error,
                >(e) && *final(self) == *old(self),
            },
    {
        let unread = match &self.current_block {
            Some(block) => self.block_offset < block.data.len(),
            None => false,
        };
        if unread {
            return Ok(true);
        }
        match self.blocks.try_next() {
            Ok(Some(block)) => {
                self.current_block = Some(block);
                self.block_offset = 0;
                Ok(true)
            },
            Ok(None) => Ok(false),
            Err(e) => Err(e),
        }
    }
}


/// The view of what `next` hands out.
pub open spec fn next_view(r: Result<Option<Entry<Vec<u8>>>, Error>) -> Result<
    Option<Entry<Seq<u8>>>,
    Error,
> {
    match r {
        Ok(Some(entry)) => Ok(Some(entry@)),
        Ok(None) => Ok(None),
        Err(e) => Err(e),
    }
}

/// The view of what `read` hands out.
pub open spec fn read_view(r: Result<Vec<u8>, Error>) -> Result<Seq<u8>, Error> {
    match r {
        Ok(bytes) => Ok(bytes@),
        Err(e) => Err(e),
    }
}

/// A source of bytes that can pass over some of them unread.
pub trait Skip {
    /// Passes over `amount` bytes.
    fn skip(&mut self, amount: usize) -> Result<(), Error>;
}

impl<'a> BlockChunks<'a> {
    /// Reads at most `max` bytes, all from one block, loading the next block
    /// where the current one is used up.
    pub fn read(&mut self, max: usize) -> (r: Result<Vec<u8>, Error>)
        ensures
            final(self).blocks.reader == old(self).blocks.reader,
            (final(self)@, read_view(r)) == old(self)@.spec_read(
                old(self).blocks.reader.map@,
                max as nat,
            ),
    {
        match self.fill() {
            Err(e) => Err(e),
            Ok(false) => Ok(Vec::new()),
            Ok(true) => {
                let offset: usize = self.block_offset;
                let (bytes, n) = match &self.current_block {
                    Some(block) => {
                        let left: usize = block.data.len() - offset;
                        let n: usize = if max <= left {
                            max
                        } else {
                            left
                        };
                        let part = slice_subrange(block.data.as_slice(), offset, offset + n);
                        proof {
                            assert(part@ =~= block.data@.skip(offset as int).take(n as int));
                        }
                        (vstd::slice::slice_to_vec(part), n)
                    },
                    None => (Vec::new(), 0),
                };
                self.block_offset = offset + n;
                Ok(bytes)
            },
        }
    }
}

impl<'a> Skip for BlockChunks<'a> {
    /// Passes over `amount` bytes, across as many blocks as it takes.
    fn skip(&mut self, amount: usize) -> (r: Result<(), Error>)
        ensures
            final(self).blocks.reader == old(self).blocks.reader,
            (final(self)@, r) == old(self)@.spec_skip(old(self).blocks.reader.map@, amount as nat),
    {
        let mut size: usize = amount;
        while size > 0
            invariant
                self.blocks.reader == old(self).blocks.reader,
                old(self)@.spec_skip(old(self).blocks.reader.map@, amount as nat)
                    == self@.spec_skip(self.blocks.reader.map@, size as nat),
            decreases self@.blocks_left(self.blocks.reader.map@), size,
        {
            let ghost before = self@;
            match self.fill() {
                Err(e) => {
                    return Err(e);
                },
                Ok(false) => {
                    return Err(Error::LogTooSmall);
                },
                Ok(true) => {
                    proof {
                        if !before.has_unread() {
                            lemma_next_block_advances(
                                self.blocks.reader.map@,
                                before.next_position,
                            );
                        }
                    }
                    let offset: usize = self.block_offset;
                    let left: usize = match &self.current_block {
                        Some(block) => block.data.len() - offset,
                        None => 0,
                    };
                    let n: usize = if size <= left {
                        size
                    } else {
                        left
                    };
                    self.block_offset = offset + n;
                    size = size - n;
                },
            }
        }
        Ok(())
    }
}

/// A cursor over the entries of a compressed log.
#[derive(Debug)]
pub struct EntryReader<'a> {
    pub read: BlockChunks<'a>,
}

impl<'a> EntryReader<'a> {
    /// A cursor at the first entry of the log.
    pub fn new(log_reader: &'a Reader) -> (r: EntryReader<'a>)
        ensures
            r.read.blocks.reader == log_reader,
            r.read@ == (ChunksModel {
                next_position: log_reader.header.header_size as int,
                block: None,
                block_position: 0,
                offset: 0,
            }),
    {
        EntryReader { read: BlockChunks::new(Blocks::new(log_reader)) }
    }

    /// A cursor at the first entry of the block that starts at `position`.
    pub fn new_at(log_reader: &'a Reader, position: usize) -> (r: EntryReader<'a>)
        ensures
            r.read.blocks.reader == log_reader,
            r.read@ == (ChunksModel {
                next_position: position as int,
                block: None,
                block_position: 0,
                offset: 0,
            }),
    {
        EntryReader { read: BlockChunks::new(Blocks::new_at(log_reader, position)) }
    }

    /// Decodes the entry at the cursor and moves behind it.
    pub fn next(&mut self) -> (r: Result<Option<Entry<Vec<u8>>>, Error>)
        ensures
            final(self).read.blocks.reader == old(self).read.blocks.reader,
            (final(self).read@, next_view(r)) == old(self).read@.spec_next(
                old(self).read.blocks.reader.map@,
            ),
    {
        match self.read.fill() {
            Err(e) => Err(e),
            Ok(false) => Ok(None),
            Ok(true) => {
                let offset: usize = self.read.block_offset;
                let parsed = match &self.read.current_block {
                    Some(block) => {
                        let slice = tail(block.data.as_slice(), offset);
                        match read_entry(slice) {
                            Ok((entry, n)) => Ok((entry.into_owned(), n)),
                            Err(e) => Err(e),
                        }
                    },
                    None => Err(Error::Internal),
                };
                match parsed {
                    Ok((entry, n)) => {
                        proof {
                            crate::log::lemma_read_entry_len(self.read@.unread());
                        }
                        self.read.block_offset = offset + n;
                        Ok(Some(entry))
                    },
                    Err(e) => Err(e),
                }
            },
        }
    }

    /// Moves the cursor behind the entry it stands at, without copying the
    /// entry's bytes.
    pub fn skip_next(&mut self) -> (r: Result<(), Error>)
        ensures
            final(self).read.blocks.reader == old(self).read.blocks.reader,
            (final(self).read@, r) == old(self).read@.spec_skip_next(
                old(self).read.blocks.reader.map@,
            ),
    {
        match self.read.fill() {
            Err(e) => Err(e),
            Ok(false) => Err(Error::UnexpectedEof),
            Ok(true) => {
                let offset: usize = self.read.block_offset;
                let measured = match &self.read.current_block {
                    Some(block) => entry_len(tail(block.data.as_slice(), offset)),
                    None => Err(Error::Internal),
                };
                match measured {
                    Ok(n) => {
                        self.read.block_offset = offset + n;
                        Ok(())
                    },
                    Err(e) => Err(e),
                }
            },
        }
    }
}

} // verus!
