//! Writing a log: entries are appended to an image in memory, one block at a
//! time where the log is compressed, and the header at its front is rewritten
//! on every flush.

use crate::error::Error;
use crate::log::parse::{
    lemma_blocks_within_append, lemma_blocks_within_wider, lemma_entry_roundtrip,
    lemma_frame_roundtrip, lemma_parse_blocks_append, lemma_parse_entries_append,
    lemma_snappy_remaining, lemma_uncompressed_remaining, spec_blocks_within, spec_concat,
    spec_parse_blocks, spec_parse_entries,
};
use crate::log::raw::{compress_vec, snappy_compressed, MAX_COMPRESS_INPUT};
use crate::log::{
    entries_view, spec_load_header, spec_open, CompressionType, EntriesModel, Entry,
    Header, Reader, HEADER_SIZE, MAJOR_VERSION, MINOR_VERSION, MIN_COMPRESSION_BLOCK_SIZE,
};
use crate::util::EFBIG;
use crate::vlq::{spec_write_vlq, write_vlq};
use vstd::prelude::*;

verus! {

/// The bytes that store `entry`: two variable-length integers and the
/// payload. A delete is a zero and the key's length, then the key; a put is
/// the key's length plus one and the value's length, then key and value.
pub open spec fn spec_encode_entry(entry: Entry<Seq<u8>>) -> Seq<u8> {
    match entry {
        Entry::Delete(key) => spec_write_vlq(0) + spec_write_vlq(key.len() as u64) + key,
        Entry::Put(key, value) => spec_write_vlq((key.len() + 1) as u64) + spec_write_vlq(
            value.len() as u64,
        ) + key + value,
    }
}

/// The bytes that store a put of `value` under `key`.
pub fn encode_put(key: &[u8], value: &[u8]) -> (out: Vec<u8>)
    requires
        key@.len() < u64::MAX,
    ensures
        out@ == spec_encode_entry(Entry::Put(key@, value@)),
        value@.len() <= u64::MAX,
{
    let mut out = write_vlq(key.len() as u64 + 1);
    let mut b = write_vlq(value.len() as u64);
    out.append(&mut b);
    out.extend_from_slice(key);
    out.extend_from_slice(value);
    out
}

/// The bytes that store a delete of `key`.
pub fn encode_delete(key: &[u8]) -> (out: Vec<u8>)
    requires
        key@.len() < u64::MAX,
    ensures
        out@ == spec_encode_entry(Entry::Delete(key@)),
{
    let mut out = write_vlq(0);
    let mut b = write_vlq(key.len() as u64);
    out.append(&mut b);
    out.extend_from_slice(key);
    out
}

/// Whether a key can be framed: a put writes the length of its key plus
/// one as a 64-bit number.
pub open spec fn spec_key_fits(key: Seq<u8>) -> bool {
    key.len() < u64::MAX
}

/// `a + b`, or the largest 64-bit number where the sum passes it.
pub open spec fn spec_saturating(a: u64, b: int) -> u64 {
    if a + b > u64::MAX {
        u64::MAX
    } else {
        (a + b) as u64
    }
}

/// The larger of `a` and `b`.
pub open spec fn spec_max(a: u64, b: u64) -> u64 {
    if a >= b {
        a
    } else {
        b
    }
}

/// The state of a writer: the header as it will next be stored, the image
/// with every finished block, the bytes of the entries in the block that is
/// still open, and their number.
pub struct WriterModel {
    pub header: Header,
    pub file: Seq<u8>,
    pub block: Seq<u8>,
    pub block_entries: nat,
}

impl WriterModel {
    /// The invariant of a writer: a header of the current version whose data
    /// end is the end of the image; in a compressed log a block size that the
    /// codec can take and an open block within it; in an uncompressed log no
    /// open block at all, and counters that the data end bounds.
    pub open spec fn wf(self) -> bool {
        &&& self.header.major_version == MAJOR_VERSION
        &&& self.header.minor_version == MINOR_VERSION
        &&& self.header.header_size == HEADER_SIZE
        &&& self.file.len() >= HEADER_SIZE
        &&& self.header.data_end == self.file.len()
        &&& match self.header.compression_type {
            CompressionType::Uncompressed => {
                &&& self.block.len() == 0
                &&& self.block_entries == 0
                &&& self.header.num_puts <= self.header.data_end
                &&& self.header.num_deletes <= self.header.data_end
            },
            CompressionType::Snappy => {
                &&& MIN_COMPRESSION_BLOCK_SIZE <= self.header.compression_block_size
                    <= MAX_COMPRESS_INPUT
                &&& self.block.len() <= self.header.compression_block_size
                &&& 2 * self.block_entries <= self.block.len()
            },
        }
    }

    /// This state once the open block is finished: compressed, framed by its
    /// compressed size and appended to the image. Nothing changes where no
    /// entry is open.
    pub open spec fn finalized(self) -> WriterModel {
        if self.block.len() == 0 {
            self
        } else {
            let compressed = snappy_compressed(self.block)->Some_0;
            let file = self.file + spec_write_vlq(compressed.len() as u64) + compressed;
            WriterModel {
                header: Header {
                    data_end: file.len() as u64,
                    max_entries_per_block: spec_max(
                        self.header.max_entries_per_block as u64,
                        self.block_entries as u64,
                    ) as u32,
                    ..self.header
                },
                file,
                block: Seq::empty(),
                block_entries: 0,
            }
        }
    }

    /// This state with the bytes of one more entry: at the end of the image
    /// in an uncompressed log, in the open block of a compressed one, which is
    /// finished first where the entry does not fit beside what it holds.
    pub open spec fn appended(self, encoded: Seq<u8>) -> WriterModel {
        match self.header.compression_type {
            CompressionType::Uncompressed => {
                let file = self.file + encoded;
                WriterModel {
                    header: Header { data_end: file.len() as u64, ..self.header },
                    file,
                    ..self
                }
            },
            CompressionType::Snappy => {
                let base = if self.block.len() + encoded.len()
                    > self.header.compression_block_size {
                    self.finalized()
                } else {
                    self
                };
                WriterModel {
                    block: base.block + encoded,
                    block_entries: base.block_entries + 1,
                    ..base
                }
            },
        }
    }

    /// Whether an entry of `len` encoded bytes can be written: in a
    /// compressed log it has to fit a block.
    pub open spec fn accepts(self, len: nat) -> bool {
        self.header.compression_type == CompressionType::Snappy ==> len
            <= self.header.compression_block_size
    }

    /// What a put gives: `IO(EFBIG)` for a key too long to be framed,
    /// `InvalidCompressionBlockSize` for an entry that no block can hold,
    /// else the state with the entry appended and counted.
    pub open spec fn spec_put(self, key: Seq<u8>, value: Seq<u8>) -> Result<WriterModel, Error> {
        let encoded = spec_encode_entry(Entry::Put(key, value));
        if !spec_key_fits(key) {
            Err(Error::IO(EFBIG))
        } else if !self.accepts(encoded.len()) {
            Err(Error::InvalidCompressionBlockSize)
        } else {
            let next = self.appended(encoded);
            Ok(
                WriterModel {
                    header: Header {
                        num_puts: spec_saturating(next.header.num_puts, 1),
                        put_size: spec_saturating(next.header.put_size, encoded.len() as int),
                        max_key_len: spec_max(next.header.max_key_len, key.len() as u64),
                        max_value_len: spec_max(next.header.max_value_len, value.len() as u64),
                        ..next.header
                    },
                    ..next
                },
            )
        }
    }

    /// What a delete gives: `IO(EFBIG)` for a key too long to be framed,
    /// `InvalidCompressionBlockSize` for an entry that no block can hold,
    /// else the state with the entry appended and counted.
    pub open spec fn spec_delete(self, key: Seq<u8>) -> Result<WriterModel, Error> {
        let encoded = spec_encode_entry(Entry::Delete(key));
        if !spec_key_fits(key) {
            Err(Error::IO(EFBIG))
        } else if !self.accepts(encoded.len()) {
            Err(Error::InvalidCompressionBlockSize)
        } else {
            let next = self.appended(encoded);
            Ok(
                WriterModel {
                    header: Header {
                        num_deletes: spec_saturating(next.header.num_deletes, 1),
                        delete_size: spec_saturating(
                            next.header.delete_size,
                            encoded.len() as int,
                        ),
                        max_key_len: spec_max(next.header.max_key_len, key.len() as u64),
                        ..next.header
                    },
                    ..next
                },
            )
        }
    }

    /// What a flush gives: the state afterwards, and whether it failed. The
    /// open block is finished. Where the header then meets the invariants of
    /// a header, it replaces the one at the front of the image. Where it does
    /// not, which is where a compressed log takes fewer bytes than it counts
    /// puts or deletes, the flush fails with `LogHeaderCorrupt` and the front
    /// of the image stays as it was.
    pub open spec fn spec_flush(self) -> (WriterModel, Result<(), Error>) {
        let done = self.finalized();
        if done.header.valid() {
            (WriterModel { file: done.header.spec_bytes() + done.file.skip(84), ..done }, Ok(()))
        } else {
            (done, Err(Error::LogHeaderCorrupt))
        }
    }

    /// The state after `entries` were written in order, or the first failure
    /// of writing one.
    pub open spec fn spec_written(self, entries: Seq<Entry<Seq<u8>>>) -> Result<WriterModel, Error>
        decreases entries.len(),
    {
        if entries.len() == 0 {
            Ok(self)
        } else {
            match self.spec_written(entries.drop_last()) {
                Err(e) => Err(e),
                Ok(before) => match entries.last() {
                    Entry::Put(key, value) => before.spec_put(key, value),
                    Entry::Delete(key) => before.spec_delete(key),
                },
            }
        }
    }

    /// The entries that this writer holds, in order: those that the image
    /// holds behind its header, then those of the open block; or the first
    /// failure of decoding them.
    pub open spec fn spec_logged(self) -> Result<Seq<Entry<Seq<u8>>>, Error> {
        match self.header.compression_type {
            CompressionType::Uncompressed => spec_parse_entries(self.file.skip(84)),
            CompressionType::Snappy => spec_concat(
                spec_parse_blocks(self.file.skip(84)),
                spec_parse_entries(self.block),
            ),
        }
    }

    /// Whether what this writer holds decodes.
    pub open spec fn readable(self) -> bool {
        self.spec_logged() is Ok
    }

    /// Whether what this writer holds decodes and its header counts the
    /// entries of a block rightly: no block of a compressed log holds more
    /// entries than the header records, and the open block holds as many as
    /// the writer counts; the header of an uncompressed log records none.
    pub open spec fn counted(self) -> bool {
        &&& self.readable()
        &&& match self.header.compression_type {
            CompressionType::Uncompressed => self.header.max_entries_per_block == 0,
            CompressionType::Snappy => {
                &&& spec_blocks_within(
                    self.file.skip(84),
                    self.header.max_entries_per_block as nat,
                )
                &&& spec_parse_entries(self.block)->Ok_0.len() == self.block_entries
            },
        }
    }
}

/// What reading the image `data` back gives: every entry that a cursor
/// finds from the end of the header to the data end, or the first failure
/// of opening the image or decoding an entry.
pub open spec fn spec_read_back(data: Seq<u8>) -> Result<Seq<Entry<Seq<u8>>>, Error> {
    match spec_open(data) {
        Err(e) => Err(e),
        Ok((header, map)) => EntriesModel::at(
            header.compression_type,
            header.header_size as int,
        ).spec_remaining(map),
    }
}

/// The header of a writer meets the invariants of a header exactly where
/// the data end bounds the two counters, which it always does in an
/// uncompressed log.
pub proof fn lemma_header_valid(w: WriterModel)
    requires
        w.wf(),
    ensures
        w.header.valid() <==> w.header.num_puts <= w.header.data_end && w.header.num_deletes
            <= w.header.data_end,
        w.header.compression_type == CompressionType::Uncompressed ==> w.header.valid(),
{
}

/// A flushed image reads back as the header of the writer and the entries
/// that the writer holds.
pub proof fn lemma_flushed_reads_back(w: WriterModel)
    requires
        w.wf(),
        w.block.len() == 0,
        w.header.valid(),
        w.file.subrange(0, 84) == w.header.spec_bytes(),
    ensures
        spec_load_header(w.file) == Ok::<Header, Error>(w.header),
        spec_read_back(w.file) == w.spec_logged(),
{
    let payload = w.file.skip(84);
    assert(w.file =~= w.header.spec_bytes() + payload);
    crate::log::lemma_header_stored(w.header, payload);
    assert(w.file.take(w.header.data_end as int) =~= w.file);
    match w.header.compression_type {
        CompressionType::Uncompressed => {
            lemma_uncompressed_remaining(w.file, 84);
        },
        CompressionType::Snappy => {
            let chunks = crate::log::snappy::ChunksModel {
                next_position: 84,
                block: None,
                block_position: 0,
                offset: 0,
            };
            lemma_snappy_remaining(chunks, w.file);
            assert(spec_parse_entries(w.block) == Ok::<Seq<Entry<Seq<u8>>>, Error>(
                Seq::empty(),
            ));
            if let Ok(entries) = spec_parse_blocks(payload) {
                assert(entries + Seq::<Entry<Seq<u8>>>::empty() =~= entries);
            }
        },
    }
}

/// A log that is open for writing.
#[derive(Debug)]
pub struct Writer {
    pub header: Header,
    pub file: Vec<u8>,
    pub block: Vec<u8>,
    pub block_entries: u32,
}

impl View for Writer {
    type V = WriterModel;

    open spec fn view(&self) -> WriterModel {
        WriterModel {
            header: self.header,
            file: self.file@,
            block: self.block@,
            block_entries: self.block_entries as nat,
        }
    }
}

/// The state of a writer on a fresh log.
pub open spec fn spec_created(
    compression_type: CompressionType,
    compression_block_size: u32,
    file_identifier: u32,
) -> WriterModel {
    let header = Header {
        major_version: MAJOR_VERSION,
        minor_version: MINOR_VERSION,
        file_identifier,
        num_puts: 0,
        num_deletes: 0,
        data_end: HEADER_SIZE as u64,
        max_key_len: 0,
        max_value_len: 0,
        delete_size: 0,
        compression_type,
        compression_block_size: if compression_type == CompressionType::Snappy {
            compression_block_size
        } else {
            0
        },
        put_size: 0,
        header_size: HEADER_SIZE,
        max_entries_per_block: 0,
    };
    WriterModel { header, file: header.spec_bytes(), block: Seq::empty(), block_entries: 0 }
}

/// Whether a log of this kind can be written with this block size: a
/// compressed log needs one of at least ten bytes that the codec can take.
pub open spec fn spec_block_size_ok(
    compression_type: CompressionType,
    compression_block_size: u32,
) -> bool {
    compression_type == CompressionType::Snappy ==> MIN_COMPRESSION_BLOCK_SIZE
        <= compression_block_size <= MAX_COMPRESS_INPUT
}

/// What reopening the image `data` for writing gives: the failure of opening
/// it for reading, `InvalidCompressionBlockSize` for a compressed log whose
/// block size the codec cannot take, else a writer at the data end with no
/// open block.
pub open spec fn spec_append(data: Seq<u8>) -> Result<WriterModel, Error> {
    match spec_open(data) {
        Err(e) => Err(e),
        Ok((header, map)) => {
            if !spec_block_size_ok(header.compression_type, header.compression_block_size) {
                Err(Error::InvalidCompressionBlockSize)
            } else {
                Ok(WriterModel { header, file: map, block: Seq::empty(), block_entries: 0 })
            }
        },
    }
}

/// Whether each of `entries` can be written to a log of this kind: in a
/// compressed log the bytes of each have to fit a block.
pub open spec fn spec_all_fit(
    compression_type: CompressionType,
    compression_block_size: u32,
    entries: Seq<Entry<Seq<u8>>>,
) -> bool {
    forall|i: int|
        0 <= i < entries.len() ==> spec_encode_entry(#[trigger] entries[i]).len()
            <= compression_block_size || compression_type != CompressionType::Snappy
}

/// Whether the key of each of `entries` can be framed.
pub open spec fn spec_all_keys_fit(entries: Seq<Entry<Seq<u8>>>) -> bool {
    forall|i: int| 0 <= i < entries.len() ==> spec_key_fits((#[trigger] entries[i]).spec_key())
}

/// What writing `entries` into a fresh log and flushing it gives: the
/// image, or the first failure on the way.
pub open spec fn spec_write_all(
    compression_type: CompressionType,
    compression_block_size: u32,
    file_identifier: u32,
    entries: Seq<Entry<Seq<u8>>>,
) -> Result<Seq<u8>, Error> {
    if !spec_block_size_ok(compression_type, compression_block_size) {
        Err(Error::InvalidCompressionBlockSize)
    } else {
        match spec_created(
            compression_type,
            compression_block_size,
            file_identifier,
        ).spec_written(entries) {
            Err(e) => Err(e),
            Ok(written) => match written.spec_flush() {
                (flushed, Ok(())) => Ok(flushed.file),
                (_, Err(e)) => Err(e),
            },
        }
    }
}

/// The view of what writing an image hands out.
pub open spec fn write_view(r: Result<Vec<u8>, Error>) -> Result<Seq<u8>, Error> {
    match r {
        Ok(image) => Ok(image@),
        Err(e) => Err(e),
    }
}

/// Once writing an entry has failed, writing the entries behind it changes
/// nothing of the failure.
pub proof fn lemma_written_fails(
    start: WriterModel,
    entries: Seq<Entry<Seq<u8>>>,
    failed: int,
    upto: int,
)
    requires
        0 <= failed <= upto <= entries.len(),
        start.spec_written(entries.take(failed)) is Err,
    ensures
        start.spec_written(entries.take(upto)) == start.spec_written(entries.take(failed)),
    decreases upto - failed,
{
    if upto > failed {
        lemma_written_fails(start, entries, failed, upto - 1);
        assert(entries.take(upto).drop_last() =~= entries.take(upto - 1));
    }
}

impl Writer {
    /// Reopens the log whose image is `data`, to write on behind its data
    /// end.
    pub fn append(data: Vec<u8>) -> (r: Result<Writer, Error>)
        ensures
            match r {
                Ok(w) => spec_append(data@) == Ok::<WriterModel, Error>(w@) && w@.wf(),
                Err(e) => spec_append(data@) == Err::<WriterModel, Error>(e),
            },
    {
        let reader = match Reader::open(data) {
            Ok(reader) => reader,
            Err(e) => {
                return Err(e);
            },
        };
        if reader.header.compression_type == CompressionType::Snappy
            && reader.header.compression_block_size > MAX_COMPRESS_INPUT {
            return Err(Error::InvalidCompressionBlockSize);
        }
        let w = Writer { header: reader.header, file: reader.map, block: Vec::new(), block_entries: 0 };
        proof {
            assert(w@.block =~= Seq::<u8>::empty());
        }
        Ok(w)
    }

    /// Starts a fresh log. `file_identifier` pairs the log with its index;
    /// the caller picks it at random. The block size counts only for a
    /// compressed log.
    pub fn create(
        compression_type: CompressionType,
        compression_block_size: u32,
        file_identifier: u32,
    ) -> (r: Result<Writer, Error>)
        ensures
            match r {
                Ok(w) => spec_block_size_ok(compression_type, compression_block_size) && w@
                    == spec_created(compression_type, compression_block_size, file_identifier)
                    && w@.wf() && w@.spec_logged() == Ok::<Seq<Entry<Seq<u8>>>, Error>(
                    Seq::empty(),
                ) && w@.counted(),
                Err(e) => !spec_block_size_ok(compression_type, compression_block_size) && e
                    == Error::InvalidCompressionBlockSize,
            },
    {
        let block_size: u32 = match compression_type {
            CompressionType::Snappy => {
                if compression_block_size < MIN_COMPRESSION_BLOCK_SIZE || compression_block_size as u64
                    > MAX_COMPRESS_INPUT as u64 {
                    return Err(Error::InvalidCompressionBlockSize);
                }
                compression_block_size
            },
            CompressionType::Uncompressed => 0,
        };
        let header = Header {
            major_version: MAJOR_VERSION,
            minor_version: MINOR_VERSION,
            file_identifier,
            num_puts: 0,
            num_deletes: 0,
            data_end: HEADER_SIZE as u64,
            max_key_len: 0,
            max_value_len: 0,
            delete_size: 0,
            compression_type,
            compression_block_size: block_size,
            put_size: 0,
            header_size: HEADER_SIZE,
            max_entries_per_block: 0,
        };
        let file = header.to_bytes();
        let w = Writer { header, file, block: Vec::new(), block_entries: 0 };
        proof {
            assert(w@.block =~= Seq::<u8>::empty());
            assert(w@.file.skip(84) =~= Seq::<u8>::empty());
            assert(Seq::<Entry<Seq<u8>>>::empty() + Seq::<Entry<Seq<u8>>>::empty() =~= Seq::<
                Entry<Seq<u8>>,
            >::empty());
        }
        Ok(w)
    }

    /// Finishes the open block: compresses it, frames it by its compressed
    /// size and appends it to the image.
    fn finalize_block(&mut self)
        requires
            old(self)@.wf(),
        ensures
            final(self)@ == old(self)@.finalized(),
            final(self)@.wf(),
            final(self)@.block.len() == 0,
            old(self)@.readable() ==> final(self)@.spec_logged() == old(self)@.spec_logged(),
            old(self)@.counted() ==> final(self)@.counted(),
    {
        if self.block.len() == 0 {
            return ;
        }
        match compress_vec(self.block.as_slice()) {
            Some(compressed) => {
                let compressed_size: usize = compressed.len();
                proof {
                    let payload = self.file@.skip(84);
                    let frame = spec_write_vlq(compressed@.len() as u64) + compressed@;
                    lemma_frame_roundtrip(compressed@, self.block@);
                    assert((self.file@ + spec_write_vlq(compressed@.len() as u64)
                        + compressed@).skip(84) =~= payload + frame);
                    if old(self)@.counted() {
                        let recorded = self.header.max_entries_per_block as nat;
                        let widened = spec_max(
                            self.header.max_entries_per_block as u64,
                            self.block_entries as u64,
                        ) as nat;
                        lemma_blocks_within_wider(payload, recorded, widened);
                        lemma_blocks_within_append(payload, frame, self.block@, widened);
                    }
                    if old(self)@.readable() {
                        lemma_parse_blocks_append(payload, frame, self.block@);
                        assert(spec_parse_entries(Seq::<u8>::empty()) == Ok::<
                            Seq<Entry<Seq<u8>>>,
                            Error,
                        >(Seq::empty()));
                        let logged = old(self)@.spec_logged()->Ok_0;
                        assert(logged + Seq::<Entry<Seq<u8>>>::empty() =~= logged);
                    }
                }
                let mut frame = write_vlq(compressed_size as u64);
                self.file.append(&mut frame);
                self.file.extend_from_slice(compressed.as_slice());
                self.header.data_end = self.file.len() as u64;
                if self.block_entries > self.header.max_entries_per_block {
                    self.header.max_entries_per_block = self.block_entries;
                }
                self.block.clear();
                self.block_entries = 0;
                proof {
                    assert(self@.file =~= old(self)@.finalized().file);
                    assert(self@.block =~= old(self)@.finalized().block);
                }
            },
            None => {},
        }
    }

    /// Appends the bytes of one encoded entry.
    fn append_encoded(&mut self, encoded: &Vec<u8>, Ghost(entry): Ghost<Entry<Seq<u8>>>)
        requires
            old(self)@.wf(),
            old(self)@.accepts(encoded@.len()),
            encoded@ == spec_encode_entry(entry),
            entry.spec_key().len() < u64::MAX,
            entry is Put ==> entry->Put_1.len() <= u64::MAX,
        ensures
            final(self)@ == old(self)@.appended(encoded@),
            encoded@.len() >= 2,
            final(self)@.header.data_end >= old(self)@.header.data_end,
            old(self)@.header.compression_type == CompressionType::Uncompressed ==> final(self)@.header.data_end >= old(self)@.header.data_end + 2,
            final(self)@.wf(),
            old(self)@.readable() ==> final(self)@.spec_logged() == Ok::<
                Seq<Entry<Seq<u8>>>,
                Error,
            >(old(self)@.spec_logged()->Ok_0.push(entry)),
            old(self)@.counted() ==> final(self)@.counted(),
    {
        proof {
            lemma_entry_roundtrip(entry, Seq::empty());
        }
        match self.header.compression_type {
            CompressionType::Uncompressed => {
                proof {
                    assert((self.file@ + encoded@).skip(84) =~= self.file@.skip(84) + encoded@);
                    if old(self)@.readable() {
                        lemma_parse_entries_append(self.file@.skip(84), entry);
                    }
                }
                self.file.extend_from_slice(encoded.as_slice());
                self.header.data_end = self.file.len() as u64;
                proof {
                    assert(self@.file =~= old(self)@.appended(encoded@).file);
                    assert(self@.block =~= old(self)@.appended(encoded@).block);
                }
            },
            CompressionType::Snappy => {
                if encoded.len() > self.header.compression_block_size as usize - self.block.len() {
                    self.finalize_block();
                }
                proof {
                    if old(self)@.readable() {
                        lemma_parse_entries_append(self.block@, entry);
                        let stored = spec_parse_blocks(self.file@.skip(84))->Ok_0;
                        let open = spec_parse_entries(self.block@)->Ok_0;
                        assert(stored + open.push(entry) =~= (stored + open).push(entry));
                    }
                }
                self.block.extend_from_slice(encoded.as_slice());
                self.block_entries = self.block_entries + 1;
                proof {
                    assert(self@.file =~= old(self)@.appended(encoded@).file);
                    assert(self@.block =~= old(self)@.appended(encoded@).block);
                }
            },
        }
    }

    /// Whether an entry of `len` encoded bytes can be written.
    fn accepts(&self, len: usize) -> (ok: bool)
        ensures
            ok == self@.accepts(len as nat),
    {
        match self.header.compression_type {
            CompressionType::Uncompressed => true,
            CompressionType::Snappy => len as u64 <= self.header.compression_block_size as u64,
        }
    }

    /// Appends a put of `value` under `key`. An entry that no block can hold
    /// is refused and leaves the writer as it was.
    pub fn put(&mut self, key: &[u8], value: &[u8]) -> (r: Result<(), Error>)
        requires
            old(self)@.wf(),
        ensures
            match r {
                Ok(()) => old(self)@.spec_put(key@, value@) == Ok::<WriterModel, Error>(
                    final(self)@,
                ),
                Err(e) => old(self)@.spec_put(key@, value@) == Err::<WriterModel, Error>(e)
                    && final(self)@ == old(self)@,
            },
            final(self)@.wf(),
            r is Ok && old(self)@.readable() ==> final(self)@.spec_logged() == Ok::<
                Seq<Entry<Seq<u8>>>,
                Error,
            >(old(self)@.spec_logged()->Ok_0.push(Entry::Put(key@, value@))),
            old(self)@.counted() ==> final(self)@.counted(),
    {
        if key.len() as u64 == u64::MAX {
            return Err(Error::IO(EFBIG));
        }
        let value_len: u64 = value.len() as u64;
        let encoded = encode_put(key, value);
        if !self.accepts(encoded.len()) {
            return Err(Error::InvalidCompressionBlockSize);
        }
        self.append_encoded(&encoded, Ghost(Entry::Put(key@, value@)));
        self.header.num_puts = self.header.num_puts.saturating_add(1);
        self.header.put_size = self.header.put_size.saturating_add(encoded.len() as u64);
        if key.len() as u64 > self.header.max_key_len {
            self.header.max_key_len = key.len() as u64;
        }
        if value_len > self.header.max_value_len {
            self.header.max_value_len = value_len;
        }
        Ok(())
    }

    /// Appends a delete of `key`. An entry that no block can hold is refused
    /// and leaves the writer as it was.
    pub fn delete(&mut self, key: &[u8]) -> (r: Result<(), Error>)
        requires
            old(self)@.wf(),
        ensures
            match r {
                Ok(()) => old(self)@.spec_delete(key@) == Ok::<WriterModel, Error>(final(self)@),
                Err(e) => old(self)@.spec_delete(key@) == Err::<WriterModel, Error>(e)
                    && final(self)@ == old(self)@,
            },
            final(self)@.wf(),
            r is Ok && old(self)@.readable() ==> final(self)@.spec_logged() == Ok::<
                Seq<Entry<Seq<u8>>>,
                Error,
            >(old(self)@.spec_logged()->Ok_0.push(Entry::Delete(key@))),
            old(self)@.counted() ==> final(self)@.counted(),
    {
        if key.len() as u64 == u64::MAX {
            return Err(Error::IO(EFBIG));
        }
        let encoded = encode_delete(key);
        if !self.accepts(encoded.len()) {
            return Err(Error::InvalidCompressionBlockSize);
        }
        self.append_encoded(&encoded, Ghost(Entry::Delete(key@)));
        self.header.num_deletes = self.header.num_deletes.saturating_add(1);
        self.header.delete_size = self.header.delete_size.saturating_add(encoded.len() as u64);
        if key.len() as u64 > self.header.max_key_len {
            self.header.max_key_len = key.len() as u64;
        }
        Ok(())
    }

    /// Finishes the open block and rewrites the header at the front of the
    /// image, so that the image holds every entry written so far. It fails
    /// where the header would not load again: the open block is finished
    /// all the same, and the front of the image stays as it was.
    pub fn flush(&mut self) -> (r: Result<(), Error>)
        requires
            old(self)@.wf(),
        ensures
            (final(self)@, r) == old(self)@.spec_flush(),
            final(self)@.wf(),
            final(self)@.block.len() == 0,
            old(self)@.header.compression_type == CompressionType::Uncompressed ==> r is Ok,
            r is Ok ==> final(self)@.header.valid() && spec_load_header(final(self)@.file) == Ok::<
                Header,
                Error,
            >(final(self)@.header) && spec_read_back(final(self)@.file) == final(self)@.spec_logged(),
            old(self)@.readable() ==> final(self)@.spec_logged() == old(self)@.spec_logged(),
            old(self)@.counted() ==> final(self)@.counted(),
    {
        self.finalize_block();
        proof {
            lemma_header_valid(self@);
        }
        if self.header.num_puts > self.header.data_end || self.header.num_deletes
            > self.header.data_end {
            return Err(Error::LogHeaderCorrupt);
        }
        let stored = self.header.to_bytes();
        let ghost before = self.file@;
        let ghost done = self@;
        let mut i: usize = 0;
        while i < 84
            invariant
                i <= 84,
                self@.header == done.header,
                self@.block == done.block,
                self@.block_entries == done.block_entries,
                stored@.len() == 84,
                self.file@.len() == before.len(),
                before.len() >= 84,
                forall|j: int| 0 <= j < i ==> self.file@[j] == stored@[j],
                forall|j: int| i <= j < before.len() ==> self.file@[j] == before[j],
            decreases 84 - i,
        {
            self.file.set(i, stored[i]);
            i = i + 1;
        }
        proof {
            assert(self.file@ =~= stored@ + before.skip(84));
            assert(self.file@.skip(84) =~= before.skip(84));
            assert(self.file@.subrange(0, 84) =~= stored@);
            lemma_flushed_reads_back(self@);
        }
        Ok(())
    }

    /// Writes `entries` in order into a fresh log and hands out the finished
    /// image, which reads back as `entries`. It fails with
    /// `InvalidCompressionBlockSize` where the block size is refused or an
    /// entry does not fit a block, with `IO(EFBIG)` for a key too long to be
    /// framed, and with `LogHeaderCorrupt` where the flush at the end fails,
    /// which it never does in an uncompressed log.
    pub fn write_all(
        compression_type: CompressionType,
        compression_block_size: u32,
        file_identifier: u32,
        entries: &Vec<Entry<Vec<u8>>>,
    ) -> (r: Result<Vec<u8>, Error>)
        ensures
            write_view(r) == spec_write_all(
                compression_type,
                compression_block_size,
                file_identifier,
                entries_view(entries@),
            ),
            r is Ok ==> spec_read_back(r->Ok_0@) == Ok::<Seq<Entry<Seq<u8>>>, Error>(
                entries_view(entries@),
            ),
            r is Ok ==> spec_block_size_ok(compression_type, compression_block_size)
                && spec_all_fit(
                compression_type,
                compression_block_size,
                entries_view(entries@),
            ) && spec_all_keys_fit(entries_view(entries@)),
            compression_type == CompressionType::Uncompressed && spec_all_keys_fit(
                entries_view(entries@),
            ) ==> r is Ok,
            r is Err ==> r->Err_0 == Error::InvalidCompressionBlockSize || r->Err_0 == Error::IO(
                EFBIG,
            ) || (r->Err_0 == Error::LogHeaderCorrupt && compression_type
                == CompressionType::Snappy),
    {
        let mut w = match Writer::create(compression_type, compression_block_size, file_identifier) {
            Ok(w) => w,
            Err(e) => {
                return Err(e);
            },
        };
        let ghost start = w@;
        let ghost all = entries_view(entries@);
        let mut i: usize = 0;
        proof {
            assert(all.take(0) =~= Seq::<Entry<Seq<u8>>>::empty());
        }
        while i < entries.len()
            invariant
                i <= entries@.len(),
                all == entries_view(entries@),
                w@.wf(),
                spec_all_keys_fit(all.take(i as int)),
                w@.header.compression_type == compression_type,
                compression_type == CompressionType::Snappy ==> w@.header.compression_block_size
                    == compression_block_size,
                spec_block_size_ok(compression_type, compression_block_size),
                start == spec_created(compression_type, compression_block_size, file_identifier),
                start.spec_written(all.take(i as int)) == Ok::<WriterModel, Error>(w@),
                w@.spec_logged() == Ok::<Seq<Entry<Seq<u8>>>, Error>(all.take(i as int)),
                spec_all_fit(compression_type, compression_block_size, all.take(i as int)),
            decreases entries.len() - i,
        {
            let ghost before = w@;
            proof {
                assert(all[i as int] == entries@[i as int]@);
                assert(all.take(i + 1).drop_last() =~= all.take(i as int));
                assert(all.take(i + 1).last() == all[i as int]);
                assert(all.take(i + 1) =~= all.take(i as int).push(all[i as int]));
            }
            let written = match &entries[i] {
                Entry::Put(key, value) => w.put(key.as_slice(), value.as_slice()),
                Entry::Delete(key) => w.delete(key.as_slice()),
            };
            match written {
                Ok(()) => {
                    proof {
                        assert(before.accepts(spec_encode_entry(all[i as int]).len()));
                        assert(spec_key_fits(all[i as int].spec_key()));
                        assert forall|j: int| 0 <= j < i + 1 implies spec_key_fits(
                            (#[trigger] all.take(i + 1)[j]).spec_key(),
                        ) by {
                            if j < i {
                                assert(all.take(i + 1)[j] == all.take(i as int)[j]);
                            }
                        }
                        assert forall|j: int| 0 <= j < i + 1 implies spec_encode_entry(
                            #[trigger] all.take(i + 1)[j],
                        ).len() <= compression_block_size || compression_type
                            != CompressionType::Snappy by {
                            if j < i {
                                assert(all.take(i + 1)[j] == all.take(i as int)[j]);
                            }
                        }
                    }
                },
                Err(e) => {
                    proof {
                        if compression_type == CompressionType::Uncompressed {
                            assert(!spec_key_fits(all[i as int].spec_key()));
                            assert(!spec_all_keys_fit(all));
                        }
                        lemma_written_fails(start, all, i + 1, all.len() as int);
                        assert(all.take(all.len() as int) =~= all);
                    }
                    return Err(e);
                },
            }
            i = i + 1;
        }
        proof {
            assert(all.take(i as int) =~= all);
        }
        match w.flush() {
            Ok(()) => Ok(w.file),
            Err(e) => Err(e),
        }
    }

    /// The image as it stands: complete up to the last flush.
    pub fn bytes(&self) -> (out: &Vec<u8>)
        ensures
            out@ == self@.file,
    {
        &self.file
    }

    /// Flushes and hands out the finished image, or the failure of the
    /// flush.
    pub fn close(self) -> (r: Result<Vec<u8>, Error>)
        requires
            self@.wf(),
        ensures
            match r {
                Ok(image) => self@.spec_flush().1 is Ok && image@ == self@.spec_flush().0.file,
                Err(e) => self@.spec_flush().1 == Err::<(), Error>(e),
            },
            self@.header.compression_type == CompressionType::Uncompressed ==> r is Ok,
            r is Ok ==> spec_load_header(r->Ok_0@) == Ok::<Header, Error>(
                self@.spec_flush().0.header,
            ) && self@.spec_flush().0.header.valid(),
            r is Ok && self@.readable() ==> spec_read_back(r->Ok_0@) == self@.spec_logged(),
    {
        let mut w = self;
        match w.flush() {
            Ok(()) => Ok(w.file),
            Err(e) => Err(e),
        }
    }
}

} // verus!
