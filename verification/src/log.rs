//! The log: a fixed header followed by put and delete entries in insertion
//! order, optionally packed into compressed blocks.

use crate::codec::{get_u32, get_u64, put_u32, put_u64, spec_u32_at, spec_u64_at};
use crate::error::Error;
use crate::log::snappy::{spec_read_block, ChunksModel};
use crate::util::flip_option;
use crate::vlq::{read_vlq, spec_read_vlq};
use vstd::bytes::{spec_u32_to_le_bytes, spec_u64_to_le_bytes};
use vstd::prelude::*;
use vstd::slice::{slice_subrange, slice_to_vec};

pub mod parse;
pub mod raw;
pub mod snappy;
pub mod uncompressed;
pub mod writer;

pub use crate::log::writer::Writer;

verus! {

/// The first four bytes of every log.
pub const MAGIC: u32 = 0x49b39c95;

/// The only major format version that is read.
pub const MAJOR_VERSION: u32 = 1;

/// The newest minor format version that is read.
pub const MINOR_VERSION: u32 = 0;

/// The length of the header in bytes.
pub const HEADER_SIZE: u32 = 84;

/// The smallest block size a compressed log may declare.
pub const MIN_COMPRESSION_BLOCK_SIZE: u32 = 10;

/// How the payload of a log is stored.
#[derive(Clone, Copy, Debug, PartialEq, Eq, PartialOrd, Ord, Structural)]
pub enum CompressionType {
    Uncompressed,
    Snappy,
}

impl CompressionType {
    /// The number that stands for this kind in a header.
    pub open spec fn spec_raw(self) -> u32 {
        match self {
            CompressionType::Uncompressed => 0,
            CompressionType::Snappy => 1,
        }
    }

    /// The number that stands for this kind in a header.
    pub fn as_raw(&self) -> (raw: u32)
        ensures
            raw == self.spec_raw(),
    {
        match self {
            CompressionType::Uncompressed => 0,
            CompressionType::Snappy => 1,
        }
    }
}

/// The prelude of a log.
#[derive(Clone, Copy, Debug, PartialEq, Eq, Structural)]
pub struct Header {
    pub major_version: u32,
    pub minor_version: u32,
    pub file_identifier: u32,
    pub num_puts: u64,
    pub num_deletes: u64,
    pub data_end: u64,
    pub max_key_len: u64,
    pub max_value_len: u64,
    pub delete_size: u64,
    pub compression_type: CompressionType,
    pub compression_block_size: u32,
    pub put_size: u64,
    pub header_size: u32,
    pub max_entries_per_block: u32,
}

/// The header whose fields are the ones stored in the first 84 bytes of `s`,
/// with `compression_type` already decoded.
pub open spec fn spec_header_fields(s: Seq<u8>, compression_type: CompressionType) -> Header {
    Header {
        major_version: spec_u32_at(s, 4),
        minor_version: spec_u32_at(s, 8),
        file_identifier: spec_u32_at(s, 12),
        num_puts: spec_u64_at(s, 16),
        num_deletes: spec_u64_at(s, 24),
        data_end: spec_u64_at(s, 32),
        max_key_len: spec_u64_at(s, 40),
        max_value_len: spec_u64_at(s, 48),
        delete_size: spec_u64_at(s, 56),
        compression_type,
        compression_block_size: spec_u32_at(s, 68),
        put_size: spec_u64_at(s, 72),
        header_size: HEADER_SIZE,
        max_entries_per_block: spec_u32_at(s, 80),
    }
}

/// What loading a header from the front of `s` gives. The fields are read in
/// file order, so a short input is reported only once the fields before the
/// missing one have passed their checks.
pub open spec fn spec_load_header(s: Seq<u8>) -> Result<Header, Error> {
    if s.len() < 4 {
        Err(Error::UnexpectedEof)
    } else if spec_u32_at(s, 0) != MAGIC {
        Err(Error::WrongLogMagicNumber)
    } else if s.len() < 8 {
        Err(Error::UnexpectedEof)
    } else if spec_u32_at(s, 4) != MAJOR_VERSION {
        Err(Error::WrongLogMajorVersion)
    } else if s.len() < 12 {
        Err(Error::UnexpectedEof)
    } else if spec_u32_at(s, 8) > MINOR_VERSION {
        Err(Error::UnsupportedLogMinorVersion)
    } else if s.len() < 84 {
        Err(Error::UnexpectedEof)
    } else if spec_u32_at(s, 64) > 1 {
        Err(Error::InvalidCompressionType)
    } else {
        let compression_type = if spec_u32_at(s, 64) == 0 {
            CompressionType::Uncompressed
        } else {
            CompressionType::Snappy
        };
        let header = spec_header_fields(s, compression_type);
        if header.valid() {
            Ok(header)
        } else {
            Err(Error::LogHeaderCorrupt)
        }
    }
}

impl Header {
    /// The invariants of a header: the supported versions, the fixed header
    /// size, a data end behind the header, counters that the data end bounds,
    /// and a block size that can hold the smallest compressed block.
    pub open spec fn valid(self) -> bool {
        &&& self.major_version == MAJOR_VERSION
        &&& self.minor_version <= MINOR_VERSION
        &&& self.header_size == HEADER_SIZE
        &&& self.data_end >= HEADER_SIZE
        &&& self.num_puts <= self.data_end
        &&& self.num_deletes <= self.data_end
        &&& (self.compression_type == CompressionType::Snappy ==> self.compression_block_size
            >= MIN_COMPRESSION_BLOCK_SIZE)
    }

    /// The 84 bytes that store this header.
    pub open spec fn spec_bytes(self) -> Seq<u8> {
        spec_u32_to_le_bytes(MAGIC) + spec_u32_to_le_bytes(self.major_version)
            + spec_u32_to_le_bytes(self.minor_version) + spec_u32_to_le_bytes(self.file_identifier)
            + spec_u64_to_le_bytes(self.num_puts) + spec_u64_to_le_bytes(self.num_deletes)
            + spec_u64_to_le_bytes(self.data_end) + spec_u64_to_le_bytes(self.max_key_len)
            + spec_u64_to_le_bytes(self.max_value_len) + spec_u64_to_le_bytes(self.delete_size)
            + spec_u32_to_le_bytes(self.compression_type.spec_raw()) + spec_u32_to_le_bytes(
            self.compression_block_size,
        ) + spec_u64_to_le_bytes(self.put_size) + spec_u32_to_le_bytes(self.max_entries_per_block)
    }

    /// Loads the header stored at the front of `data`.
    pub fn load(data: &[u8]) -> (r: Result<Header, Error>)
        ensures
            r == spec_load_header(data@),
    {
        if data.len() < 4 {
            return Err(Error::UnexpectedEof);
        }
        let magic: u32 = get_u32(data, 0);
        if magic != MAGIC {
            return Err(Error::WrongLogMagicNumber);
        }
        if data.len() < 8 {
            return Err(Error::UnexpectedEof);
        }
        let major_version: u32 = get_u32(data, 4);
        if major_version != MAJOR_VERSION {
            return Err(Error::WrongLogMajorVersion);
        }
        if data.len() < 12 {
            return Err(Error::UnexpectedEof);
        }
        let minor_version: u32 = get_u32(data, 8);
        if minor_version > MINOR_VERSION {
            return Err(Error::UnsupportedLogMinorVersion);
        }
        if data.len() < 84 {
            return Err(Error::UnexpectedEof);
        }
        let file_identifier: u32 = get_u32(data, 12);
        let num_puts: u64 = get_u64(data, 16);
        let num_deletes: u64 = get_u64(data, 24);
        let data_end: u64 = get_u64(data, 32);
        let max_key_len: u64 = get_u64(data, 40);
        let max_value_len: u64 = get_u64(data, 48);
        let delete_size: u64 = get_u64(data, 56);
        let raw_type: u32 = get_u32(data, 64);
        let compression_block_size: u32 = get_u32(data, 68);
        let put_size: u64 = get_u64(data, 72);
        let max_entries_per_block: u32 = get_u32(data, 80);

        let compression_type = if raw_type == 0 {
            CompressionType::Uncompressed
        } else if raw_type == 1 {
            CompressionType::Snappy
        } else {
            return Err(Error::InvalidCompressionType);
        };

        if data_end < HEADER_SIZE as u64 {
            return Err(Error::LogHeaderCorrupt);
        }
        if num_puts > data_end {
            return Err(Error::LogHeaderCorrupt);
        }
        if num_deletes > data_end {
            return Err(Error::LogHeaderCorrupt);
        }
        if compression_type == CompressionType::Snappy && compression_block_size
            < MIN_COMPRESSION_BLOCK_SIZE {
            return Err(Error::LogHeaderCorrupt);
        }
        Ok(
            Header {
                major_version,
                minor_version,
                file_identifier,
                num_puts,
                num_deletes,
                data_end,
                max_key_len,
                max_value_len,
                delete_size,
                compression_type,
                compression_block_size,
                put_size,
                header_size: HEADER_SIZE,
                max_entries_per_block,
            },
        )
    }

    /// The bytes that store this header.
    pub fn to_bytes(&self) -> (out: Vec<u8>)
        ensures
            out@ == self.spec_bytes(),
            out@.len() == 84,
    {
        let mut out: Vec<u8> = Vec::new();
        proof {
            vstd::bytes::lemma_auto_spec_u32_to_from_le_bytes();
            vstd::bytes::lemma_auto_spec_u64_to_from_le_bytes();
            assert(out@ + spec_u32_to_le_bytes(MAGIC) =~= spec_u32_to_le_bytes(MAGIC));
        }
        put_u32(&mut out, MAGIC);
        put_u32(&mut out, self.major_version);
        put_u32(&mut out, self.minor_version);
        put_u32(&mut out, self.file_identifier);
        put_u64(&mut out, self.num_puts);
        put_u64(&mut out, self.num_deletes);
        put_u64(&mut out, self.data_end);
        put_u64(&mut out, self.max_key_len);
        put_u64(&mut out, self.max_value_len);
        put_u64(&mut out, self.delete_size);
        put_u32(&mut out, self.compression_type.as_raw());
        put_u32(&mut out, self.compression_block_size);
        put_u64(&mut out, self.put_size);
        put_u32(&mut out, self.max_entries_per_block);
        out
    }
}


/// Loading the stored form of a header of the current version gives the
/// header back where it meets its invariants, and `LogHeaderCorrupt` where
/// it does not, whatever bytes follow it.
pub proof fn lemma_header_stored(h: Header, rest: Seq<u8>)
    requires
        h.major_version == MAJOR_VERSION,
        h.minor_version <= MINOR_VERSION,
        h.header_size == HEADER_SIZE,
    ensures
        h.spec_bytes().len() == 84,
        spec_load_header(h.spec_bytes() + rest) == (if h.valid() {
            Ok::<Header, Error>(h)
        } else {
            Err::<Header, Error>(Error::LogHeaderCorrupt)
        }),
{
    vstd::bytes::lemma_auto_spec_u32_to_from_le_bytes();
    vstd::bytes::lemma_auto_spec_u64_to_from_le_bytes();
    let e0 = spec_u32_to_le_bytes(MAGIC);
    let e1 = spec_u32_to_le_bytes(h.major_version);
    let e2 = spec_u32_to_le_bytes(h.minor_version);
    let e3 = spec_u32_to_le_bytes(h.file_identifier);
    let e4 = spec_u64_to_le_bytes(h.num_puts);
    let e5 = spec_u64_to_le_bytes(h.num_deletes);
    let e6 = spec_u64_to_le_bytes(h.data_end);
    let e7 = spec_u64_to_le_bytes(h.max_key_len);
    let e8 = spec_u64_to_le_bytes(h.max_value_len);
    let e9 = spec_u64_to_le_bytes(h.delete_size);
    let e10 = spec_u32_to_le_bytes(h.compression_type.spec_raw());
    let e11 = spec_u32_to_le_bytes(h.compression_block_size);
    let e12 = spec_u64_to_le_bytes(h.put_size);
    let e13 = spec_u32_to_le_bytes(h.max_entries_per_block);
    let whole = h.spec_bytes() + rest;
    assert(whole.len() >= 84);
    assert(whole.subrange(0, 4) =~= e0);
    assert(whole.subrange(4, 8) =~= e1);
    assert(whole.subrange(8, 12) =~= e2);
    assert(whole.subrange(12, 16) =~= e3);
    assert(whole.subrange(16, 24) =~= e4);
    assert(whole.subrange(24, 32) =~= e5);
    assert(whole.subrange(32, 40) =~= e6);
    assert(whole.subrange(40, 48) =~= e7);
    assert(whole.subrange(48, 56) =~= e8);
    assert(whole.subrange(56, 64) =~= e9);
    assert(whole.subrange(64, 68) =~= e10);
    assert(whole.subrange(68, 72) =~= e11);
    assert(whole.subrange(72, 80) =~= e12);
    assert(whole.subrange(80, 84) =~= e13);
    assert(spec_u32_at(whole, 64) == h.compression_type.spec_raw());
    assert(spec_header_fields(whole, h.compression_type) == h);
}

/// Loading the stored form of a valid header gives the header back, whatever
/// bytes follow it.
pub proof fn lemma_header_roundtrip(h: Header, rest: Seq<u8>)
    requires
        h.valid(),
    ensures
        h.spec_bytes().len() == 84,
        spec_load_header(h.spec_bytes() + rest) == Ok::<Header, Error>(h),
{
    lemma_header_stored(h, rest);
}


/// One record of a log.
#[derive(Debug)]
pub enum Entry<A> {
    /// A key and the value stored under it.
    Put(A, A),
    /// A key that is removed.
    Delete(A),
}

impl<A: View> View for Entry<A> {
    type V = Entry<A::V>;

    open spec fn view(&self) -> Entry<A::V> {
        match *self {
            Entry::Put(k, v) => Entry::Put(k@, v@),
            Entry::Delete(k) => Entry::Delete(k@),
        }
    }
}

impl<A> Entry<A> {
    /// The key of this entry.
    pub open spec fn spec_key(self) -> A {
        match self {
            Entry::Put(k, _) => k,
            Entry::Delete(k) => k,
        }
    }

    /// The value of this entry, which only a put has.
    pub open spec fn spec_value(self) -> Option<A> {
        match self {
            Entry::Put(_, v) => Some(v),
            Entry::Delete(_) => None,
        }
    }

    /// The key of this entry.
    pub fn key(&self) -> (k: &A)
        ensures
            *k == self.spec_key(),
    {
        match self {
            Entry::Put(k, _) => k,
            Entry::Delete(k) => k,
        }
    }

    /// The value of this entry, or nothing for a delete.
    pub fn value(&self) -> (v: Option<&A>)
        ensures
            match v {
                Some(r) => self.spec_value() == Some(*r),
                None => self.spec_value().is_none(),
            },
    {
        match self {
            Entry::Put(_, v) => Some(v),
            Entry::Delete(_) => None,
        }
    }
}

impl<'a> Entry<&'a [u8]> {
    /// Copies the borrowed bytes of this entry into an entry that owns them.
    pub fn into_owned(self) -> (owned: Entry<Vec<u8>>)
        ensures
            owned@ == self@,
    {
        match self {
            Entry::Put(k, v) => Entry::Put(slice_to_vec(k), slice_to_vec(v)),
            Entry::Delete(k) => Entry::Delete(slice_to_vec(k)),
        }
    }
}

/// The number of payload bytes that follow the two integers `a` and `b` at
/// the head of an entry: a key of `b` bytes when `a` is zero, else a key of
/// `a - 1` bytes and a value of `b` bytes.
pub open spec fn spec_payload_len(a: u64, b: u64) -> nat {
    if a == 0 {
        b as nat
    } else {
        (a - 1) as nat + b as nat
    }
}

/// The entry whose head integers are `a` and `b` and whose payload begins at
/// `start` in `s`.
pub open spec fn spec_entry_of(s: Seq<u8>, a: u64, b: u64, start: int) -> Entry<Seq<u8>> {
    if a == 0 {
        Entry::Delete(s.subrange(start, start + b))
    } else {
        Entry::Put(s.subrange(start, start + a - 1), s.subrange(start + a - 1, start + a - 1 + b))
    }
}

/// What decoding one entry from the front of `s` gives: the entry and the
/// number of bytes it occupies. An entry that runs past the end of `s` is an
/// `UnexpectedEof`.
pub open spec fn spec_read_entry(s: Seq<u8>) -> Result<(Entry<Seq<u8>>, nat), Error> {
    match spec_read_vlq(s) {
        Err(e) => Err(e),
        Ok((a, la)) => match spec_read_vlq(s.skip(la as int)) {
            Err(e) => Err(e),
            Ok((b, lb)) => {
                let total = la + lb + spec_payload_len(a, b);
                if total > s.len() {
                    Err(Error::UnexpectedEof)
                } else {
                    Ok((spec_entry_of(s, a, b, (la + lb) as int), total))
                }
            },
        },
    }
}

/// Whether an executable decoding result is the one the model gives.
pub open spec fn entry_result_is<A: View>(
    r: Result<(Entry<A>, usize), Error>,
    model: Result<(Entry<A::V>, nat), Error>,
) -> bool {
    match r {
        Ok((e, n)) => model == Ok::<(Entry<A::V>, nat), Error>((e@, n as nat)),
        Err(e) => model == Err::<(Entry<A::V>, nat), Error>(e),
    }
}

/// Decodes the two integers at the head of an entry and checks that its
/// payload lies inside `data`. Gives the two integers and the offset at which
/// the payload starts.
fn read_entry_head(data: &[u8]) -> (r: Result<(u64, u64, usize), Error>)
    ensures
        match r {
            Ok((a, b, start)) => {
                &&& spec_read_vlq(data@) is Ok
                &&& spec_read_vlq(data@)->Ok_0.0 == a
                &&& spec_read_vlq(data@.skip(spec_read_vlq(data@)->Ok_0.1 as int)) is Ok
                &&& spec_read_vlq(data@.skip(spec_read_vlq(data@)->Ok_0.1 as int))->Ok_0.0 == b
                &&& start == spec_read_vlq(data@)->Ok_0.1 + spec_read_vlq(
                    data@.skip(spec_read_vlq(data@)->Ok_0.1 as int),
                )->Ok_0.1
                &&& start + spec_payload_len(a, b) <= data.len()
                &&& spec_read_entry(data@) is Ok
            },
            Err(e) => spec_read_entry(data@) == Err::<(Entry<Seq<u8>>, nat), Error>(e),
        },
{
    let (a, la) = match read_vlq(data) {
        Ok(p) => p,
        Err(e) => {
            return Err(e);
        },
    };
    proof {
        crate::vlq::lemma_read_vlq_len(data@);
    }
    let rest = slice_subrange(data, la, data.len());
    proof {
        assert(rest@ =~= data@.skip(la as int));
    }
    let (b, lb) = match read_vlq(rest) {
        Ok(p) => p,
        Err(e) => {
            return Err(e);
        },
    };
    proof {
        crate::vlq::lemma_read_vlq_len(rest@);
    }
    let start: usize = la + lb;
    let remaining: usize = data.len() - start;
    if a == 0 {
        if b > remaining as u64 {
            return Err(Error::UnexpectedEof);
        }
    } else {
        if a - 1 > remaining as u64 {
            return Err(Error::UnexpectedEof);
        }
        if b > remaining as u64 - (a - 1) {
            return Err(Error::UnexpectedEof);
        }
    }
    Ok((a, b, start))
}

/// Decodes one entry from the front of `data`, giving the entry, which
/// borrows its bytes from `data`, and the number of bytes it occupies.
pub fn read_entry<'a>(data: &'a [u8]) -> (r: Result<(Entry<&'a [u8]>, usize), Error>)
    ensures
        entry_result_is(r, spec_read_entry(data@)),
{
    let (a, b, start) = match read_entry_head(data) {
        Ok(t) => t,
        Err(e) => {
            return Err(e);
        },
    };
    if a == 0 {
        let end: usize = start + b as usize;
        let key = slice_subrange(data, start, end);
        Ok((Entry::Delete(key), end))
    } else {
        let mid: usize = start + (a - 1) as usize;
        let end: usize = mid + b as usize;
        let key = slice_subrange(data, start, mid);
        let value = slice_subrange(data, mid, end);
        Ok((Entry::Put(key, value), end))
    }
}

/// What measuring one entry at the front of `s` gives: the number of bytes
/// it occupies.
pub open spec fn spec_entry_len(s: Seq<u8>) -> Result<nat, Error> {
    match spec_read_entry(s) {
        Ok((_, n)) => Ok(n),
        Err(e) => Err(e),
    }
}

/// Measures the entry at the front of `data` without copying it.
pub fn entry_len(data: &[u8]) -> (r: Result<usize, Error>)
    ensures
        match r {
            Ok(n) => spec_entry_len(data@) == Ok::<nat, Error>(n as nat) && n <= data.len(),
            Err(e) => spec_entry_len(data@) == Err::<nat, Error>(e),
        },
{
    match read_entry_head(data) {
        Ok((a, b, start)) => {
            if a == 0 {
                Ok(start + b as usize)
            } else {
                Ok(start + (a - 1) as usize + b as usize)
            }
        },
        Err(e) => Err(e),
    }
}


/// The bytes of `map` from `position` on, or none where `position` lies
/// behind its end.
pub open spec fn spec_tail(map: Seq<u8>, position: int) -> Seq<u8> {
    if 0 <= position <= map.len() {
        map.skip(position)
    } else {
        Seq::empty()
    }
}

/// The bytes of `map` from `position` on, or none where `position` lies
/// behind its end.
pub fn tail(map: &[u8], position: usize) -> (t: &[u8])
    ensures
        t@ == spec_tail(map@, position as int),
        map@.len() <= usize::MAX,
{
    if position <= map.len() {
        let t = slice_subrange(map, position, map.len());
        proof {
            assert(t@ =~= map@.skip(position as int));
        }
        t
    } else {
        let t = slice_subrange(map, 0, 0);
        proof {
            assert(t@ =~= Seq::<u8>::empty());
        }
        t
    }
}

/// What opening a log image gives: its header and the bytes up to the
/// header's data end. An image shorter than its data end is `LogTooSmall`.
pub open spec fn spec_open(data: Seq<u8>) -> Result<(Header, Seq<u8>), Error> {
    match spec_load_header(data) {
        Err(e) => Err(e),
        Ok(header) => {
            if header.data_end > data.len() {
                Err(Error::LogTooSmall)
            } else {
                Ok((header, data.take(header.data_end as int)))
            }
        },
    }
}

/// A log that is open for reading: its header and its bytes up to the data
/// end.
#[derive(Debug)]
pub struct Reader {
    pub header: Header,
    pub map: Vec<u8>,
}

impl Reader {
    /// The header is valid and the bytes end where the header says the data
    /// ends.
    pub open spec fn wf(&self) -> bool {
        &&& self.header.valid()
        &&& self.map@.len() == self.header.data_end
    }

    /// Opens the log whose image is `data`.
    pub fn open(data: Vec<u8>) -> (r: Result<Reader, Error>)
        ensures
            match r {
                Ok(reader) => spec_open(data@) == Ok::<(Header, Seq<u8>), Error>(
                    (reader.header, reader.map@),
                ) && reader.wf(),
                Err(e) => spec_open(data@) == Err::<(Header, Seq<u8>), Error>(e),
            },
    {
        let header = match Header::load(data.as_slice()) {
            Ok(h) => h,
            Err(e) => {
                return Err(e);
            },
        };
        if header.data_end > data.len() as u64 {
            return Err(Error::LogTooSmall);
        }
        let mut map = data;
        map.truncate(header.data_end as usize);
        proof {
            assert(map@ =~= data@.take(header.data_end as int));
        }
        Ok(Reader { header, map })
    }

    /// The length of the longest key in the log.
    pub fn max_key_len(&self) -> (n: u64)
        ensures
            n == self.header.max_key_len,
    {
        self.header.max_key_len
    }

    /// The length of the longest value in the log.
    pub fn max_value_len(&self) -> (n: u64)
        ensures
            n == self.header.max_value_len,
    {
        self.header.max_value_len
    }

    /// The block size that the log was compressed with.
    pub fn compression_block_size(&self) -> (n: u32)
        ensures
            n == self.header.compression_block_size,
    {
        self.header.compression_block_size
    }

    /// How the payload of the log is stored.
    pub fn compression_type(&self) -> (t: CompressionType)
        ensures
            t == self.header.compression_type,
    {
        self.header.compression_type
    }

    /// The number of puts in the log.
    pub fn num_puts(&self) -> (n: u64)
        ensures
            n == self.header.num_puts,
    {
        self.header.num_puts
    }

    /// The number of deletes in the log.
    pub fn num_deletes(&self) -> (n: u64)
        ensures
            n == self.header.num_deletes,
    {
        self.header.num_deletes
    }

    /// The number of entries in the log, puts and deletes together, or the
    /// largest 64-bit number where the sum passes it.
    pub fn num_entries(&self) -> (n: u64)
        ensures
            n == if self.header.num_puts + self.header.num_deletes <= u64::MAX {
                (self.header.num_puts + self.header.num_deletes) as u64
            } else {
                u64::MAX
            },
    {
        self.header.num_puts.saturating_add(self.header.num_deletes)
    }
}


/// A decoded entry occupies at least two bytes and lies inside the input.
pub proof fn lemma_read_entry_len(s: Seq<u8>)
    ensures
        spec_read_entry(s) is Ok ==> 2 <= spec_read_entry(s)->Ok_0.1 <= s.len(),
{
    crate::vlq::lemma_read_vlq_len(s);
    if let Ok((a, la)) = spec_read_vlq(s) {
        crate::vlq::lemma_read_vlq_len(s.skip(la as int));
    }
}


impl CompressionType {
    /// What `read_block` gives for `data`: the whole of `data` as one block
    /// where nothing is compressed, else the block decoded at its front.
    pub open spec fn spec_read_block(self, data: Seq<u8>) -> Result<(Seq<u8>, nat), Error> {
        match self {
            CompressionType::Uncompressed => Ok((data, data.len())),
            CompressionType::Snappy => spec_read_block(data),
        }
    }

    /// Decodes the block at the front of `data`, giving its bytes and the
    /// number of bytes it occupies in `data`.
    pub fn read_block(&self, data: &[u8]) -> (r: Result<(Vec<u8>, usize), Error>)
        ensures
            match r {
                Ok((block, size)) => self.spec_read_block(data@) == Ok::<(Seq<u8>, nat), Error>(
                    (block@, size as nat),
                ),
                Err(e) => self.spec_read_block(data@) == Err::<(Seq<u8>, nat), Error>(e),
            },
    {
        match self {
            CompressionType::Uncompressed => Ok((slice_to_vec(data), data.len())),
            CompressionType::Snappy => crate::log::snappy::read_block(data),
        }
    }
}

/// The state of a cursor over the entries of a log.
pub enum EntriesModel {
    /// In an uncompressed log: the position of the next entry.
    Uncompressed { position: int },
    /// In a compressed log: the state inside its blocks.
    Snappy { chunks: ChunksModel },
}

impl EntriesModel {
    /// What decoding the next entry gives: the state afterwards, and the
    /// entry with the position that locates it, or nothing where the log has
    /// ended. An entry of an uncompressed log is located by its own position,
    /// one of a compressed log by the position of its block.
    pub open spec fn spec_next_located(self, map: Seq<u8>) -> (EntriesModel, Result<
        Option<(Entry<Seq<u8>>, int)>,
        Error,
    >) {
        match self {
            EntriesModel::Uncompressed { position } => {
                match crate::log::uncompressed::EntryReader::spec_next(map, position) {
                    Ok(Some((entry, next))) => (
                        EntriesModel::Uncompressed { position: next },
                        Ok(Some((entry, position))),
                    ),
                    Ok(None) => (self, Ok(None)),
                    Err(e) => (self, Err(e)),
                }
            },
            EntriesModel::Snappy { chunks } => {
                let (after, r) = chunks.spec_next(map);
                (
                    EntriesModel::Snappy { chunks: after },
                    match r {
                        Ok(Some(entry)) => Ok(Some((entry, after.block_position))),
                        Ok(None) => Ok(None),
                        Err(e) => Err(e),
                    },
                )
            },
        }
    }

    /// What decoding the next entry gives: the state afterwards, and the
    /// entry, or nothing where the log has ended.
    pub open spec fn spec_next(self, map: Seq<u8>) -> (EntriesModel, Result<
        Option<Entry<Seq<u8>>>,
        Error,
    >) {
        let (after, r) = self.spec_next_located(map);
        (
            after,
            match r {
                Ok(Some((entry, _))) => Ok(Some(entry)),
                Ok(None) => Ok(None),
                Err(e) => Err(e),
            },
        )
    }

    /// What passing over the next entry gives: the state afterwards, and
    /// whether it failed.
    pub open spec fn spec_skip_next(self, map: Seq<u8>) -> (EntriesModel, Result<(), Error>) {
        match self {
            EntriesModel::Uncompressed { position } => {
                match crate::log::uncompressed::EntryReader::spec_skip_next(map, position) {
                    Ok(next) => (EntriesModel::Uncompressed { position: next }, Ok(())),
                    Err(e) => (self, Err(e)),
                }
            },
            EntriesModel::Snappy { chunks } => {
                let (after, r) = chunks.spec_skip_next(map);
                (EntriesModel::Snappy { chunks: after }, r)
            },
        }
    }

    /// The state of a fresh cursor at `position`.
    pub open spec fn at(compression_type: CompressionType, position: int) -> EntriesModel {
        match compression_type {
            CompressionType::Uncompressed => EntriesModel::Uncompressed { position },
            CompressionType::Snappy => EntriesModel::Snappy {
                chunks: ChunksModel {
                    next_position: position,
                    block: None,
                    block_position: 0,
                    offset: 0,
                },
            },
        }
    }
}

/// The cursor behind an `Entries`, by the kind of log.
#[derive(Debug)]
pub enum EntryCursor<'a> {
    Uncompressed(crate::log::uncompressed::EntryReader<'a>),
    Snappy(crate::log::snappy::EntryReader<'a>),
}

/// A cursor over the entries of a log, in insertion order.
#[derive(Debug)]
pub struct Entries<'a>(pub EntryCursor<'a>);

impl<'a> View for Entries<'a> {
    type V = EntriesModel;

    open spec fn view(&self) -> EntriesModel {
        match self.0 {
            EntryCursor::Uncompressed(r) => EntriesModel::Uncompressed {
                position: r.next_position as int,
            },
            EntryCursor::Snappy(r) => EntriesModel::Snappy { chunks: r.read@ },
        }
    }
}

/// The view of what a cursor hands out.
pub open spec fn next_view(r: Result<Option<Entry<Vec<u8>>>, Error>) -> Result<
    Option<Entry<Seq<u8>>>,
    Error,
> {
    match r {
        Ok(Some(entry)) => Ok(Some(entry@)),
        Ok(None) => Ok(None),
        Err(e) => Err(e),
    }
}

/// The view of what a cursor hands out together with a position.
pub open spec fn located_view(r: Result<Option<(Entry<Vec<u8>>, usize)>, Error>) -> Result<
    Option<(Entry<Seq<u8>>, int)>,
    Error,
> {
    match r {
        Ok(Some((entry, position))) => Ok(Some((entry@, position as int))),
        Ok(None) => Ok(None),
        Err(e) => Err(e),
    }
}

impl<'a> Entries<'a> {
    /// The log that this cursor reads.
    pub open spec fn reader(&self) -> &'a Reader {
        match self.0 {
            EntryCursor::Uncompressed(r) => r.reader,
            EntryCursor::Snappy(r) => r.read.blocks.reader,
        }
    }

    /// Decodes the entry at the cursor and moves behind it. Gives the entry
    /// together with the position that locates it.
    pub fn try_next_located(&mut self) -> (r: Result<Option<(Entry<Vec<u8>>, usize)>, Error>)
        ensures
            final(self).reader() == old(self).reader(),
            (final(self)@, located_view(r)) == old(self)@.spec_next_located(
                old(self).reader().map@,
            ),
    {
        match &mut self.0 {
            EntryCursor::Uncompressed(cursor) => {
                let position: usize = cursor.next_position;
                match cursor.next() {
                    Ok(Some(entry)) => Ok(Some((entry.into_owned(), position))),
                    Ok(None) => Ok(None),
                    Err(e) => Err(e),
                }
            },
            EntryCursor::Snappy(cursor) => {
                match cursor.next() {
                    Ok(Some(entry)) => {
                        let position: usize = match &cursor.read.current_block {
                            Some(block) => block.position,
                            None => 0,
                        };
                        Ok(Some((entry, position)))
                    },
                    Ok(None) => Ok(None),
                    Err(e) => Err(e),
                }
            },
        }
    }

    /// Decodes the entry at the cursor and moves behind it.
    pub fn try_next(&mut self) -> (r: Result<Option<Entry<Vec<u8>>>, Error>)
        ensures
            final(self).reader() == old(self).reader(),
            (final(self)@, next_view(r)) == old(self)@.spec_next(old(self).reader().map@),
    {
        match self.try_next_located() {
            Ok(Some((entry, _))) => Ok(Some(entry)),
            Ok(None) => Ok(None),
            Err(e) => Err(e),
        }
    }

    /// Moves the cursor behind the entry it stands at.
    pub fn skip_next(&mut self) -> (r: Result<(), Error>)
        ensures
            final(self).reader() == old(self).reader(),
            (final(self)@, r) == old(self)@.spec_skip_next(old(self).reader().map@),
    {
        match &mut self.0 {
            EntryCursor::Uncompressed(cursor) => {
                match cursor.skip_next() {
                    Ok(()) => Ok(()),
                    Err(e) => Err(e),
                }
            },
            EntryCursor::Snappy(cursor) => {
                match cursor.skip_next() {
                    Ok(()) => Ok(()),
                    Err(e) => Err(e),
                }
            },
        }
    }

    /// The next entry, in the shape that an iterator hands out.
    pub fn next(&mut self) -> (r: Option<Result<Entry<Vec<u8>>, Error>>)
        ensures
            final(self).reader() == old(self).reader(),
            (final(self)@, next_view(crate::util::spec_unflip_option(r))) == old(self)@.spec_next(
                old(self).reader().map@,
            ),
    {
        flip_option(self.try_next())
    }
}

/// A cursor over the entries of a log that hands out entries which own their
/// bytes.
#[derive(Debug)]
pub struct OwnedEntries<'a>(pub Entries<'a>);

impl<'a> OwnedEntries<'a> {
    /// Wraps `entries`.
    pub fn new(entries: Entries<'a>) -> (r: OwnedEntries<'a>)
        ensures
            r.0 == entries,
    {
        OwnedEntries(entries)
    }

    /// Decodes the entry at the cursor and moves behind it.
    pub fn try_next(&mut self) -> (r: Result<Option<Entry<Vec<u8>>>, Error>)
        ensures
            final(self).0.reader() == old(self).0.reader(),
            (final(self).0@, next_view(r)) == old(self).0@.spec_next(old(self).0.reader().map@),
    {
        self.0.try_next()
    }

    /// The next entry, in the shape that an iterator hands out.
    pub fn next(&mut self) -> (r: Option<Result<Entry<Vec<u8>>, Error>>)
        ensures
            final(self).0.reader() == old(self).0.reader(),
            (final(self).0@, next_view(crate::util::spec_unflip_option(r))) == old(
                self,
            ).0@.spec_next(old(self).0.reader().map@),
    {
        flip_option(self.try_next())
    }
}

impl Reader {
    /// A cursor at the first entry of the log.
    pub fn entries(&self) -> (r: Entries<'_>)
        ensures
            r.reader() == self,
            r@ == EntriesModel::at(self.header.compression_type, self.header.header_size as int),
    {
        match self.header.compression_type {
            CompressionType::Uncompressed => Entries(
                EntryCursor::Uncompressed(crate::log::uncompressed::EntryReader::new(self)),
            ),
            CompressionType::Snappy => Entries(
                EntryCursor::Snappy(crate::log::snappy::EntryReader::new(self)),
            ),
        }
    }

    /// A cursor at the first entry of the log that hands out owned entries.
    pub fn owned_entries(&self) -> (r: OwnedEntries<'_>)
        ensures
            r.0.reader() == self,
            r.0@ == EntriesModel::at(self.header.compression_type, self.header.header_size as int),
    {
        OwnedEntries::new(self.entries())
    }

    /// A cursor at `position`: the start of an entry in an uncompressed log,
    /// the start of a block in a compressed one. A position that is neither
    /// gives a cursor whose entries are failures or garbage, never more.
    pub fn entries_at(&self, position: usize) -> (r: Entries<'_>)
        ensures
            r.reader() == self,
            r@ == EntriesModel::at(self.header.compression_type, position as int),
    {
        match self.header.compression_type {
            CompressionType::Uncompressed => Entries(
                EntryCursor::Uncompressed(
                    crate::log::uncompressed::EntryReader::new_at(self, position),
                ),
            ),
            CompressionType::Snappy => Entries(
                EntryCursor::Snappy(crate::log::snappy::EntryReader::new_at(self, position)),
            ),
        }
    }

    /// A cursor at `position` that hands out owned entries.
    pub fn owned_entries_at(&self, position: usize) -> (r: OwnedEntries<'_>)
        ensures
            r.0.reader() == self,
            r.0@ == EntriesModel::at(self.header.compression_type, position as int),
    {
        OwnedEntries::new(self.entries_at(position))
    }
}


/// `rest` behind `prefix`, where `rest` is no failure.
pub open spec fn spec_prepend(
    prefix: Seq<Entry<Seq<u8>>>,
    rest: Result<Seq<Entry<Seq<u8>>>, Error>,
) -> Result<Seq<Entry<Seq<u8>>>, Error> {
    match rest {
        Ok(entries) => Ok(prefix + entries),
        Err(e) => Err(e),
    }
}

/// The views of the entries in `v`.
pub open spec fn entries_view(v: Seq<Entry<Vec<u8>>>) -> Seq<Entry<Seq<u8>>> {
    Seq::new(v.len(), |i: int| v[i]@)
}

impl EntriesModel {
    /// How far the part of the log that is not decoded yet still reaches.
    pub open spec fn left(self, map: Seq<u8>) -> nat {
        match self {
            EntriesModel::Uncompressed { position } => if position < map.len() {
                (map.len() - position) as nat
            } else {
                0
            },
            EntriesModel::Snappy { chunks } => chunks.blocks_left(map),
        }
    }

    /// How many bytes of the current block are left.
    pub open spec fn unread_len(self) -> nat {
        match self {
            EntriesModel::Uncompressed { position } => 0,
            EntriesModel::Snappy { chunks } => if chunks.has_unread() {
                chunks.unread().len()
            } else {
                0
            },
        }
    }

    /// Every entry from this state to the end of the log, in order, or the
    /// first failure on the way.
    pub open spec fn spec_remaining(self, map: Seq<u8>) -> Result<Seq<Entry<Seq<u8>>>, Error>
        decreases self.left(map), self.unread_len(),
        via Self::spec_remaining_decreases
    {
        match self.spec_next(map) {
            (_, Err(e)) => Err(e),
            (_, Ok(None)) => Ok(Seq::empty()),
            (after, Ok(Some(entry))) => spec_prepend(seq![entry], after.spec_remaining(map)),
        }
    }

    #[via_fn]
    proof fn spec_remaining_decreases(self, map: Seq<u8>) {
        self.lemma_next_progress(map);
    }

    /// Decoding an entry moves the state towards the end of the log.
    pub proof fn lemma_next_progress(self, map: Seq<u8>)
        ensures
            self.spec_next_located(map).1 is Ok && self.spec_next_located(map).1->Ok_0 is Some ==> {
                let after = self.spec_next_located(map).0;
                after.left(map) < self.left(map) || (after.left(map) == self.left(map)
                    && after.unread_len() < self.unread_len())
            },
    {
        match self {
            EntriesModel::Uncompressed { position } => {
                lemma_read_entry_len(spec_tail(map, position));
            },
            EntriesModel::Snappy { chunks } => {
                if chunks.has_unread() {
                    lemma_read_entry_len(chunks.unread());
                } else if chunks.spec_fill(map) is Ok && chunks.spec_fill(map)->Ok_0 is Some {
                    crate::log::snappy::lemma_next_block_advances(map, chunks.next_position);
                }
            },
        }
    }
}

impl<'a> Entries<'a> {
    /// Decodes every entry from the cursor to the end of the log.
    pub fn read_all(&mut self) -> (r: Result<Vec<Entry<Vec<u8>>>, Error>)
        ensures
            final(self).reader() == old(self).reader(),
            match r {
                Ok(all) => old(self)@.spec_remaining(old(self).reader().map@) == Ok::<
                    Seq<Entry<Seq<u8>>>,
                    Error,
                >(entries_view(all@)),
                Err(e) => old(self)@.spec_remaining(old(self).reader().map@) == Err::<
                    Seq<Entry<Seq<u8>>>,
                    Error,
                >(e),
            },
    {
        let mut all: Vec<Entry<Vec<u8>>> = Vec::new();
        let ghost map = self.reader().map@;
        proof {
            assert(Seq::<Entry<Seq<u8>>>::empty() + self@.spec_remaining(map)->Ok_0
                =~= self@.spec_remaining(map)->Ok_0);
        }
        loop
            invariant
                self.reader() == old(self).reader(),
                map == old(self).reader().map@,
                spec_prepend(entries_view(all@), self@.spec_remaining(map)) == old(
                    self,
                )@.spec_remaining(map),
            decreases self@.left(map), self@.unread_len(),
        {
            let ghost before = self@;
            let ghost seen = entries_view(all@);
            proof {
                before.lemma_next_progress(map);
            }
            match self.try_next() {
                Ok(Some(entry)) => {
                    proof {
                        let rest = self@.spec_remaining(map);
                        if let Ok(tail) = rest {
                            assert(seen + (seq![entry@] + tail) =~= seen.push(entry@) + tail);
                        }
                        assert(entries_view(all@.push(entry)) =~= seen.push(entry@));
                    }
                    all.push(entry);
                },
                Ok(None) => {
                    proof {
                        assert(seen + Seq::<Entry<Seq<u8>>>::empty() =~= seen);
                    }
                    return Ok(all);
                },
                Err(e) => {
                    return Err(e);
                },
            }
        }
    }
}

} // verus!
