//! The index: a fixed header followed by an open-addressed hash table whose
//! slots point at the entries of a log.

use crate::codec::{get_u32, get_u64, put_u32, put_u64, spec_u32_at, spec_u64_at};
use crate::error::Error;
use crate::murmur::{murmur3_32, murmur3_64, spec_murmur3_32, spec_murmur3_64};
use vstd::bytes::{spec_u32_to_le_bytes, spec_u64_to_le_bytes};
use vstd::prelude::*;

pub mod builder;
pub mod correct;
pub mod lookup;
pub mod reader;
pub mod robin_hood;
pub mod scanned;
pub mod table;

pub use crate::hash::builder::Writer;
pub use crate::hash::reader::Reader;

verus! {

/// The first four bytes of every index.
pub const MAGIC: u32 = 0x9a11318f;

/// The only major format version that is read.
pub const MAJOR_VERSION: u32 = 1;

/// The newest minor format version that is read.
pub const MINOR_VERSION: u32 = 1;

/// The length of the header in bytes.
pub const HEADER_SIZE: u32 = 112;

/// The hash function that an index is built with.
#[allow(non_camel_case_types)]
#[derive(Clone, Copy, Debug, PartialEq, Eq, Structural)]
pub enum Type {
    /// MurmurHash3 for x86, 32 bits.
    Murmur3_32,
    /// The low 64 bits of MurmurHash3 for x64, 128 bits.
    Murmur3_64,
}

impl Type {
    /// The width in bytes of a hash stored in the index.
    pub open spec fn spec_raw(self) -> u32 {
        match self {
            Type::Murmur3_32 => 4,
            Type::Murmur3_64 => 8,
        }
    }

    /// The width in bytes of a hash stored in the index.
    pub fn as_raw(&self) -> (raw: u32)
        ensures
            raw == self.spec_raw(),
    {
        match self {
            Type::Murmur3_32 => 4,
            Type::Murmur3_64 => 8,
        }
    }

    /// The hash function that stores hashes of `hash_size` bytes: the 32-bit
    /// one for four bytes, the 64-bit one else.
    pub open spec fn spec_of_size(hash_size: u32) -> Type {
        if hash_size == 4 {
            Type::Murmur3_32
        } else {
            Type::Murmur3_64
        }
    }

    /// The hash function that stores hashes of `hash_size` bytes.
    pub fn of_size(hash_size: u32) -> (t: Type)
        ensures
            t == Self::spec_of_size(hash_size),
    {
        if hash_size == 4 {
            Type::Murmur3_32
        } else {
            Type::Murmur3_64
        }
    }

    /// The hash of `key` under `seed`, the 32-bit one widened by zeros.
    pub open spec fn spec_hash(self, key: Seq<u8>, seed: u32) -> u64 {
        match self {
            Type::Murmur3_32 => spec_murmur3_32(key, seed) as u64,
            Type::Murmur3_64 => spec_murmur3_64(key, seed),
        }
    }

    /// The hash of `key` under `seed`.
    pub fn hash(&self, key: &[u8], seed: u32) -> (h: u64)
        ensures
            h == self.spec_hash(key@, seed),
    {
        match self {
            Type::Murmur3_32 => murmur3_32(key, seed) as u64,
            Type::Murmur3_64 => murmur3_64(key, seed),
        }
    }
}

/// The prelude of an index.
#[derive(Clone, Copy, Debug, PartialEq, Eq, Structural)]
pub struct Header {
    pub major_version: u32,
    pub minor_version: u32,
    pub file_identifier: u32,
    pub hash_seed: u32,
    pub data_end: u64,
    pub max_key_len: u64,
    pub max_value_len: u64,
    pub num_puts: u64,
    pub garbage_size: u64,
    pub num_entries: u64,
    pub address_size: u32,
    pub hash_size: u32,
    pub hash_capacity: u64,
    pub max_displacement: u64,
    pub entry_block_bits: u32,
    pub hash_collisions: u64,
    pub total_displacement: u64,
}

/// The header whose fields are the ones stored in the first 112 bytes of `s`.
pub open spec fn spec_header_fields(s: Seq<u8>) -> Header {
    Header {
        major_version: spec_u32_at(s, 4),
        minor_version: spec_u32_at(s, 8),
        file_identifier: spec_u32_at(s, 12),
        hash_seed: spec_u32_at(s, 16),
        data_end: spec_u64_at(s, 20),
        max_key_len: spec_u64_at(s, 28),
        max_value_len: spec_u64_at(s, 36),
        num_puts: spec_u64_at(s, 44),
        garbage_size: spec_u64_at(s, 52),
        num_entries: spec_u64_at(s, 60),
        address_size: spec_u32_at(s, 68),
        hash_size: spec_u32_at(s, 72),
        hash_capacity: spec_u64_at(s, 76),
        max_displacement: spec_u64_at(s, 84),
        entry_block_bits: spec_u32_at(s, 92),
        hash_collisions: spec_u64_at(s, 96),
        total_displacement: spec_u64_at(s, 104),
    }
}

/// What loading a header from the front of `s` gives. The version fields are
/// checked in file order, then the widths of hashes and addresses, then the
/// rest of the invariants.
pub open spec fn spec_load_header(s: Seq<u8>) -> Result<Header, Error> {
    if s.len() < 4 {
        Err(Error::UnexpectedEof)
    } else if spec_u32_at(s, 0) != MAGIC {
        Err(Error::WrongHashMagicNumber)
    } else if s.len() < 8 {
        Err(Error::UnexpectedEof)
    } else if spec_u32_at(s, 4) != MAJOR_VERSION {
        Err(Error::WrongHashMajorVersion)
    } else if s.len() < 12 {
        Err(Error::UnexpectedEof)
    } else if spec_u32_at(s, 8) > MINOR_VERSION {
        Err(Error::UnsupportedHashMinorVersion)
    } else if s.len() < 112 {
        Err(Error::UnexpectedEof)
    } else {
        let header = spec_header_fields(s);
        if header.hash_size != 4 && header.hash_size != 8 {
            Err(Error::HashSizeInvalid)
        } else if header.address_size != 4 && header.address_size != 8 {
            Err(Error::AddressSizeInvalid)
        } else if !header.valid() {
            Err(Error::HashHeaderCorrupt)
        } else {
            Ok(header)
        }
    }
}

impl Header {
    /// The width of one slot in bytes.
    pub open spec fn slot_size(self) -> int {
        self.hash_size + self.address_size
    }

    /// The invariants of a header: the supported versions, hashes and
    /// addresses of four or eight bytes, a table of at least one slot that
    /// ends where the data ends, and a position layout that fits 64 bits.
    pub open spec fn valid(self) -> bool {
        &&& self.major_version == MAJOR_VERSION
        &&& self.minor_version <= MINOR_VERSION
        &&& (self.hash_size == 4 || self.hash_size == 8)
        &&& (self.address_size == 4 || self.address_size == 8)
        &&& self.hash_capacity >= 1
        &&& self.data_end == HEADER_SIZE + self.hash_capacity * self.slot_size()
        &&& self.entry_block_bits < 64
    }

    /// The 112 bytes that store this header.
    pub open spec fn spec_bytes(self) -> Seq<u8> {
        spec_u32_to_le_bytes(MAGIC) + spec_u32_to_le_bytes(self.major_version)
            + spec_u32_to_le_bytes(self.minor_version) + spec_u32_to_le_bytes(self.file_identifier)
            + spec_u32_to_le_bytes(self.hash_seed) + spec_u64_to_le_bytes(self.data_end)
            + spec_u64_to_le_bytes(self.max_key_len) + spec_u64_to_le_bytes(self.max_value_len)
            + spec_u64_to_le_bytes(self.num_puts) + spec_u64_to_le_bytes(self.garbage_size)
            + spec_u64_to_le_bytes(self.num_entries) + spec_u32_to_le_bytes(self.address_size)
            + spec_u32_to_le_bytes(self.hash_size) + spec_u64_to_le_bytes(self.hash_capacity)
            + spec_u64_to_le_bytes(self.max_displacement) + spec_u32_to_le_bytes(
            self.entry_block_bits,
        ) + spec_u64_to_le_bytes(self.hash_collisions) + spec_u64_to_le_bytes(
            self.total_displacement,
        )
    }

    /// Loads the header stored at the front of `data`.
    pub fn load(data: &[u8]) -> (r: Result<Header, Error>)
        ensures
            r == spec_load_header(data@),
    {
        if data.len() < 4 {
            return Err(Error::UnexpectedEof);
        }
        if get_u32(data, 0) != MAGIC {
            return Err(Error::WrongHashMagicNumber);
        }
        if data.len() < 8 {
            return Err(Error::UnexpectedEof);
        }
        let major_version: u32 = get_u32(data, 4);
        if major_version != MAJOR_VERSION {
            return Err(Error::WrongHashMajorVersion);
        }
        if data.len() < 12 {
            return Err(Error::UnexpectedEof);
        }
        let minor_version: u32 = get_u32(data, 8);
        if minor_version > MINOR_VERSION {
            return Err(Error::UnsupportedHashMinorVersion);
        }
        if data.len() < 112 {
            return Err(Error::UnexpectedEof);
        }
        let header = Header {
            major_version,
            minor_version,
            file_identifier: get_u32(data, 12),
            hash_seed: get_u32(data, 16),
            data_end: get_u64(data, 20),
            max_key_len: get_u64(data, 28),
            max_value_len: get_u64(data, 36),
            num_puts: get_u64(data, 44),
            garbage_size: get_u64(data, 52),
            num_entries: get_u64(data, 60),
            address_size: get_u32(data, 68),
            hash_size: get_u32(data, 72),
            hash_capacity: get_u64(data, 76),
            max_displacement: get_u64(data, 84),
            entry_block_bits: get_u32(data, 92),
            hash_collisions: get_u64(data, 96),
            total_displacement: get_u64(data, 104),
        };
        if header.hash_size != 4 && header.hash_size != 8 {
            return Err(Error::HashSizeInvalid);
        }
        if header.address_size != 4 && header.address_size != 8 {
            return Err(Error::AddressSizeInvalid);
        }
        if header.hash_capacity < 1 || header.entry_block_bits >= 64 {
            return Err(Error::HashHeaderCorrupt);
        }
        let slot_size: u64 = (header.hash_size + header.address_size) as u64;
        if header.data_end < HEADER_SIZE as u64 {
            return Err(Error::HashHeaderCorrupt);
        }
        let table_size: u64 = header.data_end - HEADER_SIZE as u64;
        if table_size % slot_size != 0 || table_size / slot_size != header.hash_capacity {
            proof {
                assert(header.data_end != HEADER_SIZE + header.hash_capacity * slot_size)
                    by (nonlinear_arith)
                    requires
                        table_size == header.data_end - HEADER_SIZE,
                        slot_size > 0,
                        table_size % slot_size != 0 || table_size / slot_size
                            != header.hash_capacity,
                ;
            }
            return Err(Error::HashHeaderCorrupt);
        }
        proof {
            assert(header.data_end == HEADER_SIZE + header.hash_capacity * slot_size)
                by (nonlinear_arith)
                requires
                    table_size == header.data_end - HEADER_SIZE,
                    slot_size > 0,
                    table_size % slot_size == 0,
                    table_size / slot_size == header.hash_capacity,
            ;
        }
        Ok(header)
    }

    /// The bytes that store this header.
    pub fn to_bytes(&self) -> (out: Vec<u8>)
        ensures
            out@ == self.spec_bytes(),
            out@.len() == 112,
    {
        let mut out: Vec<u8> = Vec::new();
        proof {
            vstd::bytes::lemma_auto_spec_u32_to_from_le_bytes();
            vstd::bytes::lemma_auto_spec_u64_to_from_le_bytes();
            assert(out@ + spec_u32_to_le_bytes(MAGIC) =~= spec_u32_to_le_bytes(MAGIC));
        }
        put_u32(&mut out, MAGIC);
        put_u32(&mut out, self.major_version);
        put_u32(&mut out, self.minor_version);
        put_u32(&mut out, self.file_identifier);
        put_u32(&mut out, self.hash_seed);
        put_u64(&mut out, self.data_end);
        put_u64(&mut out, self.max_key_len);
        put_u64(&mut out, self.max_value_len);
        put_u64(&mut out, self.num_puts);
        put_u64(&mut out, self.garbage_size);
        put_u64(&mut out, self.num_entries);
        put_u32(&mut out, self.address_size);
        put_u32(&mut out, self.hash_size);
        put_u64(&mut out, self.hash_capacity);
        put_u64(&mut out, self.max_displacement);
        put_u32(&mut out, self.entry_block_bits);
        put_u64(&mut out, self.hash_collisions);
        put_u64(&mut out, self.total_displacement);
        out
    }
}

/// Loading the stored form of a valid header gives the header back, whatever
/// bytes follow it.
pub proof fn lemma_header_roundtrip(h: Header, rest: Seq<u8>)
    requires
        h.valid(),
    ensures
        h.spec_bytes().len() == 112,
        spec_load_header(h.spec_bytes() + rest) == Ok::<Header, Error>(h),
{
    vstd::bytes::lemma_auto_spec_u32_to_from_le_bytes();
    vstd::bytes::lemma_auto_spec_u64_to_from_le_bytes();
    let whole = h.spec_bytes() + rest;
    assert(whole.len() >= 112);
    assert(whole.subrange(0, 4) =~= spec_u32_to_le_bytes(MAGIC));
    assert(whole.subrange(4, 8) =~= spec_u32_to_le_bytes(h.major_version));
    assert(whole.subrange(8, 12) =~= spec_u32_to_le_bytes(h.minor_version));
    assert(whole.subrange(12, 16) =~= spec_u32_to_le_bytes(h.file_identifier));
    assert(whole.subrange(16, 20) =~= spec_u32_to_le_bytes(h.hash_seed));
    assert(whole.subrange(20, 28) =~= spec_u64_to_le_bytes(h.data_end));
    assert(whole.subrange(28, 36) =~= spec_u64_to_le_bytes(h.max_key_len));
    assert(whole.subrange(36, 44) =~= spec_u64_to_le_bytes(h.max_value_len));
    assert(whole.subrange(44, 52) =~= spec_u64_to_le_bytes(h.num_puts));
    assert(whole.subrange(52, 60) =~= spec_u64_to_le_bytes(h.garbage_size));
    assert(whole.subrange(60, 68) =~= spec_u64_to_le_bytes(h.num_entries));
    assert(whole.subrange(68, 72) =~= spec_u32_to_le_bytes(h.address_size));
    assert(whole.subrange(72, 76) =~= spec_u32_to_le_bytes(h.hash_size));
    assert(whole.subrange(76, 84) =~= spec_u64_to_le_bytes(h.hash_capacity));
    assert(whole.subrange(84, 92) =~= spec_u64_to_le_bytes(h.max_displacement));
    assert(whole.subrange(92, 96) =~= spec_u32_to_le_bytes(h.entry_block_bits));
    assert(whole.subrange(96, 104) =~= spec_u64_to_le_bytes(h.hash_collisions));
    assert(whole.subrange(104, 112) =~= spec_u64_to_le_bytes(h.total_displacement));
    assert(spec_header_fields(whole) == h);
}

} // verus!
