//! Entries of an uncompressed log, decoded in place: the payload is one
//! stream of entries from the end of the header to the data end.

use crate::error::Error;
use crate::log::{entry_len, read_entry, spec_entry_len, spec_read_entry, spec_tail, tail, Entry, Reader};
use vstd::prelude::*;

verus! {

/// A cursor over the entries of an uncompressed log.
#[derive(Debug)]
pub struct EntryReader<'a> {
    pub reader: &'a Reader,
    pub next_position: usize,
}

impl<'a> EntryReader<'a> {
    /// A cursor at the first entry of the log.
    pub fn new(reader: &'a Reader) -> (r: EntryReader<'a>)
        ensures
            r.reader == reader,
            r.next_position == reader.header.header_size,
    {
        EntryReader::new_at(reader, reader.header.header_size as usize)
    }

    /// A cursor at the entry that starts at `position`.
    pub fn new_at(reader: &'a Reader, position: usize) -> (r: EntryReader<'a>)
        ensures
            r.reader == reader,
            r.next_position == position,
    {
        EntryReader { reader, next_position: position }
    }

    /// What `next` gives for a cursor at `position` over `map`: nothing at or
    /// behind the end, else the entry decoded there and the position behind
    /// it.
    pub open spec fn spec_next(map: Seq<u8>, position: int) -> Result<
        Option<(Entry<Seq<u8>>, int)>,
        Error,
    > {
        if position >= map.len() {
            Ok(None)
        } else {
            match spec_read_entry(spec_tail(map, position)) {
                Ok((entry, n)) => Ok(Some((entry, position + n))),
                Err(e) => Err(e),
            }
        }
    }

    /// What `skip_next` gives for a cursor at `position` over `map`: the
    /// position behind the entry that starts there.
    pub open spec fn spec_skip_next(map: Seq<u8>, position: int) -> Result<int, Error> {
        match spec_entry_len(spec_tail(map, position)) {
            Ok(n) => Ok(position + n),
            Err(e) => Err(e),
        }
    }

    /// Decodes the entry at the cursor and moves behind it. A failure leaves
    /// the cursor where it was.
    pub fn next(&mut self) -> (r: Result<Option<Entry<&'a [u8]>>, Error>)
        ensures
            final(self).reader == old(self).reader,
            match r {
                Ok(Some(entry)) => Self::spec_next(
                    old(self).reader.map@,
                    old(self).next_position as int,
                ) == Ok::<Option<(Entry<Seq<u8>>, int)>, Error>(
                    Some((entry@, final(self).next_position as int)),
                ),
                Ok(None) => Self::spec_next(old(self).reader.map@, old(self).next_position as int)
                    == Ok::<Option<(Entry<Seq<u8>>, int)>, Error>(None) && final(self).next_position
                    == old(self).next_position,
                Err(e) => Self::spec_next(old(self).reader.map@, old(self).next_position as int)
                    == Err::<Option<(Entry<Seq<u8>>, int)>, Error>(e) && final(self).next_position
                    == old(self).next_position,
            },
    {
        let reader: &'a Reader = self.reader;
        if self.next_position >= reader.map.len() {
            return Ok(None);
        }
        let slice: &'a [u8] = tail(reader.map.as_slice(), self.next_position);
        match read_entry(slice) {
            Ok((entry, n)) => {
                self.next_position = self.next_position + n;
                Ok(Some(entry))
            },
            Err(e) => Err(e),
        }
    }

    /// Moves the cursor behind the entry it stands at, without decoding the
    /// entry's bytes. A failure leaves the cursor where it was.
    pub fn skip_next(&mut self) -> (r: Result<(), Error>)
        ensures
            final(self).reader == old(self).reader,
            match r {
                Ok(()) => Self::spec_skip_next(
                    old(self).reader.map@,
                    old(self).next_position as int,
                ) == Ok::<int, Error>(final(self).next_position as int),
                Err(e) => Self::spec_skip_next(
                    old(self).reader.map@,
                    old(self).next_position as int,
                ) == Err::<int, Error>(e) && final(self).next_position == old(self).next_position,
            },
    {
        let reader: &'a Reader = self.reader;
        let slice: &'a [u8] = tail(reader.map.as_slice(), self.next_position);
        match entry_len(slice) {
            Ok(n) => {
                proof {
                    crate::vlq::lemma_read_vlq_len(slice@);
                    assert(self.next_position + slice@.len() <= reader.map@.len());
                }
                self.next_position = self.next_position + n;
                Ok(())
            },
            Err(e) => Err(e),
        }
    }
}

} // verus!
