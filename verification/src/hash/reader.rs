//! Reading an index together with the log it was built from.

use crate::error::Error;
use crate::hash::table::{get, get_view, spec_get, spec_slots};
use crate::hash::{spec_load_header, Header};
use crate::log::{entries_view, spec_open, EntriesModel, Entry};
use vstd::prelude::*;
use vstd::slice::slice_to_vec;

verus! {

/// What opening an index image `hash_data` over the log image `log_data`
/// gives: the two headers and the two images, each up to its data end. The
/// index header is checked first, then the log is opened, then the two file
/// identifiers are compared, then the length of the index image.
pub open spec fn spec_open_index(hash_data: Seq<u8>, log_data: Seq<u8>) -> Result<
    (Header, Seq<u8>, crate::log::Header, Seq<u8>),
    Error,
> {
    match spec_load_header(hash_data) {
        Err(e) => Err(e),
        Ok(header) => match spec_open(log_data) {
            Err(e) => Err(e),
            Ok((log_header, log_map)) => {
                if header.file_identifier != log_header.file_identifier {
                    Err(Error::FileIdentifierMismatch)
                } else if header.data_end > hash_data.len() {
                    Err(Error::HashTooSmall)
                } else {
                    Ok((header, hash_data.take(header.data_end as int), log_header, log_map))
                }
            },
        },
    }
}

/// Whether the put at `i` in `entries` is live: no later entry has its key.
pub open spec fn spec_is_live(entries: Seq<Entry<Seq<u8>>>, i: int) -> bool {
    &&& entries[i] is Put
    &&& forall|j: int| i < j < entries.len() ==> (#[trigger] entries[j]).spec_key() != entries[i].spec_key()
}

/// The live puts among `entries` from `i` on, in order.
pub open spec fn spec_live_from(entries: Seq<Entry<Seq<u8>>>, i: int) -> Seq<Entry<Seq<u8>>>
    decreases entries.len() - i,
{
    if i < 0 || i >= entries.len() {
        Seq::empty()
    } else if spec_is_live(entries, i) {
        seq![entries[i]] + spec_live_from(entries, i + 1)
    } else {
        spec_live_from(entries, i + 1)
    }
}

/// The live puts among `entries`, in order: for each key whose last entry
/// is a put, that put.
pub open spec fn spec_live_puts(entries: Seq<Entry<Seq<u8>>>) -> Seq<Entry<Seq<u8>>> {
    spec_live_from(entries, 0)
}

/// Whether no entry of `entries` behind `i` has the key of the one at `i`.
fn is_last_of_key(entries: &Vec<Entry<Vec<u8>>>, i: usize) -> (last: bool)
    requires
        i < entries.len(),
    ensures
        last == (forall|j: int|
            i < j < entries.len() ==> (#[trigger] entries_view(entries@)[j]).spec_key()
                != entries_view(entries@)[i as int].spec_key()),
{
    let key = entries[i].key();
    let mut j: usize = i + 1;
    while j < entries.len()
        invariant
            i < j <= entries.len(),
            *key == entries@[i as int].spec_key(),
            forall|k: int|
                i < k < j ==> (#[trigger] entries_view(entries@)[k]).spec_key() != entries_view(
                    entries@,
                )[i as int].spec_key(),
        decreases entries.len() - j,
    {
        let other = entries[j].key();
        if crate::hash::table::bytes_eq(other.as_slice(), key.as_slice()) {
            proof {
                assert(entries_view(entries@)[j as int].spec_key() == entries_view(
                    entries@,
                )[i as int].spec_key());
            }
            return false;
        }
        j = j + 1;
    }
    true
}

/// The live puts among `entries`, in order.
pub fn live_puts(entries: &Vec<Entry<Vec<u8>>>) -> (live: Vec<Entry<Vec<u8>>>)
    ensures
        entries_view(live@) == spec_live_puts(entries_view(entries@)),
{
    let mut live: Vec<Entry<Vec<u8>>> = Vec::new();
    let ghost all = entries_view(entries@);
    let mut i: usize = entries.len();
    proof {
        assert(entries_view(live@) =~= spec_live_from(all, i as int));
    }
    // Collected back to front, then turned round.
    while i > 0
        invariant
            i <= entries.len(),
            all == entries_view(entries@),
            entries_view(live@).reverse() == spec_live_from(all, i as int),
        decreases i,
    {
        i = i - 1;
        let ghost before = entries_view(live@);
        match &entries[i] {
            Entry::Put(k, v) => {
                if is_last_of_key(entries, i) {
                    let copy = Entry::Put(slice_to_vec(k.as_slice()), slice_to_vec(v.as_slice()));
                    proof {
                        assert(copy@ == all[i as int]);
                        assert(spec_is_live(all, i as int));
                        assert(entries_view(live@.push(copy)) =~= before.push(copy@));
                        assert(before.push(copy@).reverse() =~= seq![copy@] + before.reverse());
                    }
                    live.push(copy);
                } else {
                    proof {
                        assert(!spec_is_live(all, i as int));
                    }
                }
            },
            Entry::Delete(_) => {
                proof {
                    assert(!spec_is_live(all, i as int));
                }
            },
        }
    }
    let mut out: Vec<Entry<Vec<u8>>> = Vec::new();
    let ghost target = spec_live_from(all, 0);
    let ghost collected = entries_view(live@);
    proof {
        assert(collected.reverse() == target);
        assert(entries_view(out@) =~= target.take(0));
    }
    while live.len() > 0
        invariant
            entries_view(live@) =~= collected.take(live@.len() as int),
            live@.len() <= collected.len(),
            collected.reverse() == target,
            entries_view(out@) =~= target.take(collected.len() - live@.len()),
        decreases live.len(),
    {
        let ghost n = live@.len() as int;
        let ghost done = entries_view(out@);
        let ghost view_before = entries_view(live@);
        match live.pop() {
            Some(entry) => {
                proof {
                    assert(entry@ == view_before[n - 1]);
                    assert(entry@ == collected[n - 1]);
                    assert(target[collected.len() - n] == collected[n - 1]);
                    assert(entries_view(out@.push(entry)) =~= done.push(entry@));
                    assert(entries_view(live@) =~= collected.take(n - 1));
                }
                out.push(entry);
            },
            None => {},
        }
    }
    proof {
        assert(target.take(collected.len() as int) =~= target);
    }
    out
}

/// An index that is open for reading, with its log.
#[derive(Debug)]
pub struct Reader {
    pub header: Header,
    pub map: Vec<u8>,
    pub log: crate::log::Reader,
}

impl Reader {
    /// The index header is valid, the index image ends where its header says
    /// the data ends, the log is well formed, and the two belong together.
    pub open spec fn wf(&self) -> bool {
        &&& self.header.valid()
        &&& self.map@.len() == self.header.data_end
        &&& self.log.wf()
        &&& self.header.file_identifier == self.log.header.file_identifier
    }

    /// Opens the index whose image is `hash_data` over the log whose image
    /// is `log_data`.
    pub fn open(hash_data: Vec<u8>, log_data: Vec<u8>) -> (r: Result<Reader, Error>)
        ensures
            match r {
                Ok(reader) => spec_open_index(hash_data@, log_data@) == Ok::<
                    (Header, Seq<u8>, crate::log::Header, Seq<u8>),
                    Error,
                >((reader.header, reader.map@, reader.log.header, reader.log.map@)) && reader.wf(),
                Err(e) => spec_open_index(hash_data@, log_data@) == Err::<
                    (Header, Seq<u8>, crate::log::Header, Seq<u8>),
                    Error,
                >(e),
            },
    {
        let header = match Header::load(hash_data.as_slice()) {
            Ok(h) => h,
            Err(e) => {
                return Err(e);
            },
        };
        let log = match crate::log::Reader::open(log_data) {
            Ok(log) => log,
            Err(e) => {
                return Err(e);
            },
        };
        if header.file_identifier != log.header.file_identifier {
            return Err(Error::FileIdentifierMismatch);
        }
        if header.data_end > hash_data.len() as u64 {
            return Err(Error::HashTooSmall);
        }
        let mut map = hash_data;
        map.truncate(header.data_end as usize);
        proof {
            assert(map@ =~= hash_data@.take(header.data_end as int));
        }
        Ok(Reader { header, map, log })
    }

    /// The log that this index points into.
    pub fn log_reader(&self) -> (log: &crate::log::Reader)
        ensures
            *log == self.log,
    {
        &self.log
    }

    /// The value stored under `key`, or nothing where the index holds no put
    /// of `key`.
    pub fn get(&self, key: &[u8]) -> (r: Result<Option<Vec<u8>>, Error>)
        requires
            self.wf(),
        ensures
            get_view(r) == spec_get(
                spec_slots(self.map@, self.header),
                self.header,
                self.log.map@,
                self.log.header.compression_type,
                key@,
            ),
    {
        get(self.map.as_slice(), &self.header, &self.log, key)
    }

    /// What `entries` gives: the live puts of the log in insertion order, or
    /// the first failure of decoding the log.
    pub open spec fn spec_entries(&self) -> Result<Seq<Entry<Seq<u8>>>, Error> {
        match EntriesModel::at(
            self.log.header.compression_type,
            self.log.header.header_size as int,
        ).spec_remaining(self.log.map@) {
            Ok(all) => Ok(spec_live_puts(all)),
            Err(e) => Err(e),
        }
    }

    /// Every live put of the log, once, in insertion order.
    pub fn entries(&self) -> (r: Result<Vec<Entry<Vec<u8>>>, Error>)
        ensures
            match r {
                Ok(live) => self.spec_entries() == Ok::<Seq<Entry<Seq<u8>>>, Error>(
                    entries_view(live@),
                ),
                Err(e) => self.spec_entries() == Err::<Seq<Entry<Seq<u8>>>, Error>(e),
            },
    {
        let mut cursor = self.log.entries();
        match cursor.read_all() {
            Ok(all) => Ok(live_puts(&all)),
            Err(e) => Err(e),
        }
    }

    /// The key of every live put of the log, in insertion order.
    pub fn keys(&self) -> (r: Result<Vec<Vec<u8>>, Error>)
        ensures
            match r {
                Ok(keys) => self.spec_entries() is Ok && keys@.len()
                    == self.spec_entries()->Ok_0.len() && forall|i: int|
                    0 <= i < keys@.len() ==> (#[trigger] keys@[i])@
                        == self.spec_entries()->Ok_0[i].spec_key(),
                Err(e) => self.spec_entries() == Err::<Seq<Entry<Seq<u8>>>, Error>(e),
            },
    {
        let live = match self.entries() {
            Ok(live) => live,
            Err(e) => {
                return Err(e);
            },
        };
        let mut keys: Vec<Vec<u8>> = Vec::new();
        let mut i: usize = 0;
        while i < live.len()
            invariant
                i <= live.len(),
                keys@.len() == i,
                forall|j: int|
                    0 <= j < i ==> (#[trigger] keys@[j])@ == entries_view(live@)[j].spec_key(),
            decreases live.len() - i,
        {
            let key = slice_to_vec(live[i].key().as_slice());
            keys.push(key);
            i = i + 1;
        }
        Ok(keys)
    }

    /// The value of every live put of the log, in insertion order.
    pub fn values(&self) -> (r: Result<Vec<Vec<u8>>, Error>)
        ensures
            match r {
                Ok(values) => self.spec_entries() is Ok && values@.len()
                    == self.spec_entries()->Ok_0.len() && forall|i: int|
                    0 <= i < values@.len() ==> Some((#[trigger] values@[i])@)
                        == self.spec_entries()->Ok_0[i].spec_value(),
                Err(e) => self.spec_entries() == Err::<Seq<Entry<Seq<u8>>>, Error>(e),
            },
    {
        let live = match self.entries() {
            Ok(live) => live,
            Err(e) => {
                return Err(e);
            },
        };
        proof {
            lemma_live_are_puts(
                EntriesModel::at(
                    self.log.header.compression_type,
                    self.log.header.header_size as int,
                ).spec_remaining(self.log.map@)->Ok_0,
                0,
            );
        }
        let mut values: Vec<Vec<u8>> = Vec::new();
        let mut i: usize = 0;
        while i < live.len()
            invariant
                i <= live.len(),
                values@.len() == i,
                forall|j: int| 0 <= j < live@.len() ==> (#[trigger] entries_view(live@)[j]) is Put,
                forall|j: int|
                    0 <= j < i ==> Some((#[trigger] values@[j])@) == entries_view(
                        live@,
                    )[j].spec_value(),
            decreases live.len() - i,
        {
            proof {
                assert(entries_view(live@)[i as int] is Put);
            }
            match &live[i] {
                Entry::Put(_, v) => {
                    values.push(slice_to_vec(v.as_slice()));
                },
                Entry::Delete(_) => {},
            }
            i = i + 1;
        }
        Ok(values)
    }

    /// The number of live puts that the index holds.
    pub fn num_entries(&self) -> (n: u64)
        ensures
            n == self.header.num_entries,
    {
        self.header.num_entries
    }

    /// The number of hash collisions that building the index met.
    pub fn num_collisions(&self) -> (n: u64)
        ensures
            n == self.header.hash_collisions,
    {
        self.header.hash_collisions
    }
}

/// Every live put is a put.
pub proof fn lemma_live_are_puts(entries: Seq<Entry<Seq<u8>>>, i: int)
    ensures
        forall|j: int|
            0 <= j < spec_live_from(entries, i).len() ==> (#[trigger] spec_live_from(
                entries,
                i,
            )[j]) is Put,
    decreases entries.len() - i,
{
    if 0 <= i < entries.len() {
        lemma_live_are_puts(entries, i + 1);
    }
}

} // verus!
