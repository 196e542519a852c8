//! The binary index: its records, how it is read, and how it is written.

pub mod endian;
pub mod image;
pub mod maprecord;
pub mod order;
pub mod readat;
pub mod search;

use crate::binfmt::endian::{encode_u64, lemma_be_bytes_len, lemma_be_value_u64};
use crate::binfmt::image::{
    HEADER_SIZE, image_count, image_records, index_image, is_index_image, lemma_index_image,
    lemma_records_bytes, record_offset, records_bytes,
};
use crate::binfmt::maprecord::{Locus, MapRecord, RECORD_SIZE};
use crate::binfmt::order::{
    first_descent, is_first_descent, is_sorted, last_rsid, lemma_first_descent_unique,
    lemma_sorted_push,
};
use crate::binfmt::readat::{ReadAt, SourceModel};
use crate::binfmt::search::{
    ceil_log2, lemma_search_step, lookup, midpoint, narrow, search, search_bound, Step,
};
use crate::error::{BuildError, CorruptIndex, IoError, OpenError};
use vstd::prelude::*;

verus! {

/// Looks identifiers up in an index that it reads from a source.
pub struct MapReader<R: ReadAt> {
    source: R,
    num_records: u64,
}

impl<R: ReadAt> MapReader<R> {
    /// The source that the index is read from.
    pub closed spec fn source(&self) -> R {
        self.source
    }

    /// The record count that was read when the index was opened.
    pub closed spec fn cached_count(&self) -> u64 {
        self.num_records
    }

    /// The model of the source, if it has one.
    pub open spec fn model(&self) -> Option<SourceModel> {
        self.source().model()
    }

    /// The records of the index, in the order of the file, where the source
    /// has a model.
    pub open spec fn records(&self) -> Seq<MapRecord> {
        image_records(self.model().unwrap().content)
    }

    /// An index with the cached record count has a length that fits in 64
    /// bits. Where the source has a model, it holds a well-formed index
    /// whose header states the cached record count.
    pub open spec fn wf(&self) -> bool {
        &&& record_offset(self.cached_count() as int) <= u64::MAX
        &&& self.model() matches Some(m) ==> {
            &&& is_index_image(m.content)
            &&& self.cached_count() == image_count(m.content)
        }
    }

    /// Whether `other` is `self` after `reads` more reads, at most: with
    /// the same record count, and with the same content where the source has
    /// a model.
    pub open spec fn read_on(&self, other: &Self, reads: nat) -> bool {
        &&& other.cached_count() == self.cached_count()
        &&& self.model() is None ==> other.model() is None
        &&& self.model() matches Some(m) ==> {
            &&& other.model() matches Some(after)
            &&& after.content == m.content
            &&& m.reads <= after.reads <= m.reads + reads
        }
    }

    /// Opens the index that `source` holds: reads the record count from the
    /// header and holds it against the length of the source.
    ///
    /// A source with a model is opened exactly if it holds a well-formed
    /// index, at the cost of one read.
    pub fn new(source: R) -> (r: Result<Self, OpenError>)
        ensures
            r matches Ok(reader) ==> reader.wf(),
            source.model() is None ==> (r matches Ok(reader) ==> reader.model() is None),
            source.model() matches Some(m) ==> match r {
                Ok(reader) => is_index_image(m.content) && reader.model() == Some(m.after_read()),
                Err(e) => !is_index_image(m.content) && e == OpenError::CorruptIndex(
                    CorruptIndex::RecordCount,
                ),
            },
    {
        let mut source = source;
        let len: u64 = match source.len() {
            Ok(len) => len,
            Err(e) => {
                return Err(OpenError::Io(e));
            },
        };
        if len < HEADER_SIZE {
            return Err(OpenError::CorruptIndex(CorruptIndex::RecordCount));
        }
        let num_records: u64 = match source.read_u64_at(0) {
            Ok(n) => n,
            Err(e) => {
                return Err(OpenError::Io(e));
            },
        };
        let body: u64 = len - HEADER_SIZE;
        proof {
            assert(HEADER_SIZE == 8 && RECORD_SIZE == 9);
            if source.model() is Some {
                lemma_be_value_u64(source.model().unwrap().content.subrange(0, 8));
            }
        }
        if body % RECORD_SIZE != 0 || body / RECORD_SIZE != num_records {
            return Err(OpenError::CorruptIndex(CorruptIndex::RecordCount));
        }
        Ok(MapReader { source, num_records })
    }

    /// The number of records in the index.
    pub fn num_records(&self) -> (n: u64)
        ensures
            n == self.cached_count(),
            self.wf() && self.model() is Some ==> n == self.records().len(),
    {
        self.num_records
    }

    /// Hands the source back.
    pub fn into_inner(self) -> (source: R)
        ensures
            source == self.source(),
    {
        self.source
    }

    /// The offset in the file at which the record with this index starts.
    pub fn get_map_seek_index(index: u64) -> (offset: u64)
        requires
            record_offset(index as int) <= u64::MAX,
        ensures
            offset == record_offset(index as int),
    {
        HEADER_SIZE + RECORD_SIZE * index
    }

    /// Reads the identifier of the record with this index.
    fn read_record_id_at(&mut self, index: u64) -> (r: Result<u32, IoError>)
        requires
            old(self).wf(),
            index < old(self).cached_count(),
        ensures
            final(self).wf(),
            final(self).cached_count() == old(self).cached_count(),
            old(self).model() is None ==> final(self).model() is None,
            old(self).model() matches Some(m) ==> {
                &&& final(self).model() == Some(m.after_read())
                &&& r == Ok::<u32, IoError>(old(self).records()[index as int].rsid)
            },
    {
        let offset: u64 = Self::get_map_seek_index(index);
        let r = self.source.read_u32_at(offset);
        proof {
            if old(self).model() is Some {
                let m = old(self).model().unwrap();
                let record = m.content.subrange(
                    record_offset(index as int),
                    record_offset(index + 1),
                );
                assert(record.subrange(0, 4) =~= m.bytes_at(offset, 4));
            }
        }
        r
    }

    /// Reads the locus of the record with this index.
    fn read_locus_at(&mut self, index: u64) -> (r: Result<Locus, IoError>)
        requires
            old(self).wf(),
            index < old(self).cached_count(),
        ensures
            final(self).wf(),
            final(self).cached_count() == old(self).cached_count(),
            old(self).model() is None ==> final(self).model() is None,
            old(self).model() matches Some(m) ==> {
                &&& final(self).model() == Some(m.after_read())
                &&& r == Ok::<Locus, IoError>(old(self).records()[index as int].spec_locus())
            },
    {
        let offset: u64 = Self::get_map_seek_index(index) + 4;
        let mut buf: [u8; 5] = [0u8; 5];
        match self.source.fill_buf_at(&mut buf, offset) {
            Ok(()) => {
                proof {
                    if old(self).model() is Some {
                        let m = old(self).model().unwrap();
                        let record = m.content.subrange(
                            record_offset(index as int),
                            record_offset(index + 1),
                        );
                        assert(record.subrange(5, 9) =~= buf@.subrange(1, 5));
                        assert(record[4] == buf@[0]);
                    }
                }
                Locus::from_bytes(&buf)
            },
            Err(e) => Err(e),
        }
    }

    /// Looks `key` up by binary search over the records of the index.
    ///
    /// The search takes at most `ceil_log2` of the record count steps, each
    /// of which reads one identifier; where it stops at a record, it reads
    /// the locus of that record. An empty index is not read at all, whatever
    /// the source. From a source with a model the result is that of
    /// `lookup`; a source without one decides each step by what it returns.
    pub fn find_record(&mut self, key: u32) -> (r: Result<Option<Locus>, IoError>)
        requires
            old(self).wf(),
        ensures
            final(self).wf(),
            old(self).read_on(final(self), ceil_log2(old(self).cached_count() as nat) + 1),
            old(self).cached_count() == 0 ==> {
                &&& r == Ok::<Option<Locus>, IoError>(None)
                &&& final(self).source() == old(self).source()
            },
            old(self).model() is Some ==> r == Ok::<Option<Locus>, IoError>(
                lookup(old(self).records(), key),
            ),
    {
        if self.num_records == 0 {
            return Ok(None);
        }
        let max_iters: u64 = search_bound(self.num_records);
        let ghost before = *self;
        let ghost records = self.records();
        let mut start: u64 = 0;
        let mut end: u64 = self.num_records - 1;
        let mut iters: u64 = 0;
        while iters < max_iters
            invariant
                self.wf(),
                before == *old(self),
                before.wf(),
                before.read_on(self, iters as nat),
                before.model() matches Some(m) ==> self.model() matches Some(now) && now.reads
                    == m.reads + iters,
                records == before.records(),
                max_iters == ceil_log2(before.cached_count() as nat),
                start <= end < before.cached_count(),
                iters <= max_iters,
                before.model() is Some ==> search(
                    records,
                    key,
                    start as int,
                    end as int,
                    (max_iters - iters) as nat,
                ) == search(records, key, 0, records.len() - 1, max_iters as nat),
            decreases max_iters - iters,
        {
            let middle: u64 = midpoint(start, end);
            let stored: u32 = match self.read_record_id_at(middle) {
                Ok(id) => id,
                Err(e) => {
                    return Err(e);
                },
            };
            proof {
                lemma_search_step(records, key, start, end, (max_iters - iters) as nat);
            }
            match narrow(start, end, stored, key) {
                Step::Found => {
                    return match self.read_locus_at(middle) {
                        Ok(locus) => Ok(Some(locus)),
                        Err(e) => Err(e),
                    };
                },
                Step::Narrow { start: s, end: e } => {
                    start = s;
                    end = e;
                },
                Step::Absent => {
                    return Ok(None);
                },
            }
            iters = iters + 1;
        }
        Ok(None)
    }
}

/// Collects the records of an index, holding them to their order, and
/// writes the finished index once all of them are in.
pub struct MapWriter {
    staged: Vec<u8>,
    num_records: u64,
    last_rsid: u32,
    written: Ghost<Seq<MapRecord>>,
}

impl View for MapWriter {
    type V = Seq<MapRecord>;

    /// The records written so far, in their order.
    closed spec fn view(&self) -> Seq<MapRecord> {
        self.written@
    }
}

impl MapWriter {
    /// The staged bytes are those of the records written so far, which are
    /// counted, and sorted by identifier.
    pub closed spec fn wf(&self) -> bool {
        &&& self.staged@ == records_bytes(self.written@)
        &&& self.num_records == self.written@.len()
        &&& self.last_rsid == last_rsid(self.written@)
        &&& is_sorted(self.written@)
    }

    /// The records of a writer are sorted, and fewer than two to the power
    /// 64.
    pub proof fn lemma_written_sorted(&self)
        requires
            self.wf(),
        ensures
            is_sorted(self@),
            self@.len() <= u64::MAX,
    {
    }

    /// A writer that holds no record yet.
    pub fn new() -> (writer: MapWriter)
        ensures
            writer.wf(),
            writer@ == Seq::<MapRecord>::empty(),
    {
        MapWriter { staged: Vec::new(), num_records: 0, last_rsid: 0, written: Ghost(Seq::empty()) }
    }

    /// The number of records written so far.
    pub fn num_records(&self) -> (n: u64)
        requires
            self.wf(),
        ensures
            n == self@.len(),
    {
        self.num_records
    }

    /// Writes `r` after the records written so far, unless its identifier
    /// is smaller than that of the last of them: such a record is refused,
    /// and the writer stays as it was.
    pub fn write_map_record(&mut self, r: &MapRecord) -> (res: Result<(), BuildError>)
        requires
            old(self).wf(),
        ensures
            final(self).wf(),
            match res {
                Ok(()) => {
                    &&& last_rsid(old(self)@) <= r.rsid
                    &&& final(self)@ == old(self)@.push(*r)
                },
                Err(e) => {
                    &&& r.rsid < last_rsid(old(self)@)
                    &&& e == BuildError::UnsortedInput {
                        previous: last_rsid(old(self)@),
                        current: r.rsid,
                    }
                    &&& final(self)@ == old(self)@
                },
            },
    {
        if r.rsid < self.last_rsid {
            return Err(BuildError::UnsortedInput { previous: self.last_rsid, current: r.rsid });
        }
        let bytes = r.to_bytes();
        proof {
            lemma_records_bytes(self.written@);
            lemma_sorted_push(self.written@, *r);
            assert(self.written@.push(*r).drop_last() =~= self.written@);
        }
        assert(self.staged@.len() == 9 * self.num_records);
        self.staged.extend_from_slice(bytes.as_slice());
        assert(self.staged@ =~= records_bytes(self.written@.push(*r)));
        assert(9 * (self.num_records + 1) == self.staged.len());
        self.num_records = self.num_records + 1;
        self.last_rsid = r.rsid;
        self.written = Ghost(self.written@.push(*r));
        Ok(())
    }

    /// Writes `records` in their order, and stops at the first whose
    /// identifier is smaller than that of the record before it.
    pub fn write_map(&mut self, records: &Vec<MapRecord>) -> (res: Result<(), BuildError>)
        requires
            old(self).wf(),
        ensures
            final(self).wf(),
            match res {
                Ok(()) => {
                    &&& is_sorted(old(self)@ + records@)
                    &&& final(self)@ == old(self)@ + records@
                },
                Err(e) => {
                    &&& first_descent(old(self)@ + records@) matches Some(k)
                    &&& e == BuildError::UnsortedInput {
                        previous: (old(self)@ + records@)[k - 1].rsid,
                        current: (old(self)@ + records@)[k].rsid,
                    }
                    &&& final(self)@ == (old(self)@ + records@).take(k)
                },
            },
    {
        let ghost before = self@;
        let ghost all = before + records@;
        let n: usize = records.len();
        let mut i: usize = 0;
        while i < n
            invariant
                self.wf(),
                i <= n == records@.len(),
                before == old(self)@,
                all == before + records@,
                self@ == all.take(before.len() + i),
            decreases n - i,
        {
            let ghost k = before.len() + i;
            match self.write_map_record(&records[i]) {
                Ok(()) => {
                    assert(all.take(k + 1) =~= all.take(k).push(records@[i as int]));
                },
                Err(e) => {
                    proof {
                        self.lemma_written_sorted();
                        assert(all[k] == records@[i as int]);
                        assert(all.take(k).last() == all[k - 1]);
                        assert(is_first_descent(all, k));
                        lemma_first_descent_unique(all, k);
                    }
                    return Err(e);
                },
            }
            i += 1;
        }
        proof {
            self.lemma_written_sorted();
            assert(all.take(before.len() + n) =~= all);
        }
        Ok(())
    }

    /// The finished index: the number of the records written, then the
    /// records.
    pub fn finish(self) -> (image: Vec<u8>)
        requires
            self.wf(),
        ensures
            image@ == index_image(self@),
            is_index_image(image@),
            image_records(image@) == self@,
            is_sorted(self@),
    {
        let header = encode_u64(self.num_records);
        let mut image: Vec<u8> = Vec::new();
        image.extend_from_slice(header.as_slice());
        image.extend_from_slice(self.staged.as_slice());
        proof {
            lemma_be_bytes_len(self.num_records as nat, 8);
            assert(image@ =~= index_image(self@));
            lemma_index_image(self@);
        }
        image
    }
}

} // verus!
