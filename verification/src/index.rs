//! Building an index from the rows of a table.
//!
//! A row holds an identifier in its first field and `chromosome:position`
//! in its second. The rows must come sorted by identifier: the build holds
//! them to that and does not sort them.

use crate::binfmt::image::{image_records, index_image, is_index_image, lemma_index_image};
use crate::binfmt::maprecord::{record_of_text, MapRecord};
use crate::binfmt::order::{
    first_descent, is_first_descent, is_sorted, lemma_sorted_iff_no_descent,
};
use crate::binfmt::MapWriter;
use crate::error::{BuildError, FormatError};
use crate::text::chars_of;
use vstd::prelude::*;
use vstd::string::StrSliceExecFns;

verus! {

/// The index of the first `:` in `text` at or after `from`; the length of
/// `text` where there is none.
pub open spec fn find_colon(text: Seq<char>, from: int) -> int
    decreases text.len() - from,
{
    if from >= text.len() {
        text.len() as int
    } else if text[from] == ':' {
        from
    } else {
        find_colon(text, from + 1)
    }
}

/// The chromosome and the position in `text`: what stands before the first
/// `:`, and what stands between it and the next `:` or the end. A `text`
/// without `:` holds neither.
pub open spec fn split_locus(text: Seq<char>) -> Option<(Seq<char>, Seq<char>)> {
    let first = find_colon(text, 0);
    if first >= text.len() {
        None
    } else {
        let second = find_colon(text, first + 1);
        Some((text.subrange(0, first), text.subrange(first + 1, second)))
    }
}

/// The record that a row denotes, or why it denotes none.
pub open spec fn row_record(row: Seq<Seq<char>>) -> Result<MapRecord, FormatError> {
    if row.len() < 2 {
        Err(FormatError::MissingField)
    } else {
        match split_locus(row[1]) {
            Some((chrom, pos)) => record_of_text(row[0], chrom, pos),
            None => Err(FormatError::MissingField),
        }
    }
}

/// Whether row `k` is the first that denotes no record.
pub open spec fn is_first_malformed(rows: Seq<Seq<Seq<char>>>, k: int) -> bool {
    &&& 0 <= k < rows.len()
    &&& row_record(rows[k]) is Err
    &&& forall|i: int| 0 <= i < k ==> (#[trigger] row_record(rows[i])) is Ok
}

/// The number of rows before the first that denotes no record: all of them
/// where every row denotes one.
pub open spec fn well_formed_rows(rows: Seq<Seq<Seq<char>>>) -> int {
    if exists|k: int| is_first_malformed(rows, k) {
        choose|k: int| is_first_malformed(rows, k)
    } else {
        rows.len() as int
    }
}

/// The records that the first `n` rows denote.
pub open spec fn rows_records(rows: Seq<Seq<Seq<char>>>, n: int) -> Seq<MapRecord>
    recommends
        0 <= n <= well_formed_rows(rows),
{
    Seq::new(n as nat, |i: int| row_record(rows[i]).unwrap())
}

/// What building an index from `rows` gives.
///
/// The rows are taken in their order, up to the first that denotes no
/// record. If one of them holds a smaller identifier than the row before
/// it, the build fails with the first such pair. Otherwise, a row that
/// denotes no record fails the build with the reason. Otherwise the index
/// holds the records of all rows.
pub open spec fn build_outcome(rows: Seq<Seq<Seq<char>>>) -> Result<Seq<u8>, BuildError> {
    let n = well_formed_rows(rows);
    let records = rows_records(rows, n);
    match first_descent(records) {
        Some(k) => Err(
            BuildError::UnsortedInput { previous: records[k - 1].rsid, current: records[k].rsid },
        ),
        None => if n < rows.len() {
            Err(BuildError::Format(row_record(rows[n])->Err_0))
        } else {
            Ok(index_image(records))
        },
    }
}

/// There is at most one first row that denotes no record.
pub proof fn lemma_first_malformed_unique(rows: Seq<Seq<Seq<char>>>, k: int)
    requires
        is_first_malformed(rows, k),
    ensures
        well_formed_rows(rows) == k,
{
    let c = choose|c: int| is_first_malformed(rows, c);
    if c < k {
        assert(row_record(rows[c]) is Ok);
    } else if k < c {
        assert(row_record(rows[k]) is Ok);
    }
}

/// The well-formed rows are a prefix of the rows, and each denotes a record.
pub proof fn lemma_well_formed_rows(rows: Seq<Seq<Seq<char>>>)
    ensures
        0 <= well_formed_rows(rows) <= rows.len(),
        forall|i: int| 0 <= i < well_formed_rows(rows) ==> (#[trigger] row_record(rows[i])) is Ok,
        well_formed_rows(rows) < rows.len() ==> row_record(rows[well_formed_rows(rows)]) is Err,
{
    if exists|k: int| is_first_malformed(rows, k) {
        let k = choose|k: int| is_first_malformed(rows, k);
        assert(is_first_malformed(rows, k));
    } else {
        assert forall|i: int| 0 <= i < rows.len() implies (#[trigger] row_record(rows[i])) is Ok by {
            lemma_no_malformed_before(rows, i);
        }
    }
}

/// Where no row is the first malformed one, every row denotes a record.
proof fn lemma_no_malformed_before(rows: Seq<Seq<Seq<char>>>, i: int)
    requires
        0 <= i < rows.len(),
        forall|k: int| !is_first_malformed(rows, k),
    ensures
        forall|j: int| 0 <= j <= i ==> (#[trigger] row_record(rows[j])) is Ok,
    decreases i,
{
    if i > 0 {
        lemma_no_malformed_before(rows, i - 1);
    }
    assert(!is_first_malformed(rows, i));
}

/// Building from rows that all denote records, with identifiers that never
/// decrease, gives the index of those records.
pub proof fn lemma_build_sorted(rows: Seq<Seq<Seq<char>>>)
    requires
        forall|i: int| 0 <= i < rows.len() ==> (#[trigger] row_record(rows[i])) is Ok,
        is_sorted(rows_records(rows, rows.len() as int)),
    ensures
        build_outcome(rows) == Ok::<Seq<u8>, BuildError>(
            index_image(rows_records(rows, rows.len() as int)),
        ),
{
    lemma_well_formed_rows(rows);
    lemma_sorted_iff_no_descent(rows_records(rows, rows.len() as int));
}

/// Building from rows of which one holds a smaller identifier than the row
/// before it fails as unsorted, if the rows up to that one all denote
/// records.
pub proof fn lemma_build_unsorted(rows: Seq<Seq<Seq<char>>>, k: int)
    requires
        0 < k < rows.len(),
        forall|i: int| 0 <= i <= k ==> (#[trigger] row_record(rows[i])) is Ok,
        row_record(rows[k]).unwrap().rsid < row_record(rows[k - 1]).unwrap().rsid,
    ensures
        build_outcome(rows) matches Err(BuildError::UnsortedInput { previous, current })
            && current < previous,
{
    lemma_well_formed_rows(rows);
    let n = well_formed_rows(rows);
    if n <= k {
        assert(row_record(rows[n]) is Ok);
    }
    let records = rows_records(rows, n);
    lemma_sorted_iff_no_descent(records);
    if is_sorted(records) {
        assert(records[k - 1].rsid <= records[k].rsid);
    }
    let d = first_descent(records).unwrap();
    assert(is_first_descent(records, d));
}

/// Finds the first `:` in `chars` at or after `from`.
fn colon_index(chars: &[char], from: usize) -> (at: usize)
    requires
        from <= chars@.len(),
    ensures
        at == find_colon(chars@, from as int),
        from <= at <= chars@.len(),
{
    let n: usize = chars.len();
    let mut at: usize = from;
    while at < n && chars[at] != ':'
        invariant
            from <= at <= n == chars@.len(),
            find_colon(chars@, at as int) == find_colon(chars@, from as int),
        decreases n - at,
    {
        at += 1;
    }
    at
}

/// Decodes the record that a row denotes: the identifier in its first
/// field, and `chromosome:position` in its second.
pub fn parse_tsv_map_record(row: &Vec<String>) -> (r: Result<MapRecord, FormatError>)
    ensures
        r == row_record(row.deep_view()),
{
    if row.len() < 2 {
        return Err(FormatError::MissingField);
    }
    let locus: &str = row[1].as_str();
    assert(row.deep_view()[0] == row@[0]@);
    assert(row.deep_view()[1] == locus@);
    let chars = chars_of(locus);
    let n: usize = chars.len();
    let first: usize = colon_index(chars.as_slice(), 0);
    if first >= n {
        return Err(FormatError::MissingField);
    }
    let second: usize = colon_index(chars.as_slice(), first + 1);
    let chrom: &str = locus.substring_char(0, first);
    let pos: &str = locus.substring_char(first + 1, second);
    MapRecord::new(row[0].as_str(), chrom, pos)
}

/// Decodes the rows of a table one by one, up to the first that denotes no
/// record, and keeps the reason why that one does not.
pub struct TsvMapRecordReader<'a> {
    rows: &'a Vec<Vec<String>>,
    next_row: usize,
    error: Option<FormatError>,
}

impl<'a> TsvMapRecordReader<'a> {
    /// The rows that the reader decodes.
    pub closed spec fn rows(&self) -> Seq<Seq<Seq<char>>> {
        self.rows.deep_view()
    }

    /// The number of rows taken so far.
    pub closed spec fn position(&self) -> int {
        self.next_row as int
    }

    /// Why the row taken last denotes no record, if it does not.
    pub closed spec fn error(&self) -> Option<FormatError> {
        self.error
    }

    /// The rows taken so far are rows of the table. All but the last
    /// denote records, and the last does so unless an error is kept.
    pub open spec fn wf(&self) -> bool {
        &&& 0 <= self.position() <= self.rows().len()
        &&& match self.error() {
            Some(e) => is_first_malformed(self.rows(), self.position() - 1) && row_record(
                self.rows()[self.position() - 1],
            ) == Err::<MapRecord, FormatError>(e),
            None => forall|i: int|
                0 <= i < self.position() ==> (#[trigger] row_record(self.rows()[i])) is Ok,
        }
    }

    /// A reader at the first of `rows`.
    pub fn new(rows: &'a Vec<Vec<String>>) -> (reader: Self)
        ensures
            reader.wf(),
            reader.rows() == rows.deep_view(),
            reader.position() == 0,
            reader.error() is None,
    {
        TsvMapRecordReader { rows, next_row: 0, error: None }
    }

    /// Takes the next row and decodes it. Gives nothing once the rows are
    /// used up, and nothing from the first row on that denotes no record.
    pub fn next(&mut self) -> (r: Option<MapRecord>)
        requires
            old(self).wf(),
        ensures
            final(self).wf(),
            final(self).rows() == old(self).rows(),
            if old(self).error() is Some || old(self).position() >= old(self).rows().len() {
                &&& r is None
                &&& final(self).position() == old(self).position()
                &&& final(self).error() == old(self).error()
            } else {
                &&& final(self).position() == old(self).position() + 1
                &&& match row_record(old(self).rows()[old(self).position()]) {
                    Ok(record) => r == Some(record) && final(self).error() is None,
                    Err(e) => r is None && final(self).error() == Some(e),
                }
            },
    {
        if self.error.is_some() || self.next_row >= self.rows.len() {
            return None;
        }
        let row: &Vec<String> = &self.rows[self.next_row];
        assert(self.rows.deep_view()[self.next_row as int] == row.deep_view());
        self.next_row = self.next_row + 1;
        match parse_tsv_map_record(row) {
            Ok(record) => Some(record),
            Err(e) => {
                self.error = Some(e);
                None
            },
        }
    }

    /// Whether every row taken denoted a record: the reason why one did
    /// not, if one did not.
    pub fn ok(self) -> (r: Result<(), FormatError>)
        ensures
            r == match self.error() {
                Some(e) => Err::<(), FormatError>(e),
                None => Ok::<(), FormatError>(()),
            },
    {
        match self.error {
            Some(e) => Err(e),
            None => Ok(()),
        }
    }
}

/// Builds the index of the records that `rows` denote.
///
/// The rows must be sorted by identifier. The build fails at the first row
/// that denotes no record or that holds a smaller identifier than the row
/// before it.
pub fn create_map(rows: &Vec<Vec<String>>) -> (r: Result<Vec<u8>, BuildError>)
    ensures
        match build_outcome(rows.deep_view()) {
            Ok(image) => r matches Ok(bytes) && bytes@ == image,
            Err(e) => r == Err::<Vec<u8>, BuildError>(e),
        },
        r matches Ok(bytes) ==> is_index_image(bytes@) && is_sorted(image_records(bytes@)),
{
    let ghost table = rows.deep_view();
    let mut reader = TsvMapRecordReader::new(rows);
    let mut records: Vec<MapRecord> = Vec::new();
    loop
        invariant_except_break
            reader.error() is None,
            records@ == rows_records(table, reader.position()),
        invariant
            reader.wf(),
            reader.rows() == table,
        ensures
            reader.wf(),
            reader.rows() == table,
            match reader.error() {
                Some(_) => records@ == rows_records(table, reader.position() - 1),
                None => records@ == rows_records(table, reader.position())
                    && reader.position() == table.len(),
            },
        decreases table.len() - reader.position(),
    {
        let ghost at = reader.position();
        match reader.next() {
            Some(record) => {
                records.push(record);
                assert(records@ =~= rows_records(table, at + 1));
            },
            None => {
                break ;
            },
        }
    }
    proof {
        lemma_well_formed_rows(table);
        if reader.error() is Some {
            lemma_first_malformed_unique(table, reader.position() - 1);
        } else if well_formed_rows(table) < table.len() {
            assert(row_record(table[well_formed_rows(table)]) is Ok);
        }
        assert(records@ == rows_records(table, well_formed_rows(table)));
    }
    let mut writer = MapWriter::new();
    assert(Seq::<MapRecord>::empty() + records@ =~= records@);
    match writer.write_map(&records) {
        Ok(()) => {
            proof {
                lemma_sorted_iff_no_descent(records@);
            }
        },
        Err(e) => {
            return Err(e);
        },
    }
    match reader.ok() {
        Ok(()) => {},
        Err(e) => {
            return Err(BuildError::Format(e));
        },
    }
    proof {
        writer.lemma_written_sorted();
        lemma_index_image(records@);
    }
    Ok(writer.finish())
}

} // verus!
