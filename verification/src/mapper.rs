//! Mapping the rows of a table: the identifier in the first field of each
//! row gives way to the locus that the index resolves it to.

use crate::binfmt::image::{image_records, is_index_image};
use crate::binfmt::maprecord::{rsid_to_u32, rsid_value, Locus, MapRecord};
use crate::binfmt::readat::ReadAt;
use crate::binfmt::search::{ceil_log2, lookup};
use crate::binfmt::MapReader;
use crate::error::{CorruptIndex, FormatError, MapError, OpenError};
use vstd::prelude::*;

verus! {

/// The identifier in the first field of `row`. A row without fields, or
/// whose first field is no identifier, is malformed.
pub open spec fn row_rsid(row: Seq<Seq<char>>) -> Result<u32, MapError> {
    if row.len() == 0 {
        Err(MapError::MalformedRow(FormatError::MissingField))
    } else {
        match rsid_value(row[0]) {
            Some(rsid) => Ok(rsid),
            None => Err(MapError::MalformedRow(FormatError::Identifier)),
        }
    }
}

/// The fields of `row` after the first.
pub open spec fn other_fields(row: Seq<Seq<char>>) -> Seq<Seq<char>> {
    if row.len() == 0 {
        row
    } else {
        row.subrange(1, row.len() as int)
    }
}

/// What becomes of `row`, which holds the identifier `rsid`, once the
/// lookup of `rsid` has given `found`: the row with its first field
/// replaced by the locus, written as `label:position`, and its other fields
/// as they are.
///
/// An identifier that the lookup did not find is unresolved. A locus whose
/// chromosome code stands for no chromosome shows a corrupt index.
pub open spec fn placed(row: Seq<Seq<char>>, rsid: u32, found: Option<Locus>) -> Result<
    Seq<Seq<char>>,
    MapError,
> {
    match found {
        None => Err(MapError::UnresolvedIdentifier(rsid)),
        Some(locus) => match locus.spec_format() {
            None => Err(MapError::CorruptIndex(CorruptIndex::ChromosomeCode(locus.chrom))),
            Some(text) => Ok(seq![text] + other_fields(row)),
        },
    }
}

/// What mapping `row` against `records` gives.
pub open spec fn mapped_row(records: Seq<MapRecord>, row: Seq<Seq<char>>) -> Result<
    Seq<Seq<char>>,
    MapError,
> {
    match row_rsid(row) {
        Ok(rsid) => placed(row, rsid, lookup(records, rsid)),
        Err(e) => Err(e),
    }
}

/// Whether `out` is `row` with its first field, an identifier, replaced by
/// the text of a locus.
pub open spec fn is_row_with_locus(row: Seq<Seq<char>>, out: Seq<Seq<char>>) -> bool {
    &&& row_rsid(row) is Ok
    &&& out.len() == row.len()
    &&& other_fields(out) == other_fields(row)
    &&& exists|locus: Locus| #[trigger] locus.spec_format() == Some(out[0])
}

/// Whether the row `res` is the outcome `outcome`.
pub open spec fn is_row_outcome(
    res: Result<Vec<String>, MapError>,
    outcome: Result<Seq<Seq<char>>, MapError>,
) -> bool {
    match outcome {
        Ok(out) => res matches Ok(v) && v.deep_view() == out,
        Err(e) => res == Err::<Vec<String>, MapError>(e),
    }
}

/// Whether `res` is what mapping `row` can give, from any source: a row
/// that is malformed fails as such, and no other does; a row that comes out
/// is `row` with the text of a locus in its first field; an unresolved
/// identifier is that of `row`.
pub open spec fn is_row_result(row: Seq<Seq<char>>, res: Result<Vec<String>, MapError>) -> bool {
    &&& row_rsid(row) matches Err(e) ==> res == Err::<Vec<String>, MapError>(e)
    &&& res matches Err(MapError::MalformedRow(_)) ==> row_rsid(row) is Err
    &&& res matches Err(MapError::UnresolvedIdentifier(rsid)) ==> row_rsid(row) == Ok::<
        u32,
        MapError,
    >(rsid)
    &&& res matches Ok(out) ==> is_row_with_locus(row, out.deep_view())
}

/// Whether row `k` is the first that cannot be mapped.
pub open spec fn is_first_failure(records: Seq<MapRecord>, rows: Seq<Seq<Seq<char>>>, k: int)
    -> bool {
    &&& 0 <= k < rows.len()
    &&& mapped_row(records, rows[k]) is Err
    &&& forall|i: int| 0 <= i < k ==> (#[trigger] mapped_row(records, rows[i])) is Ok
}

/// What mapping `rows` against `records` gives: each row mapped, in the
/// order of `rows`, or the failure of the first row that cannot be mapped.
pub open spec fn map_outcome(records: Seq<MapRecord>, rows: Seq<Seq<Seq<char>>>) -> Result<
    Seq<Seq<Seq<char>>>,
    MapError,
> {
    if exists|k: int| is_first_failure(records, rows, k) {
        let k = choose|k: int| is_first_failure(records, rows, k);
        Err(mapped_row(records, rows[k])->Err_0)
    } else {
        Ok(Seq::new(rows.len(), |i: int| mapped_row(records, rows[i]).unwrap()))
    }
}

/// What mapping `rows` against the index in `content` gives: bytes that are
/// no index are a corrupt index.
pub open spec fn table_outcome(content: Seq<u8>, rows: Seq<Seq<Seq<char>>>) -> Result<
    Seq<Seq<Seq<char>>>,
    MapError,
> {
    if is_index_image(content) {
        map_outcome(image_records(content), rows)
    } else {
        Err(MapError::CorruptIndex(CorruptIndex::RecordCount))
    }
}

/// A row that is mapped comes out with the text of a locus in its first
/// field and its other fields as they are.
pub proof fn lemma_mapped_row_keeps_fields(records: Seq<MapRecord>, row: Seq<Seq<char>>)
    requires
        mapped_row(records, row) is Ok,
    ensures
        is_row_with_locus(row, mapped_row(records, row).unwrap()),
{
    let out = mapped_row(records, row).unwrap();
    let locus = lookup(records, row_rsid(row).unwrap()).unwrap();
    assert(locus.spec_format() == Some(out[0]));
    assert(other_fields(out) =~= other_fields(row));
}

/// The first row that cannot be mapped decides the outcome.
pub proof fn lemma_first_failure(records: Seq<MapRecord>, rows: Seq<Seq<Seq<char>>>, k: int)
    requires
        is_first_failure(records, rows, k),
    ensures
        map_outcome(records, rows) == Err::<Seq<Seq<Seq<char>>>, MapError>(
            mapped_row(records, rows[k])->Err_0,
        ),
{
    let c = choose|c: int| is_first_failure(records, rows, c);
    if c < k {
        assert(mapped_row(records, rows[c]) is Ok);
    } else if k < c {
        assert(mapped_row(records, rows[k]) is Ok);
    }
}

/// Mapping a table of which every row can be mapped keeps the rows: as
/// many come out as went in, in the same order, each with its fields after
/// the first unchanged.
pub proof fn lemma_map_keeps_rows(records: Seq<MapRecord>, rows: Seq<Seq<Seq<char>>>)
    requires
        forall|i: int| 0 <= i < rows.len() ==> (#[trigger] mapped_row(records, rows[i])) is Ok,
    ensures
        map_outcome(records, rows) matches Ok(out) && {
            &&& out.len() == rows.len()
            &&& forall|i: int|
                0 <= i < rows.len() ==> {
                    &&& mapped_row(records, rows[i]) == Ok::<Seq<Seq<char>>, MapError>(
                        #[trigger] out[i],
                    )
                    &&& is_row_with_locus(rows[i], out[i])
                }
        },
{
    assert forall|k: int| !is_first_failure(records, rows, k) by {
        if 0 <= k < rows.len() {
            assert(mapped_row(records, rows[k]) is Ok);
        }
    }
    let out = map_outcome(records, rows).unwrap();
    assert forall|i: int| 0 <= i < rows.len() implies is_row_with_locus(
        rows[i],
        #[trigger] out[i],
    ) by {
        assert(mapped_row(records, rows[i]) is Ok);
        lemma_mapped_row_keeps_fields(records, rows[i]);
    }
}

/// Mapping a table fails with the unresolved identifier of row `k`, if the
/// lookup does not find the identifier of that row and the rows before it
/// can be mapped.
pub proof fn lemma_map_unresolved(records: Seq<MapRecord>, rows: Seq<Seq<Seq<char>>>, k: int)
    requires
        0 <= k < rows.len(),
        row_rsid(rows[k]) is Ok,
        lookup(records, row_rsid(rows[k]).unwrap()) is None,
        forall|i: int| 0 <= i < k ==> (#[trigger] mapped_row(records, rows[i])) is Ok,
    ensures
        map_outcome(records, rows) == Err::<Seq<Seq<Seq<char>>>, MapError>(
            MapError::UnresolvedIdentifier(row_rsid(rows[k]).unwrap()),
        ),
{
    lemma_first_failure(records, rows, k);
}

/// Reads the identifier in the first field of a row.
pub fn row_identifier(row: &Vec<String>) -> (r: Result<u32, MapError>)
    ensures
        r == row_rsid(row.deep_view()),
{
    if row.len() == 0 {
        return Err(MapError::MalformedRow(FormatError::MissingField));
    }
    assert(row.deep_view()[0] == row@[0]@);
    match rsid_to_u32(row[0].as_str()) {
        Ok(rsid) => Ok(rsid),
        Err(e) => Err(MapError::MalformedRow(e)),
    }
}

/// Puts what the lookup of `rsid` has found in the place of the first field
/// of `row`.
pub fn place_locus(row: &Vec<String>, rsid: u32, found: Option<Locus>) -> (res: Result<
    Vec<String>,
    MapError,
>)
    ensures
        is_row_outcome(res, placed(row.deep_view(), rsid, found)),
{
    let locus = match found {
        Some(locus) => locus,
        None => {
            return Err(MapError::UnresolvedIdentifier(rsid));
        },
    };
    let text: String = match locus.format() {
        Ok(text) => text,
        Err(e) => {
            return Err(MapError::CorruptIndex(e));
        },
    };
    let ghost head = text@;
    let n: usize = row.len();
    let mut new_record: Vec<String> = Vec::new();
    new_record.push(text);
    let mut i: usize = 1;
    while i < n
        invariant
            1 <= i,
            i <= n || (n == 0 && i == 1),
            n == row@.len(),
            new_record@.len() == i,
            new_record@[0]@ == head,
            forall|j: int| 1 <= j < i ==> new_record@[j]@ == row@[j]@,
        decreases n - i,
    {
        new_record.push(row[i].clone());
        i += 1;
    }
    assert(new_record.deep_view() =~= seq![head] + other_fields(row.deep_view()));
    Ok(new_record)
}

/// Maps one row: looks the identifier in its first field up and puts the
/// locus in its place.
///
/// Against a source with a model the result is that of `mapped_row`. A
/// malformed row fails as such without a read, whatever the source.
pub fn map_record<R: ReadAt>(r: &Vec<String>, map_rdr: &mut MapReader<R>) -> (res: Result<
    Vec<String>,
    MapError,
>)
    requires
        old(map_rdr).wf(),
    ensures
        final(map_rdr).wf(),
        old(map_rdr).read_on(
            final(map_rdr),
            ceil_log2(old(map_rdr).cached_count() as nat) + 1,
        ),
        row_rsid(r.deep_view()) is Err ==> final(map_rdr).source() == old(map_rdr).source(),
        is_row_result(r.deep_view(), res),
        old(map_rdr).model() is Some ==> is_row_outcome(
            res,
            mapped_row(old(map_rdr).records(), r.deep_view()),
        ),
{
    let rsid: u32 = match row_identifier(r) {
        Ok(rsid) => rsid,
        Err(e) => {
            return Err(e);
        },
    };
    match map_rdr.find_record(rsid) {
        Ok(found) => {
            let res = place_locus(r, rsid, found);
            proof {
                if res is Ok {
                    let out = res->Ok_0.deep_view();
                    assert(found->Some_0.spec_format() == Some(out[0]));
                    assert(other_fields(out) =~= other_fields(r.deep_view()));
                }
            }
            res
        },
        Err(e) => Err(MapError::Io(e)),
    }
}

/// Whether the table `res` is the outcome `outcome`.
pub open spec fn is_table_outcome(
    res: Result<Vec<Vec<String>>, MapError>,
    outcome: Result<Seq<Seq<Seq<char>>>, MapError>,
) -> bool {
    match outcome {
        Ok(out) => res matches Ok(v) && v.deep_view() == out,
        Err(e) => res == Err::<Vec<Vec<String>>, MapError>(e),
    }
}

/// Whether `res` is what mapping `rows` can give, from any source: the
/// rows that come out are the rows that went in, each with the text of a
/// locus in its first field; a failure as malformed or unresolved is that of
/// one of the rows.
pub open spec fn is_table_result(
    rows: Seq<Seq<Seq<char>>>,
    res: Result<Vec<Vec<String>>, MapError>,
) -> bool {
    match res {
        Ok(out) => {
            &&& out@.len() == rows.len()
            &&& forall|i: int|
                0 <= i < rows.len() ==> is_row_with_locus(
                    rows[i],
                    (#[trigger] out@[i]).deep_view(),
                )
        },
        Err(MapError::MalformedRow(e)) => exists|k: int|
            0 <= k < rows.len() && #[trigger] row_rsid(rows[k]) == Err::<u32, MapError>(
                MapError::MalformedRow(e),
            ),
        Err(MapError::UnresolvedIdentifier(rsid)) => exists|k: int|
            0 <= k < rows.len() && #[trigger] row_rsid(rows[k]) == Ok::<u32, MapError>(rsid),
        Err(_) => true,
    }
}

/// Maps each of the rows, whatever becomes of the others: the result holds
/// one entry for each row, in the order of the rows.
pub fn map_to_loci<R: ReadAt>(src_records: &Vec<Vec<String>>, map_rdr: &mut MapReader<R>) -> (res:
    Vec<Result<Vec<String>, MapError>>)
    requires
        old(map_rdr).wf(),
    ensures
        final(map_rdr).wf(),
        old(map_rdr).read_on(
            final(map_rdr),
            src_records@.len() * (ceil_log2(old(map_rdr).cached_count() as nat) + 1),
        ),
        res@.len() == src_records@.len(),
        forall|i: int|
            0 <= i < res@.len() ==> {
                &&& is_row_result(src_records.deep_view()[i], #[trigger] res@[i])
                &&& old(map_rdr).model() is Some ==> is_row_outcome(
                    res@[i],
                    mapped_row(old(map_rdr).records(), src_records.deep_view()[i]),
                )
            },
{
    let ghost before = *map_rdr;
    let ghost table = src_records.deep_view();
    let ghost cost = ceil_log2(map_rdr.cached_count() as nat) + 1;
    let n: usize = src_records.len();
    let mut res: Vec<Result<Vec<String>, MapError>> = Vec::new();
    let mut i: usize = 0;
    while i < n
        invariant
            map_rdr.wf(),
            before == *old(map_rdr),
            before.read_on(map_rdr, (i * cost) as nat),
            cost == ceil_log2(before.cached_count() as nat) + 1,
            table == src_records.deep_view(),
            i <= n == src_records@.len(),
            res@.len() == i,
            forall|j: int|
                0 <= j < i ==> {
                    &&& is_row_result(table[j], #[trigger] res@[j])
                    &&& before.model() is Some ==> is_row_outcome(
                        res@[j],
                        mapped_row(before.records(), table[j]),
                    )
                },
        decreases n - i,
    {
        assert(table[i as int] == src_records@[i as int].deep_view());
        assert((i + 1) * cost == i * cost + cost) by (nonlinear_arith);
        let mapped = map_record(&src_records[i], map_rdr);
        res.push(mapped);
        i += 1;
    }
    res
}

/// Maps the rows of a table against the index that `map` holds, and stops
/// at the first row that cannot be mapped.
///
/// Against a source with a model the result is that of `table_outcome`.
pub fn map_tsv<R: ReadAt>(src_tsv: &Vec<Vec<String>>, map: R) -> (res: Result<
    Vec<Vec<String>>,
    MapError,
>)
    ensures
        is_table_result(src_tsv.deep_view(), res),
        map.model() matches Some(m) ==> is_table_outcome(
            res,
            table_outcome(m.content, src_tsv.deep_view()),
        ),
{
    let ghost table = src_tsv.deep_view();
    let mut map_rdr = match MapReader::new(map) {
        Ok(map_rdr) => map_rdr,
        Err(OpenError::CorruptIndex(e)) => {
            return Err(MapError::CorruptIndex(e));
        },
        Err(OpenError::Io(e)) => {
            return Err(MapError::Io(e));
        },
    };
    let ghost opened = map_rdr;
    let ghost records = if map.model() is Some {
        map_rdr.records()
    } else {
        Seq::empty()
    };
    let n: usize = src_tsv.len();
    let mut dst_tsv: Vec<Vec<String>> = Vec::new();
    let mut i: usize = 0;
    while i < n
        invariant
            map_rdr.wf(),
            opened.wf(),
            opened.read_on(
                &map_rdr,
                (i * (ceil_log2(opened.cached_count() as nat) + 1)) as nat,
            ),
            opened.model() is Some <==> map.model() is Some,
            map.model() matches Some(m) ==> is_index_image(m.content) && records == image_records(
                m.content,
            ) && opened.records() == records,
            table == src_tsv.deep_view(),
            i <= n == src_tsv@.len(),
            dst_tsv@.len() == i,
            forall|j: int|
                0 <= j < i ==> {
                    &&& is_row_with_locus(table[j], (#[trigger] dst_tsv@[j]).deep_view())
                    &&& map.model() is Some ==> mapped_row(records, table[j]) == Ok::<
                        Seq<Seq<char>>,
                        MapError,
                    >(dst_tsv@[j].deep_view())
                },
        decreases n - i,
    {
        assert(table[i as int] == src_tsv@[i as int].deep_view());
        let ghost cost = ceil_log2(opened.cached_count() as nat) + 1;
        assert((i + 1) * cost == i * cost + cost) by (nonlinear_arith);
        assert(map_rdr.model() is Some ==> map_rdr.records() == records);
        match map_record(&src_tsv[i], &mut map_rdr) {
            Ok(r) => {
                dst_tsv.push(r);
            },
            Err(e) => {
                proof {
                    if map.model() is Some {
                        assert forall|j: int| 0 <= j < i implies (#[trigger] mapped_row(
                            records,
                            table[j],
                        )) is Ok by {
                            assert(mapped_row(records, table[j]) == Ok::<
                                Seq<Seq<char>>,
                                MapError,
                            >(dst_tsv@[j].deep_view()));
                        }
                        lemma_first_failure(records, table, i as int);
                    }
                }
                return Err(e);
            },
        }
        i += 1;
    }
    proof {
        if map.model() is Some {
            assert forall|k: int| !is_first_failure(records, table, k) by {
                if 0 <= k < table.len() {
                    assert(mapped_row(records, table[k]) == Ok::<Seq<Seq<char>>, MapError>(
                        dst_tsv@[k].deep_view(),
                    ));
                }
            }
            assert(dst_tsv.deep_view() =~= map_outcome(records, table).unwrap()) by {
                assert forall|k: int| 0 <= k < table.len() implies dst_tsv.deep_view()[k]
                    == mapped_row(records, table[k]).unwrap() by {
                    assert(mapped_row(records, table[k]) == Ok::<Seq<Seq<char>>, MapError>(
                        dst_tsv@[k].deep_view(),
                    ));
                }
            }
        }
    }
    Ok(dst_tsv)
}

} // verus!
