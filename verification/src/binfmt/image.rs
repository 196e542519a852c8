//! The layout of an index: a header that counts the records, then the
//! records, back to back.

use crate::binfmt::endian::{be_bytes, be_value, lemma_be_value_of_u64};
use crate::binfmt::maprecord::{lemma_record_round_trip, MapRecord};
use vstd::prelude::*;

verus! {

/// The number of bytes that the record count takes at the start of an index.
pub const HEADER_SIZE: u64 = 8;

/// The record count that the header of `bytes` states.
pub open spec fn image_count(bytes: Seq<u8>) -> nat
    recommends
        bytes.len() >= HEADER_SIZE,
{
    be_value(bytes.subrange(0, HEADER_SIZE as int))
}

/// Whether `bytes` are a header followed by exactly as many records as the
/// header states.
pub open spec fn is_index_image(bytes: Seq<u8>) -> bool {
    &&& bytes.len() >= HEADER_SIZE
    &&& bytes.len() == HEADER_SIZE + 9 * image_count(bytes)
}

/// The offset at which record `i` of an index starts.
pub open spec fn record_offset(i: int) -> int {
    HEADER_SIZE + 9 * i
}

/// Record `i` of the index `bytes`.
pub open spec fn image_record(bytes: Seq<u8>, i: int) -> MapRecord
    recommends
        is_index_image(bytes),
        0 <= i < image_count(bytes),
{
    MapRecord::spec_from_bytes(bytes.subrange(record_offset(i), record_offset(i + 1)))
}

/// The records of the index `bytes`, in the order of the file.
pub open spec fn image_records(bytes: Seq<u8>) -> Seq<MapRecord>
    recommends
        is_index_image(bytes),
{
    Seq::new(image_count(bytes), |i: int| image_record(bytes, i))
}

/// The bytes of `records`, back to back.
pub open spec fn records_bytes(records: Seq<MapRecord>) -> Seq<u8>
    decreases records.len(),
{
    if records.len() == 0 {
        Seq::empty()
    } else {
        records_bytes(records.drop_last()) + records.last().spec_to_bytes()
    }
}

/// The index that holds `records`: their number in eight bytes, most
/// significant first, then their bytes.
pub open spec fn index_image(records: Seq<MapRecord>) -> Seq<u8> {
    be_bytes(records.len(), HEADER_SIZE as nat) + records_bytes(records)
}

/// Each record takes nine bytes, at nine times its index.
pub proof fn lemma_records_bytes(records: Seq<MapRecord>)
    ensures
        records_bytes(records).len() == 9 * records.len(),
        forall|i: int|
            0 <= i < records.len() ==> records_bytes(records).subrange(
                9 * i,
                9 * i + 9,
            ) == (#[trigger] records[i]).spec_to_bytes(),
    decreases records.len(),
{
    if records.len() > 0 {
        let head = records.drop_last();
        let last = records.last();
        lemma_records_bytes(head);
        lemma_record_round_trip(last);
        let all = records_bytes(records);
        assert forall|i: int| 0 <= i < records.len() implies all.subrange(
            9 * i,
            9 * i + 9,
        ) == (#[trigger] records[i]).spec_to_bytes() by {
            if i < head.len() {
                assert(records[i] == head[i]);
                assert(all.subrange(9 * i, 9 * i + 9)
                    =~= records_bytes(head).subrange(
                    9 * i,
                    9 * i + 9,
                ));
            } else {
                assert(all.subrange(9 * i, 9 * i + 9)
                    =~= last.spec_to_bytes());
            }
        }
    }
}

/// Reading the index written for `records` gives `records` back: the image
/// is well formed, and its records are the ones written, in their order.
pub proof fn lemma_index_image(records: Seq<MapRecord>)
    requires
        records.len() <= u64::MAX,
    ensures
        index_image(records).len() == 8 + 9 * records.len(),
        image_count(index_image(records)) == records.len(),
        is_index_image(index_image(records)),
        image_records(index_image(records)) == records,
{
    let image = index_image(records);
    let header = be_bytes(records.len(), HEADER_SIZE as nat);
    let body = records_bytes(records);
    lemma_be_value_of_u64(records.len() as u64);
    lemma_records_bytes(records);
    assert(image.subrange(0, HEADER_SIZE as int) =~= header);
    assert forall|i: int| 0 <= i < records.len() implies image_record(image, i) == records[i] by {
        assert(image.subrange(record_offset(i), record_offset(i + 1)) =~= body.subrange(
            9 * i,
            9 * i + 9,
        ));
        lemma_record_round_trip(records[i]);
    }
    assert(image_records(image) =~= records);
}

} // verus!
