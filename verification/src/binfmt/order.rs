//! The order of the records of an index: by identifier, never decreasing.

use crate::binfmt::maprecord::MapRecord;
use vstd::prelude::*;

verus! {

/// Whether the identifiers of `records` never decrease.
pub open spec fn is_sorted(records: Seq<MapRecord>) -> bool {
    forall|i: int, j: int|
        0 <= i < j < records.len() ==> (#[trigger] records[i]).rsid <= (#[trigger] records[j]).rsid
}

/// Whether the identifiers of `records` increase from each record to the
/// next: they are sorted, and no identifier occurs twice.
pub open spec fn is_strictly_sorted(records: Seq<MapRecord>) -> bool {
    forall|i: int, j: int|
        0 <= i < j < records.len() ==> (#[trigger] records[i]).rsid < (#[trigger] records[j]).rsid
}

/// The identifier of the last of `records`; zero where there is none.
pub open spec fn last_rsid(records: Seq<MapRecord>) -> u32 {
    if records.len() == 0 {
        0
    } else {
        records.last().rsid
    }
}

/// Whether record `k` is the first whose identifier is smaller than that of
/// the record before it.
pub open spec fn is_first_descent(records: Seq<MapRecord>, k: int) -> bool {
    &&& 0 < k < records.len()
    &&& records[k].rsid < records[k - 1].rsid
    &&& is_sorted(records.take(k))
}

/// The index of the first record whose identifier is smaller than that of
/// the record before it, if there is one.
pub open spec fn first_descent(records: Seq<MapRecord>) -> Option<int> {
    if exists|k: int| is_first_descent(records, k) {
        Some(choose|k: int| is_first_descent(records, k))
    } else {
        None
    }
}

/// There is at most one first descent.
pub proof fn lemma_first_descent_unique(records: Seq<MapRecord>, k: int)
    requires
        is_first_descent(records, k),
    ensures
        first_descent(records) == Some(k),
{
    let c = choose|c: int| is_first_descent(records, c);
    if c < k {
        assert(records.take(k)[c - 1] == records[c - 1]);
        assert(records.take(k)[c] == records[c]);
    } else if k < c {
        assert(records.take(c)[k - 1] == records[k - 1]);
        assert(records.take(c)[k] == records[k]);
    }
}

/// Records in which each identifier is at least the one before it are
/// sorted.
pub proof fn lemma_sorted_by_neighbours(records: Seq<MapRecord>)
    requires
        forall|k: int| 0 < k < records.len() ==> records[k - 1].rsid <= (#[trigger] records[k]).rsid,
    ensures
        is_sorted(records),
    decreases records.len(),
{
    if records.len() > 0 {
        let head = records.drop_last();
        assert forall|k: int| 0 < k < head.len() implies head[k - 1].rsid <= (#[trigger] head[k]).rsid by {
            assert(records[k].rsid >= records[k - 1].rsid);
        }
        lemma_sorted_by_neighbours(head);
        let n = records.len() as int;
        assert forall|i: int, j: int| 0 <= i < j < n implies (#[trigger] records[i]).rsid <= (
        #[trigger] records[j]).rsid by {
            if j < n - 1 {
                assert(head[i].rsid <= head[j].rsid);
            } else if i < n - 1 {
                assert(records[n - 1].rsid >= records[n - 2].rsid);
                if i < n - 2 {
                    assert(head[i].rsid <= head[n - 2].rsid);
                }
            }
        }
    }
}

/// Records are sorted exactly if none of them is a first descent.
pub proof fn lemma_sorted_iff_no_descent(records: Seq<MapRecord>)
    ensures
        is_sorted(records) <==> first_descent(records) is None,
    decreases records.len(),
{
    if is_sorted(records) {
        assert forall|k: int| !is_first_descent(records, k) by {
            if 0 < k < records.len() {
                assert(records[k - 1].rsid <= records[k].rsid);
            }
        }
    } else if records.len() > 0 {
        let head = records.drop_last();
        let n = records.len() as int;
        lemma_sorted_iff_no_descent(head);
        if is_sorted(head) {
            if n >= 2 && records[n - 1].rsid < records[n - 2].rsid {
                assert(records.take(n - 1) =~= head);
                assert(is_first_descent(records, n - 1));
            } else {
                assert forall|k: int| 0 < k < n implies records[k - 1].rsid <= (
                #[trigger] records[k]).rsid by {
                    if k < n - 1 {
                        assert(head[k - 1].rsid <= head[k].rsid);
                    }
                }
                lemma_sorted_by_neighbours(records);
            }
        } else {
            let k = first_descent(head).unwrap();
            assert(is_first_descent(head, k));
            assert(head.take(k) =~= records.take(k));
            assert(is_first_descent(records, k));
        }
    }
}

/// Sorted records stay sorted when a record follows whose identifier is at
/// least that of the last.
pub proof fn lemma_sorted_push(records: Seq<MapRecord>, record: MapRecord)
    requires
        is_sorted(records),
        last_rsid(records) <= record.rsid,
    ensures
        is_sorted(records.push(record)),
        last_rsid(records.push(record)) == record.rsid,
{
    let all = records.push(record);
    assert forall|i: int, j: int| 0 <= i < j < all.len() implies (#[trigger] all[i]).rsid <= (
    #[trigger] all[j]).rsid by {
        if j < records.len() {
            assert(records[i].rsid <= records[j].rsid);
        } else if i < records.len() - 1 {
            assert(records[i].rsid <= records[records.len() - 1].rsid);
        }
    }
}

} // verus!
