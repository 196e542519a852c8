//! Binary search over the records of an index, with a bounded number of
//! steps.

use crate::binfmt::image::{image_records, index_image, is_index_image, lemma_index_image};
use crate::binfmt::maprecord::{Locus, MapRecord};
use crate::binfmt::order::is_strictly_sorted;
use vstd::arithmetic::power2::{lemma_pow2_unfold, pow2};
use vstd::prelude::*;

verus! {

/// The least `k` for which two to the power `k` is at least `n`; zero for
/// `n` zero.
pub open spec fn ceil_log2(n: nat) -> nat
    decreases n,
{
    if n <= 1 {
        0
    } else {
        1 + ceil_log2((n + 1) / 2)
    }
}

/// The index at which a binary search for `key` among the records from
/// `start` to `end`, both included, stops within `steps` steps. Each step
/// looks at the record in the middle of the range, and goes on below or above
/// it.
pub open spec fn search(records: Seq<MapRecord>, key: u32, start: int, end: int, steps: nat)
    -> Option<int>
    decreases steps,
{
    if steps == 0 || end < start {
        None
    } else {
        let middle = (start + end) / 2;
        let stored = records[middle].rsid;
        if stored == key {
            Some(middle)
        } else if stored < key {
            search(records, key, middle + 1, end, (steps - 1) as nat)
        } else {
            search(records, key, start, middle - 1, (steps - 1) as nat)
        }
    }
}

/// What a lookup of `key` in `records` finds: the locus of the record at
/// which a binary search over all of them stops within `ceil_log2` of their
/// number of steps.
pub open spec fn lookup(records: Seq<MapRecord>, key: u32) -> Option<Locus> {
    match search(records, key, 0, records.len() - 1, ceil_log2(records.len())) {
        Some(i) => Some(records[i].spec_locus()),
        None => None,
    }
}

/// The number of steps after which a binary search over the range from
/// `start` to `end` looks at index `i` of the range.
pub open spec fn steps_to(start: int, end: int, i: int) -> nat
    recommends
        start <= i <= end,
    decreases end - start,
{
    let middle = (start + end) / 2;
    if i < start || end < i || i == middle {
        1
    } else if i > middle {
        1 + steps_to(middle + 1, end, i)
    } else {
        1 + steps_to(start, middle - 1, i)
    }
}

/// `ceil_log2(n)` is the least exponent whose power of two reaches `n`.
pub proof fn lemma_ceil_log2(n: nat)
    requires
        n >= 1,
    ensures
        n <= pow2(ceil_log2(n)),
        ceil_log2(n) > 0 ==> pow2((ceil_log2(n) - 1) as nat) < n,
    decreases n,
{
    if n == 1 {
        assert(pow2(0) == 1) by {
            vstd::arithmetic::power2::lemma2_to64();
        }
    } else {
        let half = (n + 1) / 2;
        lemma_ceil_log2(half);
        lemma_pow2_unfold(ceil_log2(n));
        if ceil_log2(half) > 0 {
            lemma_pow2_unfold(ceil_log2(half));
        } else {
            assert(pow2(0) == 1) by {
                vstd::arithmetic::power2::lemma2_to64();
            }
        }
    }
}

/// A search stops only at a record that holds the key, within the range.
pub proof fn lemma_search_sound(
    records: Seq<MapRecord>,
    key: u32,
    start: int,
    end: int,
    steps: nat,
)
    requires
        0 <= start,
        end < records.len(),
    ensures
        search(records, key, start, end, steps) matches Some(i) ==> start <= i <= end
            && records[i].rsid == key,
    decreases steps,
{
    if steps > 0 && start <= end {
        let middle = (start + end) / 2;
        lemma_search_sound(records, key, middle + 1, end, (steps - 1) as nat);
        lemma_search_sound(records, key, start, middle - 1, (steps - 1) as nat);
    }
}

/// Among records with increasing identifiers, a search for the identifier
/// of record `i` stops at `i` if it is given the steps that lead to `i`, and
/// finds nothing if it is given fewer.
pub proof fn lemma_search_present(
    records: Seq<MapRecord>,
    start: int,
    end: int,
    steps: nat,
    i: int,
)
    requires
        is_strictly_sorted(records),
        0 <= start <= i <= end < records.len(),
    ensures
        search(records, records[i].rsid, start, end, steps) == if steps_to(start, end, i)
            <= steps {
            Some(i)
        } else {
            None
        },
    decreases steps,
{
    if steps > 0 {
        let middle = (start + end) / 2;
        if i < middle {
            assert(records[i].rsid < records[middle].rsid);
            lemma_search_present(records, start, middle - 1, (steps - 1) as nat, i);
        } else if i > middle {
            assert(records[middle].rsid < records[i].rsid);
            lemma_search_present(records, middle + 1, end, (steps - 1) as nat, i);
        }
    }
}

/// In a range of fewer than two to the power `k` records, every index is
/// looked at within `k` steps.
pub proof fn lemma_steps_to_bound(start: int, end: int, i: int, k: nat)
    requires
        start <= i <= end,
        end - start + 1 < pow2(k),
    ensures
        1 <= steps_to(start, end, i) <= k,
    decreases end - start,
{
    assert(pow2(0) == 1) by {
        vstd::arithmetic::power2::lemma2_to64();
    }
    let middle = (start + end) / 2;
    if start < end && i != middle {
        lemma_pow2_unfold(k);
        if i > middle {
            lemma_steps_to_bound(middle + 1, end, i, (k - 1) as nat);
        } else {
            lemma_steps_to_bound(start, middle - 1, i, (k - 1) as nat);
        }
    }
}

/// A lookup finds nothing but the locus of a record that holds the key.
pub proof fn lemma_lookup_sound(records: Seq<MapRecord>, key: u32)
    ensures
        lookup(records, key) matches Some(locus) ==> exists|i: int|
            0 <= i < records.len() && (#[trigger] records[i]).rsid == key && records[i].spec_locus()
                == locus,
{
    lemma_search_sound(records, key, 0, records.len() - 1, ceil_log2(records.len()));
}

/// A lookup of an identifier that no record holds finds nothing.
pub proof fn lemma_lookup_absent(records: Seq<MapRecord>, key: u32)
    requires
        forall|i: int| 0 <= i < records.len() ==> (#[trigger] records[i]).rsid != key,
    ensures
        lookup(records, key) is None,
{
    lemma_search_sound(records, key, 0, records.len() - 1, ceil_log2(records.len()));
}

/// Among records with increasing identifiers, a lookup of the identifier of
/// record `i` finds its locus exactly if the search reaches `i` within its
/// bound of steps, and nothing otherwise.
pub proof fn lemma_lookup_present(records: Seq<MapRecord>, i: int)
    requires
        is_strictly_sorted(records),
        0 <= i < records.len(),
    ensures
        lookup(records, records[i].rsid) == if steps_to(0, records.len() - 1, i) <= ceil_log2(
            records.len(),
        ) {
            Some(records[i].spec_locus())
        } else {
            None
        },
{
    lemma_search_present(records, 0, records.len() - 1, ceil_log2(records.len()), i);
}

/// Among records with increasing identifiers whose number is not a power of
/// two, a lookup of the identifier of any record finds the locus of that
/// record.
pub proof fn lemma_lookup_finds(records: Seq<MapRecord>, i: int)
    requires
        is_strictly_sorted(records),
        0 <= i < records.len(),
        records.len() != pow2(ceil_log2(records.len())),
    ensures
        lookup(records, records[i].rsid) == Some(records[i].spec_locus()),
{
    lemma_ceil_log2(records.len());
    lemma_steps_to_bound(0, records.len() - 1, i, ceil_log2(records.len()));
    lemma_lookup_present(records, i);
}

/// Where the number of records is a power of two, the search does not reach
/// the last record: a lookup of its identifier finds nothing.
pub proof fn lemma_lookup_misses_last(records: Seq<MapRecord>)
    requires
        is_strictly_sorted(records),
        records.len() >= 1,
        records.len() == pow2(ceil_log2(records.len())),
    ensures
        lookup(records, records.last().rsid) is None,
{
    let n = records.len() as int;
    lemma_steps_to_last(0, n - 1, ceil_log2(records.len()));
    lemma_lookup_present(records, n - 1);
}

/// In a range of two to the power `k` records, the last index is looked at
/// after `k + 1` steps.
pub proof fn lemma_steps_to_last(start: int, end: int, k: nat)
    requires
        start <= end,
        end - start + 1 == pow2(k),
    ensures
        steps_to(start, end, end) == k + 1,
    decreases k,
{
    assert(pow2(0) == 1) by {
        vstd::arithmetic::power2::lemma2_to64();
    }
    if k > 0 {
        lemma_pow2_unfold(k);
        vstd::arithmetic::power2::lemma_pow2_pos((k - 1) as nat);
        let middle = (start + end) / 2;
        lemma_steps_to_last(middle + 1, end, (k - 1) as nat);
    }
}

/// Reading the index written for records with increasing identifiers and
/// looking `key` up in it finds nothing if no record holds `key`, and
/// otherwise the locus of the record that holds it, if the search reaches
/// that record within its bound of steps.
pub proof fn lemma_lookup_in_index(records: Seq<MapRecord>, key: u32)
    requires
        is_strictly_sorted(records),
        records.len() <= u64::MAX,
    ensures
        is_index_image(index_image(records)),
        image_records(index_image(records)) == records,
        (forall|i: int| 0 <= i < records.len() ==> (#[trigger] records[i]).rsid != key)
            ==> lookup(image_records(index_image(records)), key) is None,
        forall|i: int|
            0 <= i < records.len() && (#[trigger] records[i]).rsid == key ==> lookup(
                image_records(index_image(records)),
                key,
            ) == if steps_to(0, records.len() - 1, i) <= ceil_log2(records.len()) {
                Some(records[i].spec_locus())
            } else {
                None
            },
{
    lemma_index_image(records);
    if forall|i: int| 0 <= i < records.len() ==> (#[trigger] records[i]).rsid != key {
        lemma_lookup_absent(records, key);
    }
    assert forall|i: int| 0 <= i < records.len() && (#[trigger] records[i]).rsid == key implies lookup(
        records,
        key,
    ) == if steps_to(0, records.len() - 1, i) <= ceil_log2(records.len()) {
        Some(records[i].spec_locus())
    } else {
        None
    } by {
        lemma_lookup_present(records, i);
    }
}

/// What one look at the record in the middle of a range decides.
#[derive(Clone, Copy, Debug, PartialEq, Eq, Structural)]
pub enum Step {
    /// The record in the middle holds the key.
    Found,
    /// The key can only be in this smaller range, which is not empty.
    Narrow { start: u64, end: u64 },
    /// The key is not in the range.
    Absent,
}

/// The step that follows from finding the identifier `stored` in the middle
/// of the range from `start` to `end` while looking for `key`.
pub open spec fn next_step(start: u64, end: u64, stored: u32, key: u32) -> Step
    recommends
        start <= end,
{
    let middle = (start + end) / 2;
    if stored == key {
        Step::Found
    } else if stored < key {
        if middle == end {
            Step::Absent
        } else {
            Step::Narrow { start: (middle + 1) as u64, end }
        }
    } else {
        if middle == start {
            Step::Absent
        } else {
            Step::Narrow { start, end: (middle - 1) as u64 }
        }
    }
}

/// One step of a search is the step that the record in the middle decides,
/// and the rest of the search goes on in the range of that step.
pub proof fn lemma_search_step(records: Seq<MapRecord>, key: u32, start: u64, end: u64, steps: nat)
    requires
        start <= end,
        steps > 0,
    ensures
        search(records, key, start as int, end as int, steps) == match next_step(
            start,
            end,
            records[(start + end) / 2].rsid,
            key,
        ) {
            Step::Found => Some((start + end) / 2),
            Step::Narrow { start: s, end: e } => search(
                records,
                key,
                s as int,
                e as int,
                (steps - 1) as nat,
            ),
            Step::Absent => None,
        },
{
    let middle = (start + end) / 2;
    assert(search(records, key, middle + 1, middle, (steps - 1) as nat) is None);
    assert(search(records, key, middle, middle - 1, (steps - 1) as nat) is None);
}

/// The index in the middle of the range from `start` to `end`.
pub fn midpoint(start: u64, end: u64) -> (middle: u64)
    requires
        start <= end,
    ensures
        middle == (start + end) / 2,
        start <= middle <= end,
{
    start + (end - start) / 2
}

/// Decides how a search for `key` in the range from `start` to `end` goes
/// on, once the identifier `stored` has been read from the record in the
/// middle of the range.
pub fn narrow(start: u64, end: u64, stored: u32, key: u32) -> (step: Step)
    requires
        start <= end,
    ensures
        step == next_step(start, end, stored, key),
        step matches Step::Narrow { start: s, end: e } ==> start <= s <= e <= end && e - s < end
            - start,
{
    let middle: u64 = midpoint(start, end);
    if stored == key {
        Step::Found
    } else if stored < key {
        if middle == end {
            Step::Absent
        } else {
            Step::Narrow { start: middle + 1, end }
        }
    } else {
        if middle == start {
            Step::Absent
        } else {
            Step::Narrow { start, end: middle - 1 }
        }
    }
}

/// The number of steps that a search over `count` records may take.
pub fn search_bound(count: u64) -> (bound: u64)
    ensures
        bound == ceil_log2(count as nat),
        bound <= 64,
{
    if count == 0 {
        return 0;
    }
    let mut rest: u64 = count - 1;
    let mut bound: u64 = 0;
    proof {
        vstd::arithmetic::power2::lemma2_to64();
    }
    while rest > 0
        invariant
            bound + ceil_log2((rest + 1) as nat) == ceil_log2(count as nat),
            bound <= 64,
            rest <= u64::MAX,
            bound < 64 ==> rest < pow2((64 - bound) as nat),
            bound == 64 ==> rest == 0,
        decreases rest,
    {
        proof {
            lemma_pow2_unfold((64 - bound) as nat);
            assert(pow2(0) == 1) by {
                vstd::arithmetic::power2::lemma2_to64();
            }
        }
        rest = rest / 2;
        bound = bound + 1;
    }
    bound
}

} // verus!
