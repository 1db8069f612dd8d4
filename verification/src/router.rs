//! The series router: buckets decoded records by destination, keeping drain
//! order inside each bucket. No order is promised across buckets.

use vstd::prelude::*;
use itertools::Itertools;
use crate::rows::{Record, RecordV};

verus! {

/// The records of `records` bound for destination `dest`, in drain order.
pub open spec fn bucket_of(records: Seq<RecordV>, dest: Seq<char>) -> Seq<RecordV> {
    records.filter(|r: RecordV| r.destination == dest)
}

/// Every record's destination has a bucket in `r`.
pub open spec fn covers(r: Seq<(String, Vec<Record>)>, records: Seq<RecordV>) -> bool {
    forall|k: int|
        0 <= k < records.len() ==> exists|b: int|
            0 <= b < r.len() && (#[trigger] records[k]).destination == r[b].0@
}

/// Relies on itertools' `Itertools::into_group_map_by`: every record lands in
/// the bucket of the key the closure picks — here its destination — and each
/// bucket keeps its records in the order they came in. The buckets come back
/// in no particular order (a hash map is walked), one per distinct
/// destination.
#[verifier::external_body]
fn group_by_destination(records: Vec<Record>) -> (r: Vec<(String, Vec<Record>)>)
    ensures
        forall|b: int|
            0 <= b < r@.len() ==> (#[trigger] r@[b]).1.deep_view() == bucket_of(
                records.deep_view(),
                r@[b].0@,
            ),
        forall|b1: int, b2: int| 0 <= b1 < b2 < r@.len() ==> r@[b1].0@ != r@[b2].0@,
        covers(r@, records.deep_view()),
{
    records.into_iter().into_group_map_by(|rec: &Record| rec.destination.clone()).into_iter().collect()
}

/// Buckets the drained records by destination. Each bucket carries one
/// distinct destination and exactly the records bound for it, in drain order;
/// every record lands in some bucket.
pub fn route_records(records: Vec<Record>) -> (r: Vec<(String, Vec<Record>)>)
    ensures
        forall|b: int|
            0 <= b < r@.len() ==> (#[trigger] r@[b]).1.deep_view() == bucket_of(
                records.deep_view(),
                r@[b].0@,
            ),
        forall|b1: int, b2: int| 0 <= b1 < b2 < r@.len() ==> r@[b1].0@ != r@[b2].0@,
        covers(r@, records.deep_view()),
{
    group_by_destination(records)
}

} // verus!
