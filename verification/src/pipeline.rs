//! One destination's read → merge → encode step of a drain cycle, composed
//! from the snapshot codec and the merge-sort compactor. The surrounding
//! process does the file and log-store I/O; everything between the bytes read
//! and the bytes to be written happens here.

use vstd::prelude::*;
use crate::codec::{
    decode_snapshot, encode_snapshot, snapshot_of, spec_encode, valid_snapshot_bytes,
};
use crate::merge::{kept_padded, merge_new_records, merge_width, table_of};
use crate::rows::{
    rows_uniform_width, rows_wf, snap_wf, MergeError, Record, Row, RowV, Snapshot, SnapshotV,
};

verus! {

/// Whether the destination's current file, if any, decodes as a snapshot.
pub open spec fn prior_ok(existing: Option<Vec<u8>>) -> bool {
    match existing {
        Some(b) => valid_snapshot_bytes(b@),
        None => true,
    }
}

/// The rows the destination starts the cycle with: none without a file, the
/// decoded rows otherwise.
pub open spec fn prior_rows(existing: Option<Vec<u8>>) -> Seq<RowV> {
    match existing {
        Some(b) => snapshot_of(b@).rows,
        None => Seq::empty(),
    }
}

/// A fresh copy of the bytes.
fn copy_bytes(bytes: &Vec<u8>) -> (r: Vec<u8>)
    ensures
        r@ == bytes@,
{
    let mut out: Vec<u8> = Vec::new();
    let len = bytes.len();
    let mut k: usize = 0;
    while k < len
        invariant
            k <= len,
            len == bytes@.len(),
            out@ == bytes@.take(k as int),
        decreases len - k,
    {
        out.push(bytes[k]);
        proof {
            assert(out@ =~= bytes@.take(k as int + 1));
        }
        k += 1;
    }
    proof {
        assert(bytes@.take(len as int) =~= bytes@);
    }
    out
}

/// Merges a non-empty batch into the existing rows and encodes the result.
fn merge_and_encode(existing: Vec<Row>, new_records: Vec<Record>) -> (r: Result<
    Vec<u8>,
    MergeError,
>)
    requires
        rows_wf(existing.deep_view()),
        new_records.deep_view().len() > 0,
    ensures
        ({
            let ex = existing.deep_view();
            let inc = new_records.deep_view();
            let w = merge_width(ex, inc);
            match r {
                Ok(out) => {
                    &&& w >= 1
                    &&& valid_snapshot_bytes(out@)
                    &&& rows_wf(snapshot_of(out@).rows)
                    &&& table_of(snapshot_of(out@).rows) == table_of(ex + kept_padded(inc, w))
                },
                Err(e) => {
                    &&& w == 0
                    &&& e == MergeError::SchemaWidthMismatch
                },
            }
        }),
{
    let merged = match merge_new_records(existing, new_records) {
        Ok(rows) => rows,
        Err(e) => {
            return Err(e);
        },
    };
    let width: u64 = if merged.len() > 0 {
        proof {
            assert(merged.deep_view()[0] == merged@[0].deep_view());
        }
        merged[0].values.len() as u64
    } else {
        0
    };
    let snap = Snapshot { width, rows: merged };
    proof {
        assert(snap_wf(snap.deep_view()));
    }
    let out = encode_snapshot(&snap);
    Ok(out)
}

/// Compacts one destination for this cycle.
///
/// `existing` holds the destination's current snapshot file (`None` on first
/// write); `new_records` are the drained records routed to it. The result is
/// the bytes to replace the file with:
/// - a file that does not decode is reported as `SnapshotCorrupt` and left
///   alone — corruption is never treated as an empty history;
/// - with no new records the file comes back unchanged byte for byte (and a
///   still-missing file becomes an encoded empty snapshot);
/// - otherwise the records are merged (padding, rejection and last write wins
///   as the compactor fixes them) and the new sorted snapshot is encoded;
/// - a destination whose width would be zero is `SchemaWidthMismatch`.
pub fn compact_destination(existing: &Option<Vec<u8>>, new_records: Vec<Record>) -> (r: Result<
    Vec<u8>,
    MergeError,
>)
    ensures
        ({
            let inc = new_records.deep_view();
            let ex = prior_rows(*existing);
            let w = merge_width(ex, inc);
            match r {
                Ok(out) => {
                    &&& prior_ok(*existing)
                    &&& !(inc.len() > 0 && w == 0)
                    &&& (inc.len() == 0 ==> (match *existing {
                        Some(b) => out@ == b@,
                        None => out@ == spec_encode(
                            SnapshotV { width: 0, rows: Seq::<RowV>::empty() },
                        ),
                    }))
                    &&& (inc.len() > 0 ==> {
                        &&& valid_snapshot_bytes(out@)
                        &&& rows_wf(snapshot_of(out@).rows)
                        &&& table_of(snapshot_of(out@).rows) == table_of(ex + kept_padded(inc, w))
                    })
                },
                Err(e) => {
                    &&& (e == MergeError::SnapshotCorrupt <==> !prior_ok(*existing))
                    &&& (e != MergeError::SnapshotCorrupt ==> {
                        &&& e == MergeError::SchemaWidthMismatch
                        &&& inc.len() > 0
                        &&& w == 0
                    })
                },
            }
        }),
{
    match existing {
        Some(bytes) => {
            let decoded = match decode_snapshot(bytes) {
                Ok(snap) => snap,
                Err(_) => {
                    return Err(MergeError::SnapshotCorrupt);
                },
            };
            if new_records.len() == 0 {
                return Ok(copy_bytes(bytes));
            }
            merge_and_encode(decoded.rows, new_records)
        },
        None => {
            if new_records.len() == 0 {
                let empty = Snapshot { width: 0, rows: Vec::new() };
                proof {
                    assert(empty.deep_view().rows =~= Seq::<RowV>::empty());
                    assert(empty.deep_view() =~= SnapshotV { width: 0, rows: Seq::<RowV>::empty() });
                }
                return Ok(encode_snapshot(&empty));
            }
            let prior: Vec<Row> = Vec::new();
            proof {
                assert(prior.deep_view() =~= Seq::<RowV>::empty());
            }
            merge_and_encode(prior, new_records)
        },
    }
}

} // verus!
