//! Data model of the compaction engine: decoded records, snapshot rows, and
//! the errors a drain cycle can surface.

use vstd::prelude::*;

verus! {

/// A decoded measurement bound for one destination series.
///
/// `time` is a timestamp in milliseconds since the Unix epoch. `values` holds
/// the IEEE 754 bit patterns of the finite numeric fields parsed from the
/// payload, in payload order; the caller parses each field and hands the bits
/// over, so the engine itself never works on floating-point values.
#[derive(Clone, Debug, PartialEq)]
pub struct Record {
    pub destination: String,
    pub time: i64,
    pub values: Vec<u64>,
}

/// Ghost image of a [`Record`].
#[verifier::ext_equal]
pub struct RecordV {
    pub destination: Seq<char>,
    pub time: i64,
    pub values: Seq<u64>,
}

impl DeepView for Record {
    type V = RecordV;

    open spec fn deep_view(&self) -> RecordV {
        RecordV { destination: self.destination@, time: self.time, values: self.values@ }
    }
}

/// One row of a snapshot: a timestamp and exactly one cell per column of the
/// destination. A cell is `None` where the row was padded up to the
/// destination's width, and otherwise carries the bit pattern of its value.
#[derive(Clone, Debug, PartialEq)]
pub struct Row {
    pub time: i64,
    pub values: Vec<Option<u64>>,
}

/// Ghost image of a [`Row`].
#[verifier::ext_equal]
pub struct RowV {
    pub time: i64,
    pub values: Seq<Option<u64>>,
}

impl DeepView for Row {
    type V = RowV;

    open spec fn deep_view(&self) -> RowV {
        RowV { time: self.time, values: self.values@ }
    }
}

/// A destination's full history: its fixed column count and its rows, kept
/// strictly sorted by time.
#[derive(Clone, Debug, PartialEq)]
pub struct Snapshot {
    pub width: u64,
    pub rows: Vec<Row>,
}

/// Ghost image of a [`Snapshot`].
#[verifier::ext_equal]
pub struct SnapshotV {
    pub width: u64,
    pub rows: Seq<RowV>,
}

impl DeepView for Snapshot {
    type V = SnapshotV;

    open spec fn deep_view(&self) -> SnapshotV {
        SnapshotV { width: self.width, rows: self.rows.deep_view() }
    }
}

/// The failure classes of a drain cycle, as the engine reports them.
///
/// `WriteFailure` and `LogStoreUnavailable` arise at the I/O boundary around
/// the engine; they are defined here so every stage speaks one error type.
#[derive(Clone, Copy, Debug, PartialEq, Eq, Structural)]
pub enum MergeError {
    /// A payload field did not parse as a finite number; the entry is skipped.
    MalformedPayload,
    /// A row's width cannot be reconciled with the destination's fixed width.
    SchemaWidthMismatch,
    /// An existing snapshot could not be read back as a snapshot.
    SnapshotCorrupt,
    /// The new snapshot could not be materialized; the old file is kept.
    WriteFailure,
    /// The pending-entry source could not be reached this cycle.
    LogStoreUnavailable,
}

/// Rows are strictly ascending by time; equal timestamps cannot coexist.
pub open spec fn rows_strictly_sorted(rows: Seq<RowV>) -> bool {
    forall|i: int, j: int| 0 <= i < j < rows.len() ==> rows[i].time < rows[j].time
}

/// Every row has exactly `w` cells.
pub open spec fn rows_uniform_width(rows: Seq<RowV>, w: int) -> bool {
    forall|i: int| 0 <= i < rows.len() ==> (#[trigger] rows[i]).values.len() == w
}

/// A well-formed row set: strictly sorted, and of one positive width fixed by
/// its first row.
pub open spec fn rows_wf(rows: Seq<RowV>) -> bool {
    &&& rows_strictly_sorted(rows)
    &&& rows.len() > 0 ==> {
        &&& rows[0].values.len() >= 1
        &&& rows_uniform_width(rows, rows[0].values.len() as int)
    }
}

/// A well-formed snapshot: a well-formed row set whose recorded width matches
/// its rows (the width is free only while there are no rows yet).
pub open spec fn snap_wf(s: SnapshotV) -> bool {
    &&& rows_wf(s.rows)
    &&& s.rows.len() > 0 ==> s.width as int == s.rows[0].values.len()
}

/// No two rows carry the same timestamp.
pub open spec fn distinct_times(rows: Seq<RowV>) -> bool {
    forall|i: int, j: int|
        0 <= i < rows.len() && 0 <= j < rows.len() && i != j ==> rows[i].time != rows[j].time
}

/// Chains one adjacent step of sortedness across a whole interval.
proof fn lemma_time_chain(rows: Seq<RowV>, i: int, j: int)
    requires
        forall|t: int| 0 <= t < rows.len() - 1 ==> (#[trigger] rows[t]).time < rows[t + 1].time,
        0 <= i < j < rows.len(),
    ensures
        rows[i].time < rows[j].time,
    decreases j - i,
{
    if j > i + 1 {
        lemma_time_chain(rows, i, j - 1);
    }
}

/// Rows whose every adjacent pair ascends are strictly sorted throughout.
pub proof fn lemma_adjacent_sorted(rows: Seq<RowV>)
    requires
        forall|t: int| 0 <= t < rows.len() - 1 ==> (#[trigger] rows[t]).time < rows[t + 1].time,
    ensures
        rows_strictly_sorted(rows),
{
    assert forall|i: int, j: int| 0 <= i < j < rows.len() implies rows[i].time < rows[j].time by {
        lemma_time_chain(rows, i, j);
    }
}

/// Strict sortedness leaves no room for a repeated timestamp.
pub proof fn lemma_sorted_implies_distinct(rows: Seq<RowV>)
    requires
        rows_strictly_sorted(rows),
    ensures
        distinct_times(rows),
{
    assert forall|i: int, j: int|
        0 <= i < rows.len() && 0 <= j < rows.len() && i != j implies rows[i].time
        != rows[j].time by {
        if i < j {
            assert(rows[i].time < rows[j].time);
        } else {
            assert(rows[j].time < rows[i].time);
        }
    }
}

} // verus!
