//! The merge-sort compactor: combines a destination's existing rows with newly
//! decoded records into one strictly sorted, fixed-width row set.
//!
//! Policies, fixed here and enforced by the contracts:
//! - the destination's width is the existing snapshot's if it has rows,
//!   otherwise the first new record's;
//! - a new record narrower than the width is padded with trailing `None`
//!   cells; one wider than the width is rejected (`SchemaWidthMismatch`) and
//!   only that record is dropped;
//! - a record with no values at all (an empty payload) is rejected the same
//!   way, whatever the destination already holds: a destination must keep at
//!   least one column, and an all-absent row would otherwise overwrite a real
//!   row at its timestamp under last write wins;
//! - among rows sharing a timestamp the last write wins: a new record replaces
//!   an existing row at the same time, and later records replace earlier ones.
//!
//! The merge drops rejected records without reporting them one by one; a
//! caller that wants the per-record diagnostic holds each record to
//! [`normalize_width`], whose result says exactly which records the merge
//! keeps.

use vstd::prelude::*;
use crate::rows::{
    distinct_times, lemma_sorted_implies_distinct, rows_strictly_sorted, rows_uniform_width,
    rows_wf, MergeError, Record, RecordV, Row, RowV,
};

verus! {

/// `values` brought to width `w`: truncating nothing, padding with `None`.
pub open spec fn pad_values(values: Seq<u64>, w: int) -> Seq<Option<u64>> {
    Seq::new(w as nat, |j: int| if j < values.len() { Some(values[j]) } else { None })
}

/// The row a record becomes once padded to width `w`.
pub open spec fn pad_record(r: RecordV, w: int) -> RowV {
    RowV { time: r.time, values: pad_values(r.values, w) }
}

/// The records of `incoming` that fit width `w`, padded, in drain order.
/// Records wider than `w`, and records with no values at all, are left out.
pub open spec fn kept_padded(incoming: Seq<RecordV>, w: int) -> Seq<RowV>
    decreases incoming.len(),
{
    if incoming.len() == 0 {
        Seq::empty()
    } else if 1 <= incoming.last().values.len() <= w {
        kept_padded(incoming.drop_last(), w) + seq![pad_record(incoming.last(), w)]
    } else {
        kept_padded(incoming.drop_last(), w)
    }
}

/// The logical contents of a row sequence: each timestamp maps to the values
/// of the last row in the sequence that carries it (last write wins).
pub open spec fn table_of(rows: Seq<RowV>) -> Map<i64, Seq<Option<u64>>>
    decreases rows.len(),
{
    if rows.len() == 0 {
        Map::empty()
    } else {
        table_of(rows.drop_last()).insert(rows.last().time, rows.last().values)
    }
}

/// The width the merge fixes for the destination: the existing snapshot's
/// when it has rows, otherwise the first new record's, otherwise zero.
pub open spec fn merge_width(existing: Seq<RowV>, incoming: Seq<RecordV>) -> int {
    if existing.len() > 0 {
        existing[0].values.len() as int
    } else if incoming.len() > 0 {
        incoming[0].values.len() as int
    } else {
        0
    }
}

/// For rows with pairwise distinct timestamps, `table_of` holds exactly the
/// rows' timestamps, each mapped to that row's values.
pub proof fn lemma_table_of_distinct(rows: Seq<RowV>)
    requires
        distinct_times(rows),
    ensures
        forall|t: i64| #[trigger]
            table_of(rows).contains_key(t) ==> exists|i: int|
                0 <= i < rows.len() && rows[i].time == t,
        forall|i: int|
            0 <= i < rows.len() ==> table_of(rows).contains_key(#[trigger] rows[i].time)
                && table_of(rows)[rows[i].time] == rows[i].values,
    decreases rows.len(),
{
    if rows.len() > 0 {
        let s0 = rows.drop_last();
        let last = rows.last();
        assert(distinct_times(s0)) by {
            assert(forall|i: int| 0 <= i < s0.len() ==> s0[i] == rows[i]);
        }
        lemma_table_of_distinct(s0);
        assert forall|i: int|
            0 <= i < rows.len() implies table_of(rows).contains_key(#[trigger] rows[i].time)
            && table_of(rows)[rows[i].time] == rows[i].values by {
            if i < rows.len() - 1 {
                assert(s0[i] == rows[i]);
                assert(table_of(s0).contains_key(rows[i].time));
                assert(rows[i].time != last.time);
            }
        }
        assert forall|t: i64| #[trigger]
            table_of(rows).contains_key(t) implies exists|i: int|
            0 <= i < rows.len() && rows[i].time == t by {
            if t == last.time {
                assert(rows[rows.len() - 1].time == t);
            } else {
                assert(table_of(s0).contains_key(t));
                let i = choose|i: int| 0 <= i < s0.len() && s0[i].time == t;
                assert(rows[i].time == t);
            }
        }
    }
}

/// Replacing the one row that already carries `r.time` updates the table at
/// exactly that key, and keeps the rows strictly sorted.
pub proof fn lemma_table_update(s: Seq<RowV>, k: int, r: RowV)
    requires
        rows_strictly_sorted(s),
        0 <= k < s.len(),
        s[k].time == r.time,
    ensures
        rows_strictly_sorted(s.update(k, r)),
        table_of(s.update(k, r)) == table_of(s).insert(r.time, r.values),
{
    let s2 = s.update(k, r);
    assert(rows_strictly_sorted(s2)) by {
        assert(forall|i: int| 0 <= i < s2.len() ==> s2[i].time == s[i].time);
    }
    lemma_sorted_implies_distinct(s);
    lemma_sorted_implies_distinct(s2);
    lemma_table_of_distinct(s);
    lemma_table_of_distinct(s2);
    let m1 = table_of(s2);
    let m2 = table_of(s).insert(r.time, r.values);
    assert forall|t: i64| m1.contains_key(t) implies m2.contains_key(t) && m1[t] == m2[t] by {
        let i = choose|i: int| 0 <= i < s2.len() && s2[i].time == t;
        if i == k {
            assert(m1[t] == r.values);
        } else {
            assert(s2[i] == s[i]);
            assert(s[i].time != r.time) by {
                assert(s[i].time != s[k].time);
            }
            assert(m1[t] == s2[i].values);
            assert(m2[t] == s[i].values);
        }
    }
    assert forall|t: i64| m2.contains_key(t) implies m1.contains_key(t) by {
        if t == r.time {
            assert(s2[k].time == t);
        } else {
            let i = choose|i: int| 0 <= i < s.len() && s[i].time == t;
            assert(s2[i].time == t);
        }
    }
    assert(m1 =~= m2);
}

/// Inserting a row between its strict neighbours adds exactly its key to the
/// table and keeps the rows strictly sorted.
pub proof fn lemma_table_insert_at(s: Seq<RowV>, k: int, r: RowV)
    requires
        rows_strictly_sorted(s),
        0 <= k <= s.len(),
        forall|t: int| 0 <= t < k ==> s[t].time < r.time,
        forall|t: int| k <= t < s.len() ==> s[t].time > r.time,
    ensures
        rows_strictly_sorted(s.insert(k, r)),
        table_of(s.insert(k, r)) == table_of(s).insert(r.time, r.values),
{
    let s2 = s.insert(k, r);
    s.insert_ensures(k, r);
    assert(rows_strictly_sorted(s2)) by {
        assert forall|i: int, j: int| 0 <= i < j < s2.len() implies s2[i].time < s2[j].time by {
            if i < k && j < k {
                assert(s2[i] == s[i] && s2[j] == s[j]);
            } else if i < k && j == k {
                assert(s2[i] == s[i]);
            } else if i < k && j > k {
                assert(s2[i] == s[i] && s2[j] == s[j - 1]);
                assert(s[i].time < r.time && s[j - 1].time > r.time);
            } else if i == k && j > k {
                assert(s2[j] == s[j - 1]);
            } else {
                assert(s2[i] == s[i - 1] && s2[j] == s[j - 1]);
            }
        }
    }
    lemma_sorted_implies_distinct(s);
    lemma_sorted_implies_distinct(s2);
    lemma_table_of_distinct(s);
    lemma_table_of_distinct(s2);
    let m1 = table_of(s2);
    let m2 = table_of(s).insert(r.time, r.values);
    assert forall|t: i64| m1.contains_key(t) implies m2.contains_key(t) && m1[t] == m2[t] by {
        let i = choose|i: int| 0 <= i < s2.len() && s2[i].time == t;
        if i == k {
            assert(m1[t] == r.values);
        } else if i < k {
            assert(s2[i] == s[i]);
            assert(s[i].time < r.time);
            assert(m1[t] == s2[i].values);
            assert(m2[t] == s[i].values);
        } else {
            assert(s2[i] == s[i - 1]);
            assert(s[i - 1].time > r.time);
            assert(m1[t] == s2[i].values);
            assert(m2[t] == s[i - 1].values);
        }
    }
    assert forall|t: i64| m2.contains_key(t) implies m1.contains_key(t) by {
        if t == r.time {
            assert(s2[k].time == t);
        } else {
            let i = choose|i: int| 0 <= i < s.len() && s[i].time == t;
            if i < k {
                assert(s2[i].time == t);
            } else {
                assert(s2[i + 1].time == t);
            }
        }
    }
    assert(m1 =~= m2);
}

/// Appending a row to a sequence overrides the table at its timestamp.
pub proof fn lemma_table_push(rows: Seq<RowV>, r: RowV)
    ensures
        table_of(rows.push(r)) == table_of(rows).insert(r.time, r.values),
{
    assert(rows.push(r).drop_last() =~= rows);
    assert(rows.push(r).last() == r);
}

/// One step of `kept_padded` over a growing prefix of the incoming records.
pub proof fn lemma_kept_padded_step(incoming: Seq<RecordV>, w: int, idx: int)
    requires
        0 <= idx < incoming.len(),
    ensures
        1 <= incoming[idx].values.len() <= w ==> kept_padded(incoming.take(idx + 1), w)
            == kept_padded(incoming.take(idx), w).push(pad_record(incoming[idx], w)),
        !(1 <= incoming[idx].values.len() <= w) ==> kept_padded(incoming.take(idx + 1), w)
            == kept_padded(incoming.take(idx), w),
{
    let s = incoming.take(idx + 1);
    assert(s.drop_last() =~= incoming.take(idx));
    assert(s.last() == incoming[idx]);
    if 1 <= incoming[idx].values.len() <= w {
        assert(kept_padded(incoming.take(idx), w) + seq![pad_record(incoming[idx], w)]
            =~= kept_padded(incoming.take(idx), w).push(pad_record(incoming[idx], w)));
    }
}

/// Brings one record to the destination's width `w`.
///
/// Returns the padded row when the record fits, and `SchemaWidthMismatch` when
/// the record is wider than `w` (the rejection policy), carries no values at
/// all (an empty payload never becomes a row), or `w` is zero (a destination
/// must have at least one column).
pub fn normalize_width(record: &Record, w: usize) -> (r: Result<Row, MergeError>)
    ensures
        ({
            let fits = w >= 1 && 1 <= record.values@.len() <= w;
            match r {
                Ok(row) => fits && row.deep_view() == pad_record(record.deep_view(), w as int),
                Err(e) => !fits && e == MergeError::SchemaWidthMismatch,
            }
        }),
{
    if w == 0 || record.values.len() == 0 || record.values.len() > w {
        return Err(MergeError::SchemaWidthMismatch);
    }
    let mut vals: Vec<Option<u64>> = Vec::new();
    for j in 0..w
        invariant
            vals@.len() == j,
            record.values@.len() <= w,
            forall|t: int| 0 <= t < j ==> vals@[t] == pad_values(record.values@, w as int)[t],
    {
        if j < record.values.len() {
            vals.push(Some(record.values[j]));
        } else {
            vals.push(None);
        }
    }
    let row = Row { time: record.time, values: vals };
    proof {
        assert(row.deep_view().values =~= pad_values(record.values@, w as int));
    }
    Ok(row)
}

/// Places `row` in a sorted row set under last write wins: it replaces the row
/// carrying its timestamp if there is one, and otherwise lands between its
/// strict neighbours.
fn insert_row_lww(rows: &mut Vec<Row>, row: Row)
    requires
        rows_wf(old(rows).deep_view()),
        row.values@.len() >= 1,
        rows_uniform_width(old(rows).deep_view(), row.values@.len() as int),
    ensures
        rows_wf(final(rows).deep_view()),
        final(rows).deep_view().len() > 0,
        rows_uniform_width(final(rows).deep_view(), row.values@.len() as int),
        table_of(final(rows).deep_view()) == table_of(old(rows).deep_view()).insert(
            row.time,
            row.values@,
        ),
{
    let ghost s0 = rows.deep_view();
    let mut k: usize = 0;
    while k < rows.len() && rows[k].time < row.time
        invariant
            rows.deep_view() == s0,
            rows_wf(s0),
            0 <= k <= s0.len(),
            rows@.len() == s0.len(),
            forall|t: int| 0 <= t < k ==> s0[t].time < row.time,
        decreases s0.len() - k,
    {
        proof {
            assert(s0[k as int] == rows@[k as int].deep_view());
        }
        k += 1;
    }
    proof {
        assert(k < s0.len() ==> s0[k as int] == rows@[k as int].deep_view());
    }
    if k < rows.len() && rows[k].time == row.time {
        let _ = rows.remove(k);
        rows.insert(k, row);
        proof {
            let s2 = rows.deep_view();
            assert(s2 =~= s0.update(k as int, row.deep_view())) by {
                assert(rows@ =~= old(rows)@.remove(k as int).insert(k as int, row));
                assert forall|i: int| 0 <= i < s2.len() implies s2[i] == s0.update(
                    k as int,
                    row.deep_view(),
                )[i] by {
                    assert(s2[i] == rows@[i].deep_view());
                    if i != k {
                        assert(rows@[i] == old(rows)@[i]);
                    }
                }
            }
            lemma_table_update(s0, k as int, row.deep_view());
        }
    } else {
        proof {
            assert forall|t: int| k <= t < s0.len() implies s0[t].time > row.time by {
                if t > k {
                    assert(s0[k as int].time < s0[t].time);
                }
            }
        }
        rows.insert(k, row);
        proof {
            let s2 = rows.deep_view();
            s0.insert_ensures(k as int, row.deep_view());
            assert(s2 =~= s0.insert(k as int, row.deep_view())) by {
                assert forall|i: int| 0 <= i < s2.len() implies s2[i] == s0.insert(
                    k as int,
                    row.deep_view(),
                )[i] by {
                    assert(s2[i] == rows@[i].deep_view());
                    assert(rows@ == old(rows)@.insert(k as int, row));
                    old(rows)@.insert_ensures(k as int, row);
                    if i < k {
                        assert(rows@[i] == old(rows)@[i]);
                    } else if i == k {
                        assert(rows@[i] == row);
                    } else {
                        assert(rows@[i] == old(rows)@[i - 1]);
                    }
                }
            }
            lemma_table_insert_at(s0, k as int, row.deep_view());
        }
    }
}

/// Merges newly drained records into a destination's existing row set.
///
/// With no new records the existing rows come back unchanged. Otherwise the
/// destination's width is fixed (existing snapshot first, else first record;
/// zero is rejected), fitting records are padded to it — wider and empty
/// records are dropped — and the result is the strictly sorted row set whose
/// contents are the existing rows overridden by the kept records in drain
/// order — last write wins.
pub fn merge_new_records(existing: Vec<Row>, new_records: Vec<Record>) -> (r: Result<
    Vec<Row>,
    MergeError,
>)
    requires
        rows_wf(existing.deep_view()),
    ensures
        ({
            let ex = existing.deep_view();
            let inc = new_records.deep_view();
            let w = merge_width(ex, inc);
            match r {
                Ok(out) => {
                    &&& inc.len() == 0 ==> out.deep_view() == ex
                    &&& inc.len() > 0 ==> {
                        &&& w >= 1
                        &&& rows_wf(out.deep_view())
                        &&& rows_uniform_width(out.deep_view(), w)
                        &&& table_of(out.deep_view()) == table_of(ex + kept_padded(inc, w))
                    }
                },
                Err(e) => {
                    &&& inc.len() > 0 && w == 0
                    &&& e == MergeError::SchemaWidthMismatch
                },
            }
        }),
{
    let ghost ex0 = existing.deep_view();
    let ghost inc = new_records.deep_view();
    if new_records.len() == 0 {
        return Ok(existing);
    }
    let w: usize = if existing.len() > 0 {
        proof {
            assert(ex0[0] == existing@[0].deep_view());
        }
        existing[0].values.len()
    } else {
        proof {
            assert(inc[0] == new_records@[0].deep_view());
        }
        new_records[0].values.len()
    };
    if w == 0 {
        return Err(MergeError::SchemaWidthMismatch);
    }
    let mut out = existing;
    proof {
        assert(ex0 + kept_padded(inc.take(0), w as int) =~= ex0);
    }
    let mut idx: usize = 0;
    while idx < new_records.len()
        invariant
            idx <= inc.len(),
            inc == new_records.deep_view(),
            inc.len() == new_records@.len(),
            inc.len() > 0,
            w as int == merge_width(ex0, inc),
            w >= 1,
            rows_wf(out.deep_view()),
            rows_uniform_width(out.deep_view(), w as int),
            table_of(out.deep_view()) == table_of(ex0 + kept_padded(inc.take(idx as int), w as int)),
        decreases inc.len() - idx,
    {
        let rec = &new_records[idx];
        proof {
            assert(rec.deep_view() == inc[idx as int]);
        }
        let res = normalize_width(rec, w);
        proof {
            lemma_kept_padded_step(inc, w as int, idx as int);
        }
        match res {
            Ok(row) => {
                proof {
                    assert(row.deep_view() == pad_record(inc[idx as int], w as int));
                    assert(row.values@.len() == w);
                    let base = ex0 + kept_padded(inc.take(idx as int), w as int);
                    assert(ex0 + kept_padded(inc.take(idx as int + 1), w as int) =~= base.push(
                        row.deep_view(),
                    ));
                    lemma_table_push(base, row.deep_view());
                }
                insert_row_lww(&mut out, row);
            },
            Err(_) => {
                proof {
                    assert(!(1 <= inc[idx as int].values.len() <= w));
                }
            },
        }
        idx += 1;
    }
    proof {
        assert(inc.take(inc.len() as int) =~= inc);
    }
    Ok(out)
}

} // verus!
