use chrono::TimeZone;
use chrono::Utc;

use persister::codec::{column_name, decode_snapshot, encode_snapshot};
use persister::merge::{merge_new_records, normalize_width};
use persister::payload::{decode_row, split_fields};
use persister::pipeline::compact_destination;
use persister::router::route_records;
use persister::rows::{MergeError, Record, Row, Snapshot};

fn ms(y: i32, mo: u32, d: u32) -> i64 {
    Utc.with_ymd_and_hms(y, mo, d, 0, 0, 0).unwrap().timestamp_millis()
}

fn rec(dest: &str, t: i64, vals: &[f64]) -> Record {
    Record {
        destination: dest.to_string(),
        time: t,
        values: vals.iter().map(|v| v.to_bits()).collect(),
    }
}

fn cell(v: f64) -> Option<u64> {
    Some(v.to_bits())
}

fn parse_field(f: &[u8]) -> Option<u64> {
    let s = std::str::from_utf8(f).ok()?;
    let v: f64 = s.parse().ok()?;
    if v.is_finite() {
        Some(v.to_bits())
    } else {
        None
    }
}

#[test]
fn test_a() {
    // First write, three records; reading the file back yields exactly them,
    // in time order.
    let records = vec![
        rec("", ms(2023, 1, 1), &[1.0, 2.0, 3.0]),
        rec("", ms(2023, 1, 2), &[4.0, 5.0, 6.0]),
        rec("", ms(2023, 1, 3), &[7.0, 8.0, 9.0]),
    ];
    let bytes = compact_destination(&None, records).unwrap();
    let snap = decode_snapshot(&bytes).unwrap();
    let mut result = String::new();
    for row in &snap.rows {
        let line: Vec<String> = row
            .values
            .iter()
            .map(|c| format!("{}", f64::from_bits(c.unwrap())))
            .collect();
        result += &format!("{}, ", line.join(" "));
    }
    assert_eq!(result, "1 2 3, 4 5 6, 7 8 9, ");
}

#[test]
fn scenario_a_first_merge() {
    let records = vec![
        rec("p/s", ms(2023, 1, 1), &[1.0, 2.0, 3.0]),
        rec("p/s", ms(2023, 1, 2), &[4.0, 5.0, 6.0]),
        rec("p/s", ms(2023, 1, 3), &[7.0, 8.0, 9.0]),
    ];
    let out = merge_new_records(Vec::new(), records).unwrap();
    assert_eq!(out.len(), 3);
    assert_eq!(out[0].time, ms(2023, 1, 1));
    assert_eq!(out[1].time, ms(2023, 1, 2));
    assert_eq!(out[2].time, ms(2023, 1, 3));
    for row in &out {
        assert_eq!(row.values.len(), 3);
    }
    assert_eq!(out[1].values, vec![cell(4.0), cell(5.0), cell(6.0)]);
}

#[test]
fn scenario_b_padding() {
    // Existing width 3; a width-2 record is padded with a trailing NULL.
    let existing = merge_new_records(
        Vec::new(),
        vec![rec("p/s", ms(2023, 1, 1), &[1.0, 2.0, 3.0])],
    )
    .unwrap();
    let out = merge_new_records(existing, vec![rec("p/s", ms(2023, 1, 2), &[7.0, 8.0])]).unwrap();
    assert_eq!(out.len(), 2);
    assert_eq!(out[1].values, vec![cell(7.0), cell(8.0), None]);
}

#[test]
fn scenario_b_rejection() {
    // A record wider than the destination is rejected, and only that record:
    // the rest of the batch still merges.
    let wide = rec("p/s", ms(2023, 1, 2), &[1.0, 2.0, 3.0, 4.0]);
    assert_eq!(
        normalize_width(&wide, 3),
        Err(MergeError::SchemaWidthMismatch)
    );
    let existing = merge_new_records(
        Vec::new(),
        vec![rec("p/s", ms(2023, 1, 1), &[1.0, 2.0, 3.0])],
    )
    .unwrap();
    let batch = vec![wide, rec("p/s", ms(2023, 1, 3), &[5.0, 6.0, 7.0])];
    let out = merge_new_records(existing, batch).unwrap();
    assert_eq!(out.len(), 2);
    assert_eq!(out[0].time, ms(2023, 1, 1));
    assert_eq!(out[1].time, ms(2023, 1, 3));
}

#[test]
fn scenario_c_last_write_wins() {
    let existing = merge_new_records(
        Vec::new(),
        vec![
            rec("p/s", ms(2023, 1, 1), &[1.0, 2.0, 3.0]),
            rec("p/s", ms(2023, 1, 2), &[4.0, 5.0, 6.0]),
        ],
    )
    .unwrap();
    let out = merge_new_records(
        existing,
        vec![rec("p/s", ms(2023, 1, 2), &[40.0, 50.0, 60.0])],
    )
    .unwrap();
    assert_eq!(out.len(), 2);
    let at: Vec<&Row> = out
        .iter()
        .filter(|r| r.time == ms(2023, 1, 2))
        .collect();
    assert_eq!(at.len(), 1);
    assert_eq!(at[0].values, vec![cell(40.0), cell(50.0), cell(60.0)]);
}

#[test]
fn scenario_d_malformed_payload() {
    // "1.0, 2.0, x" fails to decode; entries for other destinations in the
    // same cycle still merge.
    let payload: Vec<u8> = b"1.0, 2.0, x".to_vec();
    let fields = split_fields(&payload);
    assert_eq!(fields.len(), 3);
    assert_eq!(fields[0], b"1.0".to_vec());
    assert_eq!(fields[2], b"x".to_vec());
    let parsed: Vec<Option<u64>> = fields.iter().map(|f| parse_field(f)).collect();
    let decoded = decode_row("p/a".to_string(), ms(2023, 1, 1), parsed);
    assert_eq!(decoded, Err(MergeError::MalformedPayload));

    let other = vec![rec("p/b", ms(2023, 1, 1), &[9.0])];
    let bytes = compact_destination(&None, other).unwrap();
    let snap = decode_snapshot(&bytes).unwrap();
    assert_eq!(snap.rows.len(), 1);
    assert_eq!(snap.rows[0].values, vec![cell(9.0)]);
}

#[test]
fn scenario_e_idle_cycle_unchanged() {
    // A second drain cycle with no new entries leaves the file content-identical.
    let records = vec![
        rec("p/s", ms(2023, 1, 1), &[1.0, 2.0]),
        rec("p/s", ms(2023, 1, 2), &[3.0, 4.0]),
    ];
    let first = compact_destination(&None, records).unwrap();
    let second = compact_destination(&Some(first.clone()), Vec::new()).unwrap();
    assert_eq!(first, second);
}

#[test]
fn empty_merge_is_noop() {
    let existing = merge_new_records(
        Vec::new(),
        vec![rec("p/s", ms(2023, 1, 1), &[1.0, 2.0, 3.0])],
    )
    .unwrap();
    let copy = existing.clone();
    let out = merge_new_records(existing, Vec::new()).unwrap();
    assert_eq!(out, copy);
}

#[test]
fn round_trip_preserves_rows() {
    let existing = merge_new_records(
        Vec::new(),
        vec![
            rec("p/s", ms(2023, 1, 1), &[1.5, -2.25, 0.0]),
            rec("p/s", ms(2023, 1, 3), &[7.0, 8.0, 9.0]),
        ],
    )
    .unwrap();
    // A padded (absent) cell survives the trip too.
    let rows = merge_new_records(existing, vec![rec("p/s", ms(2023, 1, 2), &[4.0])]).unwrap();
    let snap = Snapshot {
        width: 3,
        rows,
    };
    let bytes = encode_snapshot(&snap);
    let back = decode_snapshot(&bytes).unwrap();
    assert_eq!(back, snap);
    assert_eq!(back.rows[1].values, vec![cell(4.0), None, None]);
}

#[test]
fn merge_sorts_by_time() {
    let out = merge_new_records(
        Vec::new(),
        vec![
            rec("p/s", ms(2023, 3, 1), &[3.0]),
            rec("p/s", ms(2023, 1, 1), &[1.0]),
            rec("p/s", ms(2023, 2, 1), &[2.0]),
        ],
    )
    .unwrap();
    assert_eq!(out.len(), 3);
    for pair in out.windows(2) {
        assert!(pair[0].time <= pair[1].time);
    }
    assert_eq!(out[0].values, vec![cell(1.0)]);
    assert_eq!(out[2].values, vec![cell(3.0)]);
}

#[test]
fn zero_width_destination_rejected() {
    // An empty payload yields a zero-length value vector, which cannot fix a
    // destination's width.
    let out = merge_new_records(Vec::new(), vec![rec("p/s", ms(2023, 1, 1), &[])]);
    assert_eq!(out, Err(MergeError::SchemaWidthMismatch));
    let out = compact_destination(&None, vec![rec("p/s", ms(2023, 1, 1), &[])]);
    assert_eq!(out, Err(MergeError::SchemaWidthMismatch));
}

#[test]
fn empty_record_never_becomes_a_row() {
    // A zero-length record is rejected even when the destination already has
    // rows: it must not pad into an all-absent row, and under last write wins
    // it must not overwrite the real row at its timestamp.
    let empty = rec("p/s", ms(2023, 1, 2), &[]);
    assert_eq!(normalize_width(&empty, 3), Err(MergeError::SchemaWidthMismatch));

    let existing = merge_new_records(
        Vec::new(),
        vec![
            rec("p/s", ms(2023, 1, 1), &[1.0, 2.0, 3.0]),
            rec("p/s", ms(2023, 1, 2), &[4.0, 5.0, 6.0]),
        ],
    )
    .unwrap();
    let batch = vec![empty, rec("p/s", ms(2023, 1, 3), &[7.0, 8.0, 9.0])];
    let out = merge_new_records(existing, batch).unwrap();
    assert_eq!(out.len(), 3);
    assert_eq!(out[1].time, ms(2023, 1, 2));
    assert_eq!(out[1].values, vec![cell(4.0), cell(5.0), cell(6.0)]);
    assert_eq!(out[2].time, ms(2023, 1, 3));
}

#[test]
fn corrupt_snapshot_reported() {
    let garbage: Vec<u8> = vec![1, 2, 3, 4, 5];
    assert_eq!(decode_snapshot(&garbage), Err(MergeError::SnapshotCorrupt));

    let good = compact_destination(&None, vec![rec("p/s", ms(2023, 1, 1), &[1.0])]).unwrap();
    let mut truncated = good.clone();
    truncated.pop();
    assert_eq!(
        decode_snapshot(&truncated),
        Err(MergeError::SnapshotCorrupt)
    );
    let r = compact_destination(
        &Some(truncated),
        vec![rec("p/s", ms(2023, 1, 2), &[2.0])],
    );
    assert_eq!(r, Err(MergeError::SnapshotCorrupt));
}

#[test]
fn router_groups_by_destination_in_order() {
    let records = vec![
        rec("p/a", ms(2023, 1, 1), &[1.0]),
        rec("p/b", ms(2023, 1, 1), &[2.0]),
        rec("p/a", ms(2023, 1, 2), &[3.0]),
        rec("p/b", ms(2023, 1, 2), &[4.0]),
    ];
    let buckets = route_records(records);
    assert_eq!(buckets.len(), 2);
    for (dest, group) in &buckets {
        assert_eq!(group.len(), 2);
        for r in group {
            assert_eq!(&r.destination, dest);
        }
        assert!(group[0].time < group[1].time);
    }
    let mut names: Vec<String> = buckets.iter().map(|(d, _)| d.clone()).collect();
    names.sort();
    assert_eq!(names, vec!["p/a".to_string(), "p/b".to_string()]);
}

#[test]
fn split_trims_fields() {
    let fields = split_fields(&b"  1.0 ,\t2.5,x  ".to_vec());
    assert_eq!(
        fields,
        vec![b"1.0".to_vec(), b"2.5".to_vec(), b"x".to_vec()]
    );
    let fields = split_fields(&b"a,,b".to_vec());
    assert_eq!(fields, vec![b"a".to_vec(), b"".to_vec(), b"b".to_vec()]);
    // Vertical tab and form feed count as trimmable whitespace too.
    let fields = split_fields(&b"\x0b7.5\x0c,\x0c8\x0b".to_vec());
    assert_eq!(fields, vec![b"7.5".to_vec(), b"8".to_vec()]);
    let fields = split_fields(&b"".to_vec());
    assert!(fields.is_empty());
}

#[test]
fn decode_row_accepts_parsed_fields() {
    let payload = b"1.5, -2.0,3".to_vec();
    let fields = split_fields(&payload);
    let parsed: Vec<Option<u64>> = fields.iter().map(|f| parse_field(f)).collect();
    let record = decode_row("p/s".to_string(), ms(2023, 1, 1), parsed).unwrap();
    assert_eq!(record.destination, "p/s");
    assert_eq!(record.time, ms(2023, 1, 1));
    assert_eq!(
        record.values,
        vec![(1.5f64).to_bits(), (-2.0f64).to_bits(), (3.0f64).to_bits()]
    );
}

#[test]
fn non_finite_field_is_malformed() {
    // "inf" parses as a float but is not finite, so the entry is malformed.
    let fields = split_fields(&b"1.0, inf".to_vec());
    let parsed: Vec<Option<u64>> = fields.iter().map(|f| parse_field(f)).collect();
    let decoded = decode_row("p/s".to_string(), ms(2023, 1, 1), parsed);
    assert_eq!(decoded, Err(MergeError::MalformedPayload));
}

#[test]
fn snapshot_header_layout() {
    // Exact byte layout: magic, width, count (little-endian), time column,
    // then flagged cells.
    let bytes = compact_destination(&None, vec![rec("p/s", 1, &[2.0])]).unwrap();
    assert_eq!(bytes.len(), 20 + 8 + 9);
    assert_eq!(bytes[0..4], [0x43, 0x4f, 0x4c, 0x31]);
    assert_eq!(bytes[4..12], 1u64.to_le_bytes()); // width
    assert_eq!(bytes[12..20], 1u64.to_le_bytes()); // row count
    assert_eq!(bytes[20..28], 1i64.to_le_bytes()); // time, ms since epoch
    assert_eq!(bytes[28], 1); // cell present
    assert_eq!(bytes[29..37], 2.0f64.to_bits().to_le_bytes());
}

#[test]
fn value_columns_are_named_by_position() {
    assert_eq!(column_name(0), b"c0".to_vec());
    assert_eq!(column_name(1), b"c1".to_vec());
    assert_eq!(column_name(12), b"c12".to_vec());
    assert_eq!(column_name(305), b"c305".to_vec());
}

#[test]
fn empty_first_cycle_writes_empty_snapshot() {
    let bytes = compact_destination(&None, Vec::new()).unwrap();
    assert_eq!(bytes.len(), 20);
    let snap = decode_snapshot(&bytes).unwrap();
    assert_eq!(snap.width, 0);
    assert!(snap.rows.is_empty());
}
