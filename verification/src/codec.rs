//! The snapshot file format and its codec.
//!
//! A snapshot is a columnar file: a 20-byte header — four magic bytes, the
//! column width, the row count, both as little-endian 64-bit integers — then
//! the time column (one little-endian 64-bit value per row, milliseconds since
//! the Unix epoch), then one block per value column. A cell takes nine bytes
//! in its column's block: a presence flag (1 present, 0 absent) and the
//! value's 64 bits (zero when absent). Rows are stored strictly ascending by
//! time, and the decoder accepts exactly the byte strings the encoder emits.
//!
//! Columns are positional, and their names are fixed by position: the time
//! column is `time`, and value column `j` bears the name `c{j}` in the
//! destination's schema — [`column_name`] spells it out. Since each name is a
//! function of the column's index alone, the file spends no bytes on names;
//! readers recover them from `W` in the header.

use vstd::prelude::*;
use vstd::arithmetic::div_mod::{
    lemma_fundamental_div_mod, lemma_fundamental_div_mod_converse, lemma_mod_bound,
};
use vstd::bytes::{
    lemma_auto_spec_u64_to_from_le_bytes, spec_u64_from_le_bytes, spec_u64_to_le_bytes,
    u64_from_le_bytes, u64_to_le_bytes,
};
use vstd::slice::slice_subrange;
use crate::rows::{
    rows_uniform_width, snap_wf, MergeError, Row, RowV, Snapshot,
    SnapshotV,
};

verus! {

/// First magic byte of a snapshot file.
pub const MAGIC_0: u8 = 0x43;

/// Second magic byte of a snapshot file.
pub const MAGIC_1: u8 = 0x4f;

/// Third magic byte of a snapshot file.
pub const MAGIC_2: u8 = 0x4c;

/// Fourth magic byte of a snapshot file.
pub const MAGIC_3: u8 = 0x31;

/// The bits stored for a cell: the value's bits, zero for an absent cell.
pub open spec fn cell_bits(c: Option<u64>) -> u64 {
    match c {
        Some(v) => v,
        None => 0u64,
    }
}

/// The flag byte stored before a cell's bits: 1 present, 0 absent.
pub open spec fn cell_flag(c: Option<u64>) -> u8 {
    match c {
        Some(_) => 1u8,
        None => 0u8,
    }
}

/// Total length in bytes of a snapshot's encoding.
pub open spec fn snap_len(s: SnapshotV) -> int {
    20 + 8 * s.rows.len() + 9 * (s.width as int) * s.rows.len()
}

/// The byte at position `p` of the encoding of `s`.
pub open spec fn snap_byte(s: SnapshotV, p: int) -> u8 {
    let n = s.rows.len() as int;
    if p < 4 {
        if p == 0 {
            MAGIC_0
        } else if p == 1 {
            MAGIC_1
        } else if p == 2 {
            MAGIC_2
        } else {
            MAGIC_3
        }
    } else if p < 12 {
        spec_u64_to_le_bytes(s.width)[p - 4]
    } else if p < 20 {
        spec_u64_to_le_bytes(n as u64)[p - 12]
    } else if p < 20 + 8 * n {
        spec_u64_to_le_bytes(s.rows[(p - 20) / 8].time as u64)[(p - 20) % 8]
    } else {
        let q = p - 20 - 8 * n;
        let j = q / (9 * n);
        let c = q % (9 * n);
        let i = c / 9;
        let k = c % 9;
        let cell = s.rows[i].values[j];
        if k == 0 {
            cell_flag(cell)
        } else {
            spec_u64_to_le_bytes(cell_bits(cell))[k - 1]
        }
    }
}

/// The full columnar encoding of a snapshot.
pub open spec fn spec_encode(s: SnapshotV) -> Seq<u8> {
    Seq::new(snap_len(s) as nat, |p: int| snap_byte(s, p))
}

/// The column width recorded in a snapshot file's header.
pub open spec fn width_of(b: Seq<u8>) -> u64 {
    spec_u64_from_le_bytes(b.subrange(4, 12))
}

/// The row count recorded in a snapshot file's header.
pub open spec fn count_of(b: Seq<u8>) -> u64 {
    spec_u64_from_le_bytes(b.subrange(12, 20))
}

/// The `i`th entry of the file's time column.
pub open spec fn time_at(b: Seq<u8>, i: int) -> i64 {
    spec_u64_from_le_bytes(b.subrange(20 + 8 * i, 20 + 8 * i + 8)) as i64
}

/// Position of the cell of row `i`, column `j` in the file.
pub open spec fn cell_base(b: Seq<u8>, i: int, j: int) -> int {
    let n = count_of(b) as int;
    20 + 8 * n + 9 * n * j + 9 * i
}

/// The presence flag of the cell of row `i`, column `j`.
pub open spec fn flag_at(b: Seq<u8>, i: int, j: int) -> u8 {
    b[cell_base(b, i, j)]
}

/// The stored bits of the cell of row `i`, column `j`.
pub open spec fn cell_value_at(b: Seq<u8>, i: int, j: int) -> u64 {
    spec_u64_from_le_bytes(b.subrange(cell_base(b, i, j) + 1, cell_base(b, i, j) + 9))
}

/// The cell of row `i`, column `j` as the decoder reads it.
pub open spec fn cell_at(b: Seq<u8>, i: int, j: int) -> Option<u64> {
    if flag_at(b, i, j) == 1 {
        Some(cell_value_at(b, i, j))
    } else {
        None
    }
}

/// The byte strings the decoder accepts: exactly the encodings of well-formed
/// snapshots — shape, flags, zeroed absent cells and strict time order all
/// checked.
pub open spec fn valid_snapshot_bytes(b: Seq<u8>) -> bool {
    let w = width_of(b) as int;
    let n = count_of(b) as int;
    &&& b.len() >= 20
    &&& b[0] == MAGIC_0
    &&& b[1] == MAGIC_1
    &&& b[2] == MAGIC_2
    &&& b[3] == MAGIC_3
    &&& b.len() == 20 + 8 * n + 9 * w * n
    &&& n > 0 ==> w >= 1
    &&& forall|i: int| 0 <= i < n - 1 ==> #[trigger] time_at(b, i) < time_at(b, i + 1)
    &&& forall|i: int, j: int|
        #![trigger flag_at(b, i, j)]
        0 <= i < n && 0 <= j < w ==> {
            &&& flag_at(b, i, j) <= 1
            &&& (flag_at(b, i, j) == 0 ==> cell_value_at(b, i, j) == 0)
        }
}

/// The snapshot a valid byte string denotes.
pub open spec fn snapshot_of(b: Seq<u8>) -> SnapshotV {
    let w = width_of(b);
    let n = count_of(b) as int;
    SnapshotV {
        width: w,
        rows: Seq::new(
            n as nat,
            |i: int|
                RowV {
                    time: time_at(b, i),
                    values: Seq::new(w as nat, |j: int| cell_at(b, i, j)),
                },
        ),
    }
}

/// The decimal spelling of a non-negative number, in ASCII bytes.
pub open spec fn dec_bytes(n: int) -> Seq<u8>
    decreases n,
{
    if 0 <= n < 10 {
        seq![(48 + n) as u8]
    } else if n >= 10 {
        dec_bytes(n / 10).push((48 + n % 10) as u8)
    } else {
        Seq::empty()
    }
}

/// Appends the decimal spelling of `n`.
fn push_decimal(n: u64, out: &mut Vec<u8>)
    ensures
        final(out)@ == old(out)@ + dec_bytes(n as int),
    decreases n,
{
    if n < 10 {
        out.push(48 + n as u8);
        proof {
            assert(out@ =~= old(out)@ + dec_bytes(n as int));
        }
    } else {
        push_decimal(n / 10, out);
        out.push(48 + (n % 10) as u8);
        proof {
            assert(out@ =~= old(out)@ + dec_bytes(n as int));
        }
    }
}

/// The schema name of value column `j`: the letter `c` followed by `j` in
/// decimal — `c0`, `c1`, … — as ASCII bytes. The file stores no column names,
/// since each is a function of the column's position; this fixes what they
/// are.
pub fn column_name(j: u64) -> (r: Vec<u8>)
    ensures
        r@ == seq![99u8] + dec_bytes(j as int),
{
    let mut out: Vec<u8> = Vec::new();
    out.push(99);
    proof {
        assert(out@ =~= Seq::<u8>::empty().push(99u8));
    }
    push_decimal(j, &mut out);
    proof {
        assert(out@ =~= seq![99u8] + dec_bytes(j as int));
    }
    out
}

/// Casting a time's bits to `u64` and back loses nothing.
pub proof fn lemma_time_bits_round_trip(t: i64)
    ensures
        (t as u64) as i64 == t,
{
    assert((t as u64) as i64 == t) by (bit_vector);
}

/// Reads the little-endian 64-bit value at `off`.
fn read_u64(bytes: &Vec<u8>, off: usize) -> (x: u64)
    requires
        off + 8 <= bytes@.len(),
    ensures
        x == spec_u64_from_le_bytes(bytes@.subrange(off as int, off as int + 8)),
{
    let len = bytes.len();
    assert(off + 8 <= len);
    let s = slice_subrange(bytes.as_slice(), off, off + 8);
    u64_from_le_bytes(s)
}

/// Serializes a well-formed snapshot into the columnar file format.
pub fn encode_snapshot(snap: &Snapshot) -> (r: Vec<u8>)
    requires
        snap_wf(snap.deep_view()),
    ensures
        r@ == spec_encode(snap.deep_view()),
        valid_snapshot_bytes(r@),
        snapshot_of(r@) == snap.deep_view(),
{
    let ghost sv = snap.deep_view();
    proof {
        lemma_auto_spec_u64_to_from_le_bytes();
    }
    let n = snap.rows.len();
    let w = snap.width;
    let ghost ni = n as int;
    let mut out: Vec<u8> = Vec::new();
    out.push(MAGIC_0);
    out.push(MAGIC_1);
    out.push(MAGIC_2);
    out.push(MAGIC_3);
    let mut wb = u64_to_le_bytes(w);
    out.append(&mut wb);
    let mut nb = u64_to_le_bytes(n as u64);
    out.append(&mut nb);
    proof {
        assert(out@.len() == 20);
        assert forall|p: int| 0 <= p < 20 implies out@[p] == snap_byte(sv, p) by {
            if 4 <= p < 12 {
                assert(out@[p] == spec_u64_to_le_bytes(w)[p - 4]);
            } else if 12 <= p < 20 {
                assert(out@[p] == spec_u64_to_le_bytes(n as u64)[p - 12]);
            }
        }
    }
    let mut i: usize = 0;
    while i < n
        invariant
            sv == snap.deep_view(),
            snap_wf(sv),
            n == snap.rows@.len(),
            ni == n as int,
            w == sv.width,
            i <= n,
            out@.len() == 20 + 8 * (i as int),
            forall|p: int| 0 <= p < out@.len() ==> out@[p] == snap_byte(sv, p),
        decreases n - i,
    {
        let t = snap.rows[i].time;
        proof {
            assert(sv.rows[i as int] == snap.rows@[i as int].deep_view());
        }
        let mut tb = u64_to_le_bytes(t as u64);
        let ghost before = out@;
        out.append(&mut tb);
        proof {
            lemma_auto_spec_u64_to_from_le_bytes();
            assert forall|p: int| 0 <= p < out@.len() implies out@[p] == snap_byte(sv, p) by {
                if p < 20 + 8 * (i as int) {
                    assert(out@[p] == before[p]);
                } else {
                    let k = p - 20 - 8 * (i as int);
                    assert(out@[p] == spec_u64_to_le_bytes(t as u64)[k]);
                    lemma_fundamental_div_mod_converse(p - 20, 8, i as int, k);
                    assert(p < 20 + 8 * ni);
                }
            }
        }
        i += 1;
    }
    if n > 0 {
        let wu: usize = snap.rows[0].values.len();
        proof {
            assert(sv.rows[0] == snap.rows@[0].deep_view());
            assert(wu as int == sv.width as int);
        }
        let mut j: usize = 0;
        while j < wu
            invariant
                sv == snap.deep_view(),
                snap_wf(sv),
                n == snap.rows@.len(),
                ni == n as int,
                ni > 0,
                w == sv.width,
                wu as int == sv.width as int,
                j <= wu,
                out@.len() == 20 + 8 * ni + 9 * ni * (j as int),
                forall|p: int| 0 <= p < out@.len() ==> out@[p] == snap_byte(sv, p),
            decreases wu - j,
        {
            let mut i2: usize = 0;
            while i2 < n
                invariant
                    sv == snap.deep_view(),
                    snap_wf(sv),
                    n == snap.rows@.len(),
                    ni == n as int,
                    ni > 0,
                    w == sv.width,
                    wu as int == sv.width as int,
                    j < wu,
                    i2 <= n,
                    out@.len() == 20 + 8 * ni + 9 * ni * (j as int) + 9 * (i2 as int),
                    forall|p: int| 0 <= p < out@.len() ==> out@[p] == snap_byte(sv, p),
                decreases n - i2,
            {
                proof {
                    assert(sv.rows[i2 as int] == snap.rows@[i2 as int].deep_view());
                    assert(sv.rows[i2 as int].values.len() == sv.width as int);
                }
                let cell: Option<u64> = snap.rows[i2].values[j];
                let ghost before = out@;
                let ghost base = 20 + 8 * ni + 9 * ni * (j as int) + 9 * (i2 as int);
                match cell {
                    Some(v) => {
                        out.push(1);
                        let mut vb = u64_to_le_bytes(v);
                        out.append(&mut vb);
                    },
                    None => {
                        out.push(0);
                        let mut vb = u64_to_le_bytes(0);
                        out.append(&mut vb);
                    },
                }
                proof {
                    lemma_auto_spec_u64_to_from_le_bytes();
                    assert(out@.len() == base + 9);
                    assert(9 * ni * (j as int) >= 0) by (nonlinear_arith)
                        requires
                            ni > 0,
                            j >= 0,
                    ;
                    assert(9 * ni * (j as int) + 9 * ni <= 9 * ni * (wu as int)) by (nonlinear_arith)
                        requires
                            ni > 0,
                            0 <= j < wu as int,
                    ;
                    assert forall|p: int| 0 <= p < out@.len() implies out@[p] == snap_byte(sv, p) by {
                        if p < base {
                            assert(out@[p] == before[p]);
                        } else {
                            let k = p - base;
                            let q = p - 20 - 8 * ni;
                            assert(q == 9 * ni * (j as int) + 9 * (i2 as int) + k);
                            assert(0 <= 9 * (i2 as int) + k < 9 * ni);
                            assert(q == (j as int) * (9 * ni) + (9 * (i2 as int) + k))
                                by (nonlinear_arith)
                                requires
                                    q == 9 * ni * (j as int) + 9 * (i2 as int) + k,
                            ;
                            lemma_fundamental_div_mod_converse(
                                q,
                                9 * ni,
                                j as int,
                                9 * (i2 as int) + k,
                            );
                            lemma_fundamental_div_mod_converse(
                                9 * (i2 as int) + k,
                                9,
                                i2 as int,
                                k,
                            );
                            assert(p >= 20 + 8 * ni);
                            assert(p < 20 + 8 * ni + 9 * ni * (wu as int));
                            assert(snap_byte(sv, p) == (if k == 0 {
                                cell_flag(sv.rows[i2 as int].values[j as int])
                            } else {
                                spec_u64_to_le_bytes(
                                    cell_bits(sv.rows[i2 as int].values[j as int]),
                                )[k - 1]
                            }));
                            assert(sv.rows[i2 as int].values[j as int] == cell);
                            if k == 0 {
                                assert(out@[p] == cell_flag(cell));
                            } else {
                                assert(out@[p] == spec_u64_to_le_bytes(cell_bits(cell))[k - 1]);
                            }
                        }
                    }
                }
                i2 += 1;
            }
            proof {
                assert(9 * ni * (j as int) + 9 * ni == 9 * ni * ((j as int) + 1))
                    by (nonlinear_arith);
            }
            j += 1;
        }
        proof {
            assert(9 * ni * (wu as int) == 9 * (sv.width as int) * ni) by (nonlinear_arith)
                requires
                    wu as int == sv.width as int,
            ;
        }
    }
    proof {
        if ni == 0 {
            assert(9 * (sv.width as int) * 0 == 0) by (nonlinear_arith);
        }
        assert(out@.len() == snap_len(sv));
        assert(out@ =~= spec_encode(sv));
        lemma_snapshot_round_trip(sv);
    }
    out
}

/// The byte a cell contributes at offset `k` of its nine-byte slot.
proof fn lemma_cell_byte(s: SnapshotV, i: int, j: int, k: int)
    requires
        s.rows.len() > 0,
        0 <= i < s.rows.len(),
        0 <= j < s.width as int,
        0 <= k < 9,
    ensures
        snap_byte(s, 20 + 8 * s.rows.len() + 9 * s.rows.len() * j + 9 * i + k) == (if k == 0 {
            cell_flag(s.rows[i].values[j])
        } else {
            spec_u64_to_le_bytes(cell_bits(s.rows[i].values[j]))[k - 1]
        }),
{
    let n = s.rows.len() as int;
    let p = 20 + 8 * n + 9 * n * j + 9 * i + k;
    assert(9 * n * j >= 0) by (nonlinear_arith)
        requires
            n >= 0,
            j >= 0,
    ;
    let q = p - 20 - 8 * n;
    assert(q == j * (9 * n) + (9 * i + k)) by (nonlinear_arith)
        requires
            q == 9 * n * j + 9 * i + k,
    ;
    assert(0 <= 9 * i + k < 9 * n);
    lemma_fundamental_div_mod_converse(q, 9 * n, j, 9 * i + k);
    lemma_fundamental_div_mod_converse(9 * i + k, 9, i, k);
}

/// Round trip: encoding a well-formed snapshot yields bytes the decoder
/// accepts, and they denote exactly the snapshot that was written.
pub proof fn lemma_snapshot_round_trip(s: SnapshotV)
    requires
        snap_wf(s),
        s.rows.len() <= u64::MAX,
    ensures
        valid_snapshot_bytes(spec_encode(s)),
        snapshot_of(spec_encode(s)) == s,
{
    lemma_auto_spec_u64_to_from_le_bytes();
    let b = spec_encode(s);
    let n = s.rows.len() as int;
    let w = s.width as int;
    assert(9 * w * n >= 0) by (nonlinear_arith)
        requires
            w >= 0,
            n >= 0,
    ;
    assert(b.len() == 20 + 8 * n + 9 * w * n);
    assert(b.subrange(4, 12) =~= spec_u64_to_le_bytes(s.width));
    assert(width_of(b) == s.width);
    assert(b.subrange(12, 20) =~= spec_u64_to_le_bytes(n as u64));
    assert(count_of(b) == n as u64);
    assert(count_of(b) as int == n);
    assert forall|i: int| 0 <= i < n implies time_at(b, i) == s.rows[i].time by {
        assert forall|k: int|
            #![trigger spec_u64_to_le_bytes(s.rows[i].time as u64)[k]]
            0 <= k < 8 implies b[20 + 8 * i + k] == spec_u64_to_le_bytes(
            s.rows[i].time as u64,
        )[k] by {
            lemma_fundamental_div_mod_converse(8 * i + k, 8, i, k);
            assert(20 + 8 * i + k < 20 + 8 * n);
        }
        assert(b.subrange(20 + 8 * i, 20 + 8 * i + 8) =~= spec_u64_to_le_bytes(
            s.rows[i].time as u64,
        ));
        lemma_time_bits_round_trip(s.rows[i].time);
    }
    if n > 0 {
        assert(w >= 1);
        assert forall|i: int, j: int| 0 <= i < n && 0 <= j < w implies {
            &&& flag_at(b, i, j) == cell_flag(s.rows[i].values[j])
            &&& cell_value_at(b, i, j) == cell_bits(s.rows[i].values[j])
        } by {
            let base = 20 + 8 * n + 9 * n * j + 9 * i;
            assert(base == cell_base(b, i, j));
            assert(9 * n * j + 9 * n <= 9 * n * w) by (nonlinear_arith)
                requires
                    n >= 1,
                    0 <= j < w,
            ;
            assert(9 * n * w == 9 * w * n) by (nonlinear_arith);
            assert(9 * n * j >= 0) by (nonlinear_arith)
                requires
                    n >= 0,
                    j >= 0,
            ;
            assert(base + 9 <= b.len());
            lemma_cell_byte(s, i, j, 0);
            assert(flag_at(b, i, j) == cell_flag(s.rows[i].values[j]));
            assert forall|k: int|
                #![trigger spec_u64_to_le_bytes(cell_bits(s.rows[i].values[j]))[k]]
                0 <= k < 8 implies b[base + 1 + k] == spec_u64_to_le_bytes(
                cell_bits(s.rows[i].values[j]),
            )[k] by {
                lemma_cell_byte(s, i, j, k + 1);
            }
            assert(b.subrange(base + 1, base + 9) =~= spec_u64_to_le_bytes(
                cell_bits(s.rows[i].values[j]),
            ));
        }
    }
    assert(valid_snapshot_bytes(b)) by {
        assert forall|i: int, j: int|
            #![trigger flag_at(b, i, j)]
            0 <= i < n && 0 <= j < w implies {
            &&& flag_at(b, i, j) <= 1
            &&& (flag_at(b, i, j) == 0 ==> cell_value_at(b, i, j) == 0)
        } by {
            match s.rows[i].values[j] {
                Some(_) => {
                    assert(flag_at(b, i, j) == 1);
                },
                None => {
                    assert(flag_at(b, i, j) == 0);
                    assert(cell_value_at(b, i, j) == 0);
                },
            }
        }
    }
    assert forall|i: int| 0 <= i < n implies #[trigger] snapshot_of(b).rows[i] == s.rows[i] by {
        assert(snapshot_of(b).rows[i].values =~= s.rows[i].values) by {
            assert(s.rows[i].values.len() == w);
            assert forall|j: int| 0 <= j < w implies cell_at(b, i, j) == s.rows[i].values[j] by {
                match s.rows[i].values[j] {
                    Some(_) => {
                        assert(flag_at(b, i, j) == 1);
                    },
                    None => {
                        assert(flag_at(b, i, j) == 0);
                    },
                }
            }
        }
        assert(snapshot_of(b).rows[i] =~= s.rows[i]);
    }
    assert(snapshot_of(b).rows =~= s.rows);
    assert(snapshot_of(b) =~= s);
}

/// A value's bits survive the cast to a time and back.
proof fn lemma_u64_bits_round_trip(x: u64)
    ensures
        ((x as i64) as u64) == x,
{
    assert(((x as i64) as u64) == x) by (bit_vector);
}

/// Converse of the round trip: every byte string the decoder accepts is the
/// encoding of the snapshot it denotes. The format has one spelling per
/// snapshot, so re-encoding a decoded file reproduces it byte for byte.
pub proof fn lemma_valid_bytes_canonical(b: Seq<u8>)
    requires
        valid_snapshot_bytes(b),
    ensures
        snap_wf(snapshot_of(b)),
        spec_encode(snapshot_of(b)) == b,
{
    lemma_auto_spec_u64_to_from_le_bytes();
    let s = snapshot_of(b);
    let n = count_of(b) as int;
    let w = width_of(b) as int;
    assert(s.rows.len() == n);
    assert forall|t: int| 0 <= t < s.rows.len() - 1 implies (#[trigger] s.rows[t]).time
        < s.rows[t + 1].time by {
        assert(time_at(b, t) < time_at(b, t + 1));
    }
    crate::rows::lemma_adjacent_sorted(s.rows);
    assert(rows_uniform_width(s.rows, w));
    assert(snap_wf(s));
    assert(snap_len(s) == b.len());
    assert forall|p: int| 0 <= p < b.len() implies snap_byte(s, p) == b[p] by {
        if p < 4 {
        } else if p < 12 {
            assert(b.subrange(4, 12).len() == 8);
            assert(spec_u64_to_le_bytes(s.width) == b.subrange(4, 12));
            assert(snap_byte(s, p) == b.subrange(4, 12)[p - 4]);
        } else if p < 20 {
            assert(b.subrange(12, 20).len() == 8);
            assert(n as u64 == count_of(b));
            assert(spec_u64_to_le_bytes(n as u64) == b.subrange(12, 20));
            assert(snap_byte(s, p) == b.subrange(12, 20)[p - 12]);
        } else if p < 20 + 8 * n {
            lemma_fundamental_div_mod(p - 20, 8);
            lemma_mod_bound(p - 20, 8);
            let i = (p - 20) / 8;
            let k = (p - 20) % 8;
            assert(0 <= i < n);
            let sub = b.subrange(20 + 8 * i, 20 + 8 * i + 8);
            assert(sub.len() == 8);
            lemma_u64_bits_round_trip(spec_u64_from_le_bytes(sub));
            assert(s.rows[i].time == time_at(b, i));
            assert((s.rows[i].time as u64) == spec_u64_from_le_bytes(sub));
            assert(spec_u64_to_le_bytes(spec_u64_from_le_bytes(sub)) == sub);
            assert(snap_byte(s, p) == sub[k]);
            assert(sub[k] == b[20 + 8 * i + k]);
        } else {
            let q = p - 20 - 8 * n;
            assert(0 <= q < 9 * w * n);
            assert(n > 0 && w > 0) by (nonlinear_arith)
                requires
                    9 * w * n > 0,
                    n >= 0,
                    w >= 0,
            ;
            lemma_fundamental_div_mod(q, 9 * n);
            lemma_mod_bound(q, 9 * n);
            let j = q / (9 * n);
            let c = q % (9 * n);
            lemma_fundamental_div_mod(c, 9);
            lemma_mod_bound(c, 9);
            let i = c / 9;
            let k = c % 9;
            assert(0 <= c < 9 * n);
            assert(0 <= i < n);
            assert(0 <= j < w) by (nonlinear_arith)
                requires
                    q == (9 * n) * j + c,
                    0 <= c < 9 * n,
                    0 <= q < 9 * w * n,
                    n > 0,
            ;
            assert(p == 20 + 8 * n + 9 * n * j + 9 * i + k) by (nonlinear_arith)
                requires
                    p == 20 + 8 * n + q,
                    q == (9 * n) * j + c,
                    c == 9 * i + k,
            ;
            assert(cell_base(b, i, j) == 20 + 8 * n + 9 * n * j + 9 * i);
            let base = cell_base(b, i, j);
            let cell = cell_at(b, i, j);
            assert(s.rows[i].values[j] == cell);
            assert(flag_at(b, i, j) <= 1);
            if k == 0 {
                assert(b[p] == flag_at(b, i, j));
                if flag_at(b, i, j) == 1 {
                    assert(cell_flag(cell) == 1);
                } else {
                    assert(cell_flag(cell) == 0);
                }
                assert(snap_byte(s, p) == cell_flag(cell));
            } else {
                assert(9 * n * j + 9 * i + 9 <= 9 * w * n) by (nonlinear_arith)
                    requires
                        n > 0,
                        0 <= i < n,
                        0 <= j < w,
                ;
                assert(base + 9 <= b.len());
                let sub = b.subrange(base + 1, base + 9);
                assert(sub.len() == 8);
                assert(spec_u64_to_le_bytes(spec_u64_from_le_bytes(sub)) == sub);
                if flag_at(b, i, j) == 1 {
                    assert(cell_bits(cell) == cell_value_at(b, i, j));
                } else {
                    assert(cell_value_at(b, i, j) == 0);
                    assert(cell_bits(cell) == 0);
                }
                assert(spec_u64_to_le_bytes(cell_bits(cell)) == sub);
                assert(snap_byte(s, p) == sub[k - 1]);
                assert(sub[k - 1] == b[base + k]);
            }
        }
    }
    assert(spec_encode(s) =~= b);
}

/// Reads a snapshot back from its columnar file format.
///
/// Returns the decoded snapshot exactly when the bytes are a valid encoding,
/// and `SnapshotCorrupt` for every other byte string.
#[verifier::loop_isolation(false)]
#[verifier::rlimit(100)]
pub fn decode_snapshot(bytes: &Vec<u8>) -> (r: Result<Snapshot, MergeError>)
    ensures
        ({
            match r {
                Ok(snap) => valid_snapshot_bytes(bytes@) && snap.deep_view() == snapshot_of(bytes@)
                    && snap_wf(snap.deep_view()) && bytes@ == spec_encode(snap.deep_view()),
                Err(e) => !valid_snapshot_bytes(bytes@) && e == MergeError::SnapshotCorrupt,
            }
        }),
{
    let len = bytes.len();
    if len < 20 {
        return Err(MergeError::SnapshotCorrupt);
    }
    if bytes[0] != MAGIC_0 || bytes[1] != MAGIC_1 || bytes[2] != MAGIC_2 || bytes[3] != MAGIC_3 {
        return Err(MergeError::SnapshotCorrupt);
    }
    let w64 = read_u64(bytes, 4);
    let n64 = read_u64(bytes, 12);
    proof {
        assert(w64 == width_of(bytes@));
        assert(n64 == count_of(bytes@));
    }
    let ghost wi = w64 as int;
    let ghost ni = n64 as int;
    if n64 == 0 {
        proof {
            assert(9 * wi * 0 == 0) by (nonlinear_arith);
        }
        if len != 20 {
            return Err(MergeError::SnapshotCorrupt);
        }
        let snap = Snapshot { width: w64, rows: Vec::new() };
        proof {
            assert(valid_snapshot_bytes(bytes@));
            assert(snap.deep_view().rows =~= snapshot_of(bytes@).rows);
            assert(snap.deep_view() =~= snapshot_of(bytes@));
            lemma_valid_bytes_canonical(bytes@);
        }
        return Ok(snap);
    }
    if w64 == 0 {
        return Err(MergeError::SnapshotCorrupt);
    }
    proof {
        assert(wi * ni <= 0xffffffffffffffff * 0xffffffffffffffff) by (nonlinear_arith)
            requires
                0 <= wi <= 0xffffffffffffffff,
                0 <= ni <= 0xffffffffffffffff,
        ;
    }
    let prod: u128 = (w64 as u128) * (n64 as u128);
    let len128: u128 = len as u128;
    if prod > len128 {
        proof {
            if valid_snapshot_bytes(bytes@) {
                assert(bytes@.len() == 20 + 8 * ni + 9 * wi * ni);
                assert(wi * ni <= 9 * wi * ni) by (nonlinear_arith)
                    requires
                        wi >= 0,
                        ni >= 0,
                ;
            }
        }
        return Err(MergeError::SnapshotCorrupt);
    }
    let expected: u128 = 20 + 8 * (n64 as u128) + 9 * prod;
    proof {
        assert(9 * (wi * ni) == 9 * wi * ni) by (nonlinear_arith);
    }
    if len128 != expected {
        return Err(MergeError::SnapshotCorrupt);
    }
    proof {
        assert(bytes@.len() == 20 + 8 * ni + 9 * wi * ni);
        assert(9 * wi * ni >= 9 * ni) by (nonlinear_arith)
            requires
                wi >= 1,
                ni >= 0,
        ;
        assert(wi <= wi * ni && wi * ni <= 9 * wi * ni) by (nonlinear_arith)
            requires
                wi >= 0,
                ni >= 1,
        ;
    }
    let wu: usize = w64 as usize;
    let nu: usize = n64 as usize;
    let cells_start: usize = 20 + 8 * nu;
    let stride: usize = 9 * nu;
    let mut rows: Vec<Row> = Vec::new();
    let mut prev_t: i64 = 0;
    let mut i: usize = 0;
    while i < nu
        invariant
            i <= nu,
            rows@.len() == i as int,
            forall|t: int|
                0 <= t < i as int ==> #[trigger] rows.deep_view()[t] == snapshot_of(
                    bytes@,
                ).rows[t],
            i > 0 ==> prev_t == time_at(bytes@, i as int - 1),
            forall|t: int|
                0 <= t < i as int - 1 ==> #[trigger] time_at(bytes@, t) < time_at(bytes@, t + 1),
            forall|i2: int, j: int|
                #![trigger flag_at(bytes@, i2, j)]
                0 <= i2 < i as int && 0 <= j < wi ==> {
                    &&& flag_at(bytes@, i2, j) <= 1
                    &&& (flag_at(bytes@, i2, j) == 0 ==> cell_value_at(bytes@, i2, j) == 0)
                },
        decreases nu - i,
    {
        let t_bits = read_u64(bytes, 20 + 8 * i);
        let t = t_bits as i64;
        proof {
            assert(t == time_at(bytes@, i as int));
        }
        if i > 0 && !(prev_t < t) {
            proof {
                if valid_snapshot_bytes(bytes@) {
                    assert(time_at(bytes@, i as int - 1) < time_at(bytes@, i as int));
                }
            }
            return Err(MergeError::SnapshotCorrupt);
        }
        let mut vals: Vec<Option<u64>> = Vec::new();
        let mut j: usize = 0;
        while j < wu
            invariant
                j <= wu,
                i < nu,
                vals@.len() == j as int,
                forall|jj: int|
                    0 <= jj < j as int ==> vals@[jj] == #[trigger] cell_at(bytes@, i as int, jj),
                forall|jj: int|
                    #![trigger flag_at(bytes@, i as int, jj)]
                    0 <= jj < j as int ==> {
                        &&& flag_at(bytes@, i as int, jj) <= 1
                        &&& (flag_at(bytes@, i as int, jj) == 0 ==> cell_value_at(
                            bytes@,
                            i as int,
                            jj,
                        ) == 0)
                    },
            decreases wu - j,
        {
            proof {
                assert(9 * ni * (j as int) + 9 * (i as int) + 9 <= 9 * ni * wi)
                    by (nonlinear_arith)
                    requires
                        ni >= 1,
                        0 <= (j as int) < wi,
                        0 <= (i as int) < ni,
                ;
                assert(9 * ni * wi == 9 * wi * ni) by (nonlinear_arith);
                assert(9 * ni * (j as int) >= 0) by (nonlinear_arith)
                    requires
                        ni >= 0,
                        j as int >= 0,
                ;
            }
            let base = cells_start + stride * j + 9 * i;
            proof {
                assert(base as int == cell_base(bytes@, i as int, j as int));
            }
            let flag = bytes[base];
            let v = read_u64(bytes, base + 1);
            proof {
                assert(flag == flag_at(bytes@, i as int, j as int));
                assert(v == cell_value_at(bytes@, i as int, j as int));
            }
            if flag > 1 {
                return Err(MergeError::SnapshotCorrupt);
            }
            if flag == 0 && v != 0 {
                return Err(MergeError::SnapshotCorrupt);
            }
            let cell = if flag == 1 {
                Some(v)
            } else {
                None
            };
            proof {
                assert(cell == cell_at(bytes@, i as int, j as int));
            }
            vals.push(cell);
            j += 1;
        }
        let ghost rows_before = rows.deep_view();
        let ghost rows_exec_before = rows@;
        let row = Row { time: t, values: vals };
        rows.push(row);
        proof {
            assert forall|tt: int| 0 <= tt < i as int + 1 implies #[trigger] rows.deep_view()[tt]
                == snapshot_of(bytes@).rows[tt] by {
                assert(rows.deep_view()[tt] == rows@[tt].deep_view());
                if tt < i as int {
                    assert(rows@[tt] == rows_exec_before[tt]);
                    assert(rows_before[tt] == rows_exec_before[tt].deep_view());
                    assert(rows_before[tt] == snapshot_of(bytes@).rows[tt]);
                } else {
                    assert(rows@[tt] == row);
                    assert(row.deep_view().values =~= snapshot_of(bytes@).rows[tt].values);
                    assert(row.deep_view() =~= snapshot_of(bytes@).rows[tt]);
                }
            }
        }
        prev_t = t;
        i += 1;
    }
    proof {
        assert(valid_snapshot_bytes(bytes@));
    }
    let snap = Snapshot { width: w64, rows };
    proof {
        assert(snap.deep_view().rows =~= snapshot_of(bytes@).rows);
        assert(snap.deep_view() =~= snapshot_of(bytes@));
        let sv = snap.deep_view();
        assert forall|t: int| 0 <= t < sv.rows.len() - 1 implies (#[trigger] sv.rows[t]).time
            < sv.rows[t + 1].time by {
            assert(time_at(bytes@, t) < time_at(bytes@, t + 1));
        }
        crate::rows::lemma_adjacent_sorted(sv.rows);
        assert(rows_uniform_width(sv.rows, wi));
        assert(snap_wf(sv));
        lemma_valid_bytes_canonical(bytes@);
    }
    Ok(snap)
}

} // verus!
