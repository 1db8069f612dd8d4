//! The payload decoder's verified core: splitting a raw payload into
//! comma-separated fields with surrounding whitespace removed, and assembling
//! a record from the per-field parse results.
//!
//! Parsing one trimmed field into a finite 64-bit float is the caller's step
//! (the engine never touches floating point); a field that fails to parse
//! comes back as `None` and makes the whole entry `MalformedPayload`, so one
//! bad entry never aborts a drain cycle.

use vstd::prelude::*;
use crate::rows::{MergeError, Record};

verus! {

/// Field separator in a payload: a comma.
pub const FIELD_SEPARATOR: u8 = 44;

/// The whitespace trimmed around a field: the ASCII whitespace bytes — space,
/// tab, newline, vertical tab, form feed, carriage return. Trimming is a
/// byte-level decision, so multi-byte whitespace is deliberately left in
/// place; a field carrying it does not parse as a number downstream, and the
/// entry is reported malformed rather than silently altered.
pub open spec fn is_space(b: u8) -> bool {
    b == 32 || b == 9 || b == 10 || b == 11 || b == 12 || b == 13
}

/// The payload split at commas: fields in order, separators dropped. An empty
/// byte string still holds one (empty) field, as splitting does.
pub open spec fn raw_fields(s: Seq<u8>) -> Seq<Seq<u8>>
    decreases s.len(),
{
    if s.len() == 0 {
        seq![Seq::<u8>::empty()]
    } else if s[0] == FIELD_SEPARATOR {
        seq![Seq::<u8>::empty()] + raw_fields(s.skip(1))
    } else {
        let rest = raw_fields(s.skip(1));
        seq![seq![s[0]] + rest[0]] + rest.skip(1)
    }
}

/// Leading whitespace removed.
pub open spec fn trim_front(s: Seq<u8>) -> Seq<u8>
    decreases s.len(),
{
    if s.len() > 0 && is_space(s[0]) {
        trim_front(s.skip(1))
    } else {
        s
    }
}

/// Trailing whitespace removed.
pub open spec fn trim_back(s: Seq<u8>) -> Seq<u8>
    decreases s.len(),
{
    if s.len() > 0 && is_space(s.last()) {
        trim_back(s.drop_last())
    } else {
        s
    }
}

/// Surrounding whitespace removed.
pub open spec fn trim_spaces(s: Seq<u8>) -> Seq<u8> {
    trim_back(trim_front(s))
}

/// What decoding a payload yields: nothing for an empty payload (a
/// zero-length value vector, left for the compactor to reject), otherwise its
/// comma-separated fields, each trimmed.
pub open spec fn payload_fields(s: Seq<u8>) -> Seq<Seq<u8>> {
    if s.len() == 0 {
        Seq::empty()
    } else {
        raw_fields(s).map_values(|f: Seq<u8>| trim_spaces(f))
    }
}

/// A split always yields at least one field.
proof fn lemma_raw_fields_len(s: Seq<u8>)
    ensures
        raw_fields(s).len() >= 1,
    decreases s.len(),
{
    if s.len() > 0 {
        lemma_raw_fields_len(s.skip(1));
    }
}

/// The fields the loop still owes: the closed ones, the open one prefixed to
/// the first remaining field, and the rest.
spec fn attach(done: Seq<Seq<u8>>, cur: Seq<u8>, rest: Seq<Seq<u8>>) -> Seq<Seq<u8>>
    recommends
        rest.len() >= 1,
{
    done + seq![cur + rest[0]] + rest.skip(1)
}

/// Whether `b` counts as whitespace around a field.
fn is_space_byte(b: u8) -> (r: bool)
    ensures
        r == is_space(b),
{
    b == 32 || b == 9 || b == 10 || b == 11 || b == 12 || b == 13
}

/// Removes the whitespace around one raw field.
#[verifier::loop_isolation(false)]
fn trim_field(field: &Vec<u8>) -> (r: Vec<u8>)
    ensures
        r@ == trim_spaces(field@),
{
    let ghost s = field@;
    let len = field.len();
    let mut a: usize = 0;
    proof {
        assert(s.skip(0) =~= s);
    }
    while a < len && is_space_byte(field[a])
        invariant
            a <= len,
            trim_front(s) == trim_front(s.skip(a as int)),
        decreases len - a,
    {
        proof {
            assert(s.skip(a as int)[0] == s[a as int]);
            assert(s.skip(a as int).skip(1) =~= s.skip(a as int + 1));
        }
        a += 1;
    }
    proof {
        if a < len {
            assert(!is_space(s.skip(a as int)[0]));
        } else {
            assert(s.skip(a as int) =~= Seq::<u8>::empty());
        }
        assert(trim_front(s) == s.skip(a as int));
    }
    let ghost u = s.skip(a as int);
    let mut b: usize = len;
    proof {
        assert(u.take(len - a as int) =~= u);
    }
    while b > a && is_space_byte(field[b - 1])
        invariant
            a <= b <= len,
            trim_back(u) == trim_back(u.take(b as int - a as int)),
        decreases b,
    {
        proof {
            let m = b as int - a as int;
            assert(u.take(m).len() == m);
            assert(u.take(m).last() == s[b as int - 1]);
            assert(u.take(m).drop_last() =~= u.take(m - 1));
        }
        b -= 1;
    }
    proof {
        let m = b as int - a as int;
        if b > a {
            assert(u.take(m).last() == s[b as int - 1]);
            assert(!is_space(u.take(m).last()));
        } else {
            assert(u.take(0) =~= Seq::<u8>::empty());
        }
        assert(trim_back(u.take(m)) == u.take(m));
        assert(trim_spaces(s) == u.take(m));
        assert(u.take(m) =~= s.subrange(a as int, b as int));
    }
    let mut r: Vec<u8> = Vec::new();
    let mut k: usize = a;
    while k < b
        invariant
            a <= k <= b,
            r@.len() == k - a,
            forall|t: int| 0 <= t < r@.len() ==> r@[t] == s[a as int + t],
        decreases b - k,
    {
        r.push(field[k]);
        k += 1;
    }
    proof {
        assert(r@ =~= s.subrange(a as int, b as int));
    }
    r
}

/// Splits a payload into its comma-separated fields, each trimmed of
/// surrounding whitespace. An empty payload yields no fields at all, so an
/// empty entry becomes a zero-length value vector downstream.
#[verifier::loop_isolation(false)]
pub fn split_fields(payload: &Vec<u8>) -> (r: Vec<Vec<u8>>)
    ensures
        r.deep_view() == payload_fields(payload@),
{
    let ghost s = payload@;
    let len = payload.len();
    if len == 0 {
        let empty: Vec<Vec<u8>> = Vec::new();
        proof {
            assert(empty.deep_view() =~= payload_fields(s));
        }
        return empty;
    }
    let mut done: Vec<Vec<u8>> = Vec::new();
    let mut cur: Vec<u8> = Vec::new();
    let mut p: usize = 0;
    proof {
        lemma_raw_fields_len(s);
        assert(s.skip(0) =~= s);
        let rest = raw_fields(s);
        assert(Seq::<u8>::empty() + rest[0] =~= rest[0]);
        assert(seq![rest[0]] + rest.skip(1) =~= rest);
        assert(attach(done.deep_view(), cur@, rest) =~= rest);
    }
    while p < len
        invariant
            p <= len,
            attach(done.deep_view(), cur@, raw_fields(s.skip(p as int))) == raw_fields(s),
        decreases len - p,
    {
        let c = payload[p];
        let ghost rest = raw_fields(s.skip(p as int + 1));
        let ghost done0 = done.deep_view();
        let ghost cur0 = cur@;
        proof {
            lemma_raw_fields_len(s.skip(p as int + 1));
            lemma_raw_fields_len(s.skip(p as int));
            assert(s.skip(p as int)[0] == c);
            assert(s.skip(p as int).skip(1) =~= s.skip(p as int + 1));
        }
        if c == FIELD_SEPARATOR {
            let ghost donev0 = done@;
            let ghost cur_vec = cur;
            done.push(cur);
            cur = Vec::new();
            proof {
                assert(raw_fields(s.skip(p as int)) == seq![Seq::<u8>::empty()] + rest);
                assert(done.deep_view() =~= done0.push(cur0)) by {
                    assert forall|t: int| 0 <= t < done@.len() implies done.deep_view()[t]
                        == done0.push(cur0)[t] by {
                        assert(done.deep_view()[t] == done@[t].deep_view());
                        if t < donev0.len() {
                            assert(done@[t] == donev0[t]);
                        } else {
                            assert(done@[t] == cur_vec);
                            assert(cur_vec.deep_view() =~= cur0);
                        }
                    }
                }
                assert(attach(done0, cur0, seq![Seq::<u8>::empty()] + rest) =~= done0 + seq![cur0]
                    + rest) by {
                    assert((seq![Seq::<u8>::empty()] + rest)[0] == Seq::<u8>::empty());
                    assert((seq![Seq::<u8>::empty()] + rest).skip(1) =~= rest);
                    assert(cur0 + Seq::<u8>::empty() =~= cur0);
                }
                assert(attach(done.deep_view(), cur@, rest) =~= done0 + seq![cur0] + rest) by {
                    assert(Seq::<u8>::empty() + rest[0] =~= rest[0]);
                    assert(done0.push(cur0) + seq![rest[0]] + rest.skip(1) =~= done0 + seq![cur0]
                        + (seq![rest[0]] + rest.skip(1)));
                    assert(seq![rest[0]] + rest.skip(1) =~= rest);
                }
                assert(attach(done.deep_view(), cur@, raw_fields(s.skip(p as int + 1)))
                    == raw_fields(s));
            }
        } else {
            cur.push(c);
            proof {
                assert(raw_fields(s.skip(p as int)) == seq![seq![c] + rest[0]] + rest.skip(1));
                assert(attach(done0, cur0, seq![seq![c] + rest[0]] + rest.skip(1)) =~= attach(
                    done0,
                    cur0.push(c),
                    rest,
                )) by {
                    assert((seq![seq![c] + rest[0]] + rest.skip(1))[0] == seq![c] + rest[0]);
                    assert((seq![seq![c] + rest[0]] + rest.skip(1)).skip(1) =~= rest.skip(1));
                    assert(cur0 + (seq![c] + rest[0]) =~= cur0.push(c) + rest[0]);
                }
                assert(cur@ == cur0.push(c));
                assert(attach(done.deep_view(), cur@, raw_fields(s.skip(p as int + 1)))
                    == raw_fields(s));
            }
        }
        p += 1;
    }
    let ghost done1 = done.deep_view();
    let ghost donev1 = done@;
    let ghost cur1 = cur@;
    let ghost cur_vec1 = cur;
    done.push(cur);
    proof {
        assert(s.skip(len as int) =~= Seq::<u8>::empty());
        assert(raw_fields(Seq::<u8>::empty()) == seq![Seq::<u8>::empty()]);
        assert(done.deep_view() =~= done1.push(cur1)) by {
            assert forall|t: int| 0 <= t < done@.len() implies done.deep_view()[t]
                == done1.push(cur1)[t] by {
                assert(done.deep_view()[t] == done@[t].deep_view());
                if t < donev1.len() {
                    assert(done@[t] == donev1[t]);
                } else {
                    assert(done@[t] == cur_vec1);
                    assert(cur_vec1.deep_view() =~= cur1);
                }
            }
        }
        assert(attach(done1, cur1, seq![Seq::<u8>::empty()]) =~= done1.push(cur1)) by {
            assert(cur1 + Seq::<u8>::empty() =~= cur1);
            assert(seq![Seq::<u8>::empty()].skip(1) =~= Seq::<Seq<u8>>::empty());
        }
        assert(done.deep_view() == raw_fields(s));
    }
    let mut out: Vec<Vec<u8>> = Vec::new();
    let mut k: usize = 0;
    let fields_total = done.len();
    while k < fields_total
        invariant
            k <= fields_total,
            out@.len() == k as int,
            forall|t: int|
                0 <= t < k as int ==> out.deep_view()[t] == trim_spaces(
                    #[trigger] done.deep_view()[t],
                ),
        decreases fields_total - k,
    {
        let ghost out0 = out.deep_view();
        let ghost outv0 = out@;
        let trimmed = trim_field(&done[k]);
        let ghost trimmed_vec = trimmed;
        proof {
            assert(done.deep_view()[k as int] == done@[k as int].deep_view());
            assert(done@[k as int].deep_view() =~= done@[k as int]@);
        }
        out.push(trimmed);
        proof {
            assert forall|t: int| 0 <= t < k as int + 1 implies out.deep_view()[t] == trim_spaces(
                #[trigger] done.deep_view()[t],
            ) by {
                assert(out.deep_view()[t] == out@[t].deep_view());
                if t < k as int {
                    assert(out@[t] == outv0[t]);
                    assert(out.deep_view()[t] == out0[t]);
                } else {
                    assert(out@[t] == trimmed_vec);
                    assert(trimmed_vec.deep_view() =~= trimmed_vec@);
                }
            }
        }
        k += 1;
    }
    proof {
        assert(out.deep_view() =~= raw_fields(s).map_values(|f: Seq<u8>| trim_spaces(f)));
    }
    out
}

/// Assembles the record for one log entry from its destination, its
/// timestamp, and the per-field parse results, `None` marking a field that did
/// not parse as a finite number.
///
/// Any failed field makes the whole entry `MalformedPayload` — the entry is
/// dropped, nothing else in the cycle is. No fields at all make a record with
/// a zero-length value vector, which the compactor then rejects.
pub fn decode_row(destination: String, time: i64, parsed: Vec<Option<u64>>) -> (r: Result<
    Record,
    MergeError,
>)
    ensures
        ({
            match r {
                Ok(rec) => {
                    &&& forall|i: int| 0 <= i < parsed@.len() ==> #[trigger] parsed@[i] is Some
                    &&& rec.destination@ == destination@
                    &&& rec.time == time
                    &&& rec.values@.len() == parsed@.len()
                    &&& forall|i: int|
                        0 <= i < parsed@.len() ==> #[trigger] parsed@[i] == Some(rec.values@[i])
                },
                Err(e) => {
                    &&& exists|i: int| 0 <= i < parsed@.len() && #[trigger] parsed@[i] is None
                    &&& e == MergeError::MalformedPayload
                },
            }
        }),
{
    let mut values: Vec<u64> = Vec::new();
    let total = parsed.len();
    let mut i: usize = 0;
    while i < total
        invariant
            i <= total,
            total == parsed@.len(),
            values@.len() == i as int,
            forall|t: int| 0 <= t < i as int ==> #[trigger] parsed@[t] == Some(values@[t]),
        decreases total - i,
    {
        match parsed[i] {
            Some(v) => {
                values.push(v);
            },
            None => {
                return Err(MergeError::MalformedPayload);
            },
        }
        i += 1;
    }
    Ok(Record { destination, time, values })
}

} // verus!
