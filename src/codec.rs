//! The binary layout of the durability log, stated over bytes, and its
//! little-endian integer fields.
//!
//! A record is laid out as
//! `[key_len: 8][tombstone: 1][value_len: 8, absent for a tombstone]`
//! `[key][value, absent for a tombstone][timestamp: 16]`,
//! every integer little-endian.
use vstd::prelude::*;
use crate::record::Record;

verus! {

pub open spec fn pow256(n: nat) -> nat
    decreases n,
{
    if n == 0 {
        1
    } else {
        256 * pow256((n - 1) as nat)
    }
}

/// The `n` low bytes of `v`, least significant first.
pub open spec fn le_bytes(v: nat, n: nat) -> Seq<u8>
    decreases n,
{
    if n == 0 {
        Seq::empty()
    } else {
        seq![(v % 256) as u8] + le_bytes(v / 256, (n - 1) as nat)
    }
}

/// The number that `s` spells least significant byte first.
pub open spec fn le_value(s: Seq<u8>) -> nat
    decreases s.len(),
{
    if s.len() == 0 {
        0
    } else {
        (s[0] + 256 * le_value(s.drop_first())) as nat
    }
}

/// The bytes of a record written by a set.
pub open spec fn set_bytes(key: Seq<u8>, value: Seq<u8>, timestamp: u128) -> Seq<u8> {
    le_bytes(key.len(), 8) + seq![0u8] + le_bytes(value.len(), 8) + key + value + le_bytes(
        timestamp as nat,
        16,
    )
}

/// The bytes of a record written by a delete.
pub open spec fn delete_bytes(key: Seq<u8>, timestamp: u128) -> Seq<u8> {
    le_bytes(key.len(), 8) + seq![1u8] + key + le_bytes(timestamp as nat, 16)
}

pub open spec fn value_or_empty(value: Option<Seq<u8>>) -> Seq<u8> {
    match value {
        Some(v) => v,
        None => Seq::empty(),
    }
}

/// The bytes that the log holds for a record.
pub open spec fn record_bytes(r: Record) -> Seq<u8> {
    if r.deleted {
        delete_bytes(r.key, r.timestamp)
    } else {
        set_bytes(r.key, value_or_empty(r.value), r.timestamp)
    }
}

/// The bytes of a log that holds `rs` in order.
pub open spec fn log_bytes(rs: Seq<Record>) -> Seq<u8>
    decreases rs.len(),
{
    if rs.len() == 0 {
        Seq::empty()
    } else {
        record_bytes(rs[0]) + log_bytes(rs.drop_first())
    }
}

/// The record at the start of `b` and the number of bytes it spans, or
/// `None` where `b` ends before a whole record.
#[verifier::opaque]
pub open spec fn parse_record(b: Seq<u8>) -> Option<(Record, nat)> {
    if b.len() < 9 {
        None
    } else {
        let klen = le_value(b.subrange(0, 8)) as int;
        if b[8] != 0 {
            let end = 9 + klen + 16;
            if b.len() < end {
                None
            } else {
                Some(
                    (
                        Record {
                            key: b.subrange(9, 9 + klen),
                            value: None,
                            timestamp: le_value(b.subrange(9 + klen, end)) as u128,
                            deleted: true,
                        },
                        end as nat,
                    ),
                )
            }
        } else if b.len() < 17 {
            None
        } else {
            let vlen = le_value(b.subrange(9, 17)) as int;
            let end = 17 + klen + vlen + 16;
            if b.len() < end {
                None
            } else {
                Some(
                    (
                        Record {
                            key: b.subrange(17, 17 + klen),
                            value: Some(b.subrange(17 + klen, 17 + klen + vlen)),
                            timestamp: le_value(b.subrange(17 + klen + vlen, end)) as u128,
                            deleted: false,
                        },
                        end as nat,
                    ),
                )
            }
        }
    }
}

/// The records of a log: every whole record from the start, up to the
/// first one that the bytes cut short.
pub open spec fn parse_log(b: Seq<u8>) -> Seq<Record>
    decreases b.len(),
{
    match parse_record(b) {
        Some((r, n)) => if 0 < n <= b.len() {
            seq![r] + parse_log(b.subrange(n as int, b.len() as int))
        } else {
            Seq::empty()
        },
        None => Seq::empty(),
    }
}

pub proof fn lemma_le_bytes_len(v: nat, n: nat)
    ensures
        le_bytes(v, n).len() == n,
    decreases n,
{
    if n > 0 {
        lemma_le_bytes_len(v / 256, (n - 1) as nat);
    }
}

pub proof fn lemma_le_round_trip(v: nat, n: nat)
    requires
        v < pow256(n),
    ensures
        le_value(le_bytes(v, n)) == v,
    decreases n,
{
    if n > 0 {
        let p = pow256((n - 1) as nat);
        assert(v / 256 < p) by (nonlinear_arith)
            requires
                v < 256 * p,
        ;
        lemma_le_round_trip(v / 256, (n - 1) as nat);
        let s = le_bytes(v, n);
        assert(s.drop_first() =~= le_bytes(v / 256, (n - 1) as nat));
        assert(v % 256 + 256 * (v / 256) == v) by (nonlinear_arith);
    }
}

pub proof fn lemma_le_value_bound(s: Seq<u8>)
    ensures
        le_value(s) < pow256(s.len()),
    decreases s.len(),
{
    if s.len() > 0 {
        lemma_le_value_bound(s.drop_first());
        let a = le_value(s.drop_first());
        let p = pow256(s.drop_first().len());
        let b = s[0] as nat;
        assert(b + 256 * a < 256 * p) by (nonlinear_arith)
            requires
                a < p,
                b < 256,
        ;
    }
}

pub proof fn lemma_pow256_facts()
    ensures
        pow256(8) == 0x1_0000_0000_0000_0000,
        pow256(16) == 0x1_0000_0000_0000_0000_0000_0000_0000_0000,
{
    reveal_with_fuel(pow256, 17);
}

/// Appends the `n` low bytes of `v`, least significant first.
pub(crate) fn push_le(out: &mut Vec<u8>, v: u128, n: usize)
    ensures
        final(out)@ == old(out)@ + le_bytes(v as nat, n as nat),
{
    let mut x: u128 = v;
    let mut i: usize = 0;
    while i < n
        invariant
            i <= n,
            old(out)@ + le_bytes(v as nat, n as nat) == out@ + le_bytes(
                x as nat,
                (n - i) as nat,
            ),
        decreases n - i,
    {
        let ghost before = out@;
        assert(le_bytes(x as nat, (n - i) as nat) =~= seq![(x % 256) as u8] + le_bytes(
            (x / 256) as nat,
            (n - i - 1) as nat,
        ));
        out.push((x % 256) as u8);
        assert(out@ =~= before + seq![(x % 256) as u8]);
        x = x / 256;
        i = i + 1;
    }
    assert(le_bytes(x as nat, 0) =~= Seq::<u8>::empty());
    assert(out@ =~= out@ + Seq::<u8>::empty());
}

/// The number spelled by `n` bytes of `b` from `start`, least significant
/// first.
pub(crate) fn read_le(b: &[u8], start: usize, n: usize) -> (r: u128)
    requires
        n <= 16,
        start + n <= b@.len(),
    ensures
        r == le_value(b@.subrange(start as int, start + n)),
{
    proof {
        lemma_pow256_facts();
    }
    let len = b.len();
    let mut acc: u128 = 0;
    let mut i: usize = n;
    while i > 0
        invariant
            len == b@.len(),
            i <= n <= 16,
            start + n <= b@.len(),
            pow256(16) == 0x1_0000_0000_0000_0000_0000_0000_0000_0000,
            acc == le_value(b@.subrange(start + i, start + n)),
        decreases i,
    {
        let ghost rest = b@.subrange(start + i, start + n);
        let ghost s = b@.subrange(start + i - 1, start + n);
        assert(s.drop_first() =~= rest);
        proof {
            lemma_le_value_bound(s);
            lemma_pow_mono(s.len(), 16);
        }
        assert(s[0] == b@[start + i - 1]);
        assert(le_value(s) == s[0] + 256 * le_value(rest));
        acc = acc * 256 + b[start + i - 1] as u128;
        i = i - 1;
    }
    acc
}

proof fn lemma_pow_mono(a: nat, b: nat)
    requires
        a <= b,
    ensures
        pow256(a) <= pow256(b),
    decreases b,
{
    if a < b {
        lemma_pow_mono(a, (b - 1) as nat);
    }
}

/// A record that the layout can hold: its tombstone flag agrees with the
/// absence of a value, and its lengths fit the 8-byte length fields.
pub open spec fn encodable(r: Record) -> bool {
    &&& r.deleted <==> r.value is None
    &&& r.key.len() < pow256(8)
    &&& value_or_empty(r.value).len() < pow256(8)
}

proof fn lemma_parse_record_bytes(r: Record, rest: Seq<u8>)
    requires
        encodable(r),
    ensures
        parse_record(record_bytes(r) + rest) == Some((r, record_bytes(r).len())),
{
    reveal(parse_record);
    lemma_pow256_facts();
    let k = r.key.len();
    let b = record_bytes(r) + rest;
    lemma_le_bytes_len(k, 8);
    lemma_le_bytes_len(r.timestamp as nat, 16);
    lemma_le_round_trip(k, 8);
    lemma_le_round_trip(r.timestamp as nat, 16);
    assert(b.subrange(0, 8) =~= le_bytes(k, 8));
    if r.deleted {
        assert(b[8] == 1u8);
        assert(b.subrange(9, 9 + k as int) =~= r.key);
        assert(b.subrange(9 + k as int, 25 + k as int) =~= le_bytes(r.timestamp as nat, 16));
    } else {
        let v = value_or_empty(r.value);
        lemma_le_bytes_len(v.len(), 8);
        lemma_le_round_trip(v.len(), 8);
        assert(b[8] == 0u8);
        assert(b.subrange(9, 17) =~= le_bytes(v.len(), 8));
        assert(b.subrange(17, 17 + k as int) =~= r.key);
        assert(b.subrange(17 + k as int, 17 + k + v.len() as int) =~= v);
        assert(b.subrange(17 + k + v.len() as int, 33 + k + v.len() as int) =~= le_bytes(
            r.timestamp as nat,
            16,
        ));
    }
}

proof fn lemma_parse_log_append(rs: Seq<Record>, tail: Seq<u8>)
    requires
        forall|i: int| 0 <= i < rs.len() ==> encodable(#[trigger] rs[i]),
    ensures
        parse_log(log_bytes(rs) + tail) == rs + parse_log(tail),
    decreases rs.len(),
{
    if rs.len() == 0 {
        assert(log_bytes(rs) + tail =~= tail);
        assert(rs + parse_log(tail) =~= parse_log(tail));
    } else {
        let r = rs[0];
        let later = rs.drop_first();
        assert(encodable(r));
        assert forall|i: int| 0 <= i < later.len() implies encodable(#[trigger] later[i]) by {
            assert(later[i] == rs[i + 1]);
        }
        lemma_parse_log_append(later, tail);
        let b = log_bytes(rs) + tail;
        let rb = record_bytes(r);
        assert(b =~= rb + (log_bytes(later) + tail));
        lemma_parse_record_bytes(r, log_bytes(later) + tail);
        assert(rb.len() > 0);
        assert(b.subrange(rb.len() as int, b.len() as int) =~= log_bytes(later) + tail);
        assert(rs + parse_log(tail) =~= seq![r] + (later + parse_log(tail)));
    }
}

/// Bytes that stop short inside a record hold no whole record.
proof fn lemma_parse_cut_short(r: Record, p: Seq<u8>)
    requires
        encodable(r),
        p.len() < record_bytes(r).len(),
        p == record_bytes(r).subrange(0, p.len() as int),
    ensures
        parse_record(p) is None,
        parse_log(p) == Seq::<Record>::empty(),
{
    reveal(parse_record);
    lemma_pow256_facts();
    let k = r.key.len();
    let rb = record_bytes(r);
    lemma_le_bytes_len(k, 8);
    lemma_le_bytes_len(r.timestamp as nat, 16);
    lemma_le_round_trip(k, 8);
    if p.len() >= 9 {
        assert(p.subrange(0, 8) =~= le_bytes(k, 8));
        assert(p[8] == rb[8]);
        if !r.deleted {
            let v = value_or_empty(r.value);
            lemma_le_bytes_len(v.len(), 8);
            lemma_le_round_trip(v.len(), 8);
            if p.len() >= 17 {
                assert(p.subrange(9, 17) =~= le_bytes(v.len(), 8));
            }
        }
    }
}

/// Decoding the bytes of a log gives back the records written to it, in
/// order, with the same key, value, timestamp and tombstone flag.
pub proof fn lemma_log_round_trip(rs: Seq<Record>)
    requires
        forall|i: int| 0 <= i < rs.len() ==> encodable(#[trigger] rs[i]),
    ensures
        parse_log(log_bytes(rs)) == rs,
{
    lemma_parse_log_append(rs, Seq::empty());
    assert(log_bytes(rs) + Seq::<u8>::empty() =~= log_bytes(rs));
    assert(parse_record(Seq::<u8>::empty()) is None) by {
        reveal(parse_record);
    }
    assert(rs + parse_log(Seq::<u8>::empty()) =~= rs);
}

/// A log whose last record was cut short mid-write decodes to every whole
/// record before it, and then ends.
pub proof fn lemma_log_cut_short(rs: Seq<Record>, r: Record, p: Seq<u8>)
    requires
        forall|i: int| 0 <= i < rs.len() ==> encodable(#[trigger] rs[i]),
        encodable(r),
        p.len() < record_bytes(r).len(),
        p == record_bytes(r).subrange(0, p.len() as int),
    ensures
        parse_log(log_bytes(rs) + p) == rs,
{
    lemma_parse_log_append(rs, p);
    lemma_parse_cut_short(r, p);
    assert(rs + Seq::<Record>::empty() =~= rs);
}

/// What decoding yields can be written back, in as many bytes as it was
/// read from.
pub proof fn lemma_parse_record_encodable(b: Seq<u8>)
    requires
        parse_record(b) is Some,
    ensures
        encodable(parse_record(b).unwrap().0),
        record_bytes(parse_record(b).unwrap().0).len() == parse_record(b).unwrap().1,
{
    reveal(parse_record);
    lemma_pow256_facts();
    let r = parse_record(b).unwrap().0;
    lemma_le_value_bound(b.subrange(0, 8));
    lemma_le_bytes_len(r.key.len(), 8);
    lemma_le_bytes_len(r.timestamp as nat, 16);
    if !r.deleted {
        lemma_le_value_bound(b.subrange(9, 17));
        lemma_le_bytes_len(value_or_empty(r.value).len(), 8);
    }
}

pub proof fn lemma_log_bytes_append(a: Seq<Record>, b: Seq<Record>)
    ensures
        log_bytes(a + b) == log_bytes(a) + log_bytes(b),
    decreases a.len(),
{
    if a.len() == 0 {
        assert(a + b =~= b);
        assert(log_bytes(a) + log_bytes(b) =~= log_bytes(b));
    } else {
        lemma_log_bytes_append(a.drop_first(), b);
        assert((a + b).drop_first() =~= a.drop_first() + b);
        assert((a + b)[0] == a[0]);
        assert(log_bytes(a + b) =~= log_bytes(a) + log_bytes(b));
    }
}

/// Every record that decoding yields can be written back, and writing them
/// all back takes no more bytes than they were read from.
pub proof fn lemma_parse_log_encodable(b: Seq<u8>)
    ensures
        forall|i: int| 0 <= i < parse_log(b).len() ==> encodable(#[trigger] parse_log(b)[i]),
        log_bytes(parse_log(b)).len() <= b.len(),
    decreases b.len(),
{
    match parse_record(b) {
        Some((r, n)) => {
            if 0 < n <= b.len() {
                let rest = b.subrange(n as int, b.len() as int);
                lemma_parse_log_encodable(rest);
                lemma_parse_record_encodable(b);
                let rs = parse_log(b);
                assert(rs == seq![r] + parse_log(rest));
                assert forall|i: int| 0 <= i < rs.len() implies encodable(#[trigger] rs[i]) by {
                    if i > 0 {
                        assert(rs[i] == parse_log(rest)[i - 1]);
                    }
                }
                assert(rs[0] == r);
                assert(rs.drop_first() =~= parse_log(rest));
            } else {
                assert(log_bytes(parse_log(b)) =~= Seq::<u8>::empty());
            }
        },
        None => {
            assert(log_bytes(parse_log(b)) =~= Seq::<u8>::empty());
        },
    }
}

pub proof fn lemma_record_bytes_len(r: Record)
    ensures
        record_bytes(r).len() == if r.deleted {
            25 + r.key.len()
        } else {
            33 + r.key.len() + value_or_empty(r.value).len()
        },
{
    lemma_le_bytes_len(r.key.len(), 8);
    lemma_le_bytes_len(value_or_empty(r.value).len(), 8);
    lemma_le_bytes_len(r.timestamp as nat, 16);
}

} // verus!
