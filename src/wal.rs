//! The durability log's writing side: the bytes of each operation, and the
//! merge of earlier logs into one table and one consolidated log.
use vstd::prelude::*;
use crate::codec::{
    delete_bytes, encodable, lemma_log_bytes_append, lemma_log_round_trip,
    lemma_parse_log_encodable, lemma_record_bytes_len, log_bytes, parse_log, push_le, record_bytes, set_bytes,
    value_or_empty,
};
use crate::mem_table::MemTable;
use crate::record::{
    lemma_upsert_size, lemma_upsert_sorted, live_record, sorted_by_key, tombstone, total_size, upsert,
    Record,
};
use crate::wal_iterator::{decode_all, entries_view};

verus! {

/// Appends to `out` the log record of `set(key, value, timestamp)`.
pub fn encode_set(out: &mut Vec<u8>, key: &[u8], value: &[u8], timestamp: u128)
    ensures
        final(out)@ == old(out)@ + set_bytes(key@, value@, timestamp),
{
    push_le(out, key.len() as u128, 8);
    out.push(0u8);
    push_le(out, value.len() as u128, 8);
    out.extend_from_slice(key);
    out.extend_from_slice(value);
    push_le(out, timestamp, 16);
    assert(out@ =~= old(out)@ + set_bytes(key@, value@, timestamp));
}

/// Appends to `out` the log record of `delete(key, timestamp)`.
pub fn encode_delete(out: &mut Vec<u8>, key: &[u8], timestamp: u128)
    ensures
        final(out)@ == old(out)@ + delete_bytes(key@, timestamp),
{
    push_le(out, key.len() as u128, 8);
    out.push(1u8);
    out.extend_from_slice(key);
    push_le(out, timestamp, 16);
    assert(out@ =~= old(out)@ + delete_bytes(key@, timestamp));
}

/// The table operation that a logged record stands for.
pub open spec fn apply_record(t: Seq<Record>, r: Record) -> Seq<Record> {
    if r.deleted {
        upsert(t, tombstone(r.key, r.timestamp))
    } else {
        upsert(t, live_record(r.key, value_or_empty(r.value), r.timestamp))
    }
}

/// The table that applying `rs` in order to `t` leaves.
pub open spec fn replay(t: Seq<Record>, rs: Seq<Record>) -> Seq<Record>
    decreases rs.len(),
{
    if rs.len() == 0 {
        t
    } else {
        apply_record(replay(t, rs.drop_last()), rs.last())
    }
}

/// The records of several logs, log after log, each in its own order.
pub open spec fn logs_records(logs: Seq<Seq<u8>>) -> Seq<Record>
    decreases logs.len(),
{
    if logs.len() == 0 {
        Seq::empty()
    } else {
        logs_records(logs.drop_last()) + parse_log(logs.last())
    }
}

pub open spec fn total_len(logs: Seq<Seq<u8>>) -> nat
    decreases logs.len(),
{
    if logs.len() == 0 {
        0
    } else {
        total_len(logs.drop_last()) + logs.last().len()
    }
}

pub open spec fn logs_view(logs: Seq<Vec<u8>>) -> Seq<Seq<u8>> {
    logs.map_values(|l: Vec<u8>| l@)
}

proof fn lemma_total_len_prefix(logs: Seq<Seq<u8>>, i: int)
    requires
        0 <= i <= logs.len(),
    ensures
        total_len(logs.subrange(0, i)) <= total_len(logs),
    decreases logs.len(),
{
    if i < logs.len() {
        lemma_total_len_prefix(logs.drop_last(), i);
        assert(logs.drop_last().subrange(0, i) =~= logs.subrange(0, i));
    } else {
        assert(logs.subrange(0, i) =~= logs);
    }
}

/// Rebuilds a table from earlier logs, given in the order they were
/// written: every record of every log is applied in order, and written
/// again, in the same order, to one consolidated log.
pub fn recover(logs: &Vec<Vec<u8>>) -> (r: (MemTable, Vec<u8>))
    requires
        total_len(logs_view(logs@)) <= usize::MAX,
    ensures
        r.0.wf(),
        r.0@ == replay(Seq::empty(), logs_records(logs_view(logs@))),
        r.1@ == log_bytes(logs_records(logs_view(logs@))),
{
    let ghost all = logs_view(logs@);
    let mut table = MemTable::new();
    let mut out: Vec<u8> = Vec::new();
    let mut i: usize = 0;
    proof {
        assert(all.subrange(0, 0) =~= Seq::<Seq<u8>>::empty());
        assert(log_bytes(Seq::<Record>::empty()) =~= Seq::<u8>::empty());
    }
    while i < logs.len()
        invariant
            all == logs_view(logs@),
            total_len(all) <= usize::MAX,
            i <= logs@.len(),
            table.wf(),
            table@ == replay(Seq::empty(), logs_records(all.subrange(0, i as int))),
            out@ == log_bytes(logs_records(all.subrange(0, i as int))),
            out@.len() <= total_len(all.subrange(0, i as int)),
            total_size(table@) <= out@.len(),
        decreases logs@.len() - i,
    {
        let ghost done = logs_records(all.subrange(0, i as int));
        let ghost done_len = total_len(all.subrange(0, i as int));
        let log = &logs[i];
        assert(all[i as int] == log@);
        let entries = decode_all(log.as_slice());
        let ghost ev = entries_view(entries@);
        proof {
            lemma_parse_log_encodable(log@);
            lemma_total_len_prefix(all, i + 1);
            assert(all.subrange(0, i + 1).drop_last() =~= all.subrange(0, i as int));
            assert(ev.subrange(0, 0) =~= Seq::<Record>::empty());
            assert(log_bytes(Seq::<Record>::empty()) =~= Seq::<u8>::empty());
        }
        let mut j: usize = 0;
        assert(done + ev.subrange(0, 0) =~= done);
        while j < entries.len()
            invariant
                all == logs_view(logs@),
                i < logs@.len(),
                ev == entries_view(entries@),
                ev == parse_log(log@),
                forall|k: int| 0 <= k < ev.len() ==> encodable(#[trigger] ev[k]),
                log_bytes(ev).len() <= log@.len(),
                done_len + log@.len() <= usize::MAX,
                j <= entries@.len(),
                table.wf(),
                table@ == replay(Seq::empty(), done + ev.subrange(0, j as int)),
                out@ == log_bytes(done + ev.subrange(0, j as int)),
                out@.len() <= done_len + log_bytes(ev.subrange(0, j as int)).len(),
                total_size(table@) <= out@.len(),
            decreases entries@.len() - j,
        {
            let e = &entries[j];
            let ghost rec = ev[j as int];
            assert(rec == e@);
            assert(encodable(rec));
            let ghost prev = done + ev.subrange(0, j as int);
            proof {
                lemma_log_bytes_append(ev.subrange(0, j + 1), ev.subrange(j + 1, ev.len() as int));
                assert(ev.subrange(0, j + 1) + ev.subrange(j + 1, ev.len() as int) =~= ev);
                lemma_log_bytes_append(ev.subrange(0, j as int), seq![rec]);
                lemma_record_bytes_len(rec);
                assert(ev.subrange(0, j as int) + seq![rec] =~= ev.subrange(0, j + 1));
                assert(log_bytes(seq![rec]) =~= record_bytes(rec)) by {
                    assert(seq![rec][0] == rec);
                    assert(seq![rec].drop_first() =~= Seq::<Record>::empty());
                    assert(log_bytes(Seq::<Record>::empty()) =~= Seq::<u8>::empty());
                }
                assert(prev + seq![rec] =~= done + ev.subrange(0, j + 1));
                lemma_log_bytes_append(prev, seq![rec]);
                assert((done + ev.subrange(0, j + 1)).drop_last() =~= prev);
                lemma_upsert_size(table@, tombstone(rec.key, rec.timestamp));
                lemma_upsert_size(table@, live_record(rec.key, value_or_empty(rec.value), rec.timestamp));
            }
            if e.deleted {
                table.delete(e.key.as_slice(), e.timestamp);
                encode_delete(&mut out, e.key.as_slice(), e.timestamp);
            } else {
                match &e.value {
                    Some(v) => {
                        table.set(e.key.as_slice(), v.as_slice(), e.timestamp);
                        encode_set(&mut out, e.key.as_slice(), v.as_slice(), e.timestamp);
                    },
                    None => {},
                }
            }
            j = j + 1;
        }
        proof {
            assert(ev.subrange(0, j as int) =~= ev);
            let next = all.subrange(0, i + 1);
            assert(next.last() == log@);
            assert(logs_records(next) == done + ev);
        }
        i = i + 1;
    }
    assert(all.subrange(0, i as int) =~= all);
    (table, out)
}

/// Recovering again from the one consolidated log that a recovery wrote
/// yields the same table and the same consolidated log.
pub proof fn lemma_recover_idempotent(logs: Seq<Seq<u8>>)
    ensures
        logs_records(seq![log_bytes(logs_records(logs))]) == logs_records(logs),
        replay(Seq::empty(), logs_records(seq![log_bytes(logs_records(logs))])) == replay(
            Seq::empty(),
            logs_records(logs),
        ),
    decreases logs.len(),
{
    let rs = logs_records(logs);
    lemma_logs_records_encodable(logs);
    lemma_log_round_trip(rs);
    let one = seq![log_bytes(rs)];
    assert(one.drop_last() =~= Seq::<Seq<u8>>::empty());
    assert(one.last() == log_bytes(rs));
    assert(logs_records(Seq::<Seq<u8>>::empty()) == Seq::<Record>::empty());
    assert(logs_records(one) =~= Seq::<Record>::empty() + parse_log(log_bytes(rs)));
}

proof fn lemma_logs_records_encodable(logs: Seq<Seq<u8>>)
    ensures
        forall|i: int| 0 <= i < logs_records(logs).len() ==> encodable(#[trigger] logs_records(logs)[i]),
    decreases logs.len(),
{
    if logs.len() > 0 {
        lemma_logs_records_encodable(logs.drop_last());
        lemma_parse_log_encodable(logs.last());
        let a = logs_records(logs.drop_last());
        let b = parse_log(logs.last());
        assert forall|i: int| 0 <= i < logs_records(logs).len() implies encodable(#[trigger] logs_records(logs)[i]) by {
            if i < a.len() {
                assert(logs_records(logs)[i] == a[i]);
            } else {
                assert(logs_records(logs)[i] == b[i - a.len()]);
            }
        }
    }
}

/// Whatever records are applied to an empty table, and in whatever order,
/// its keys strictly ascend afterwards.
pub proof fn lemma_replay_sorted(rs: Seq<Record>)
    ensures
        sorted_by_key(replay(Seq::empty(), rs)),
    decreases rs.len(),
{
    if rs.len() > 0 {
        lemma_replay_sorted(rs.drop_last());
        let t = replay(Seq::empty(), rs.drop_last());
        let r = rs.last();
        lemma_upsert_sorted(t, tombstone(r.key, r.timestamp));
        lemma_upsert_sorted(t, live_record(r.key, value_or_empty(r.value), r.timestamp));
    }
}

} // verus!
