//! The mathematical model of a record, and of a sequence of records kept
//! sorted by key.
use vstd::prelude::*;
use crate::key_order::{
    key_lt, lemma_key_lt_asymmetric, lemma_key_lt_irreflexive, lemma_key_lt_total,
    lemma_key_lt_transitive,
};

verus! {

/// What a record holds, as plain mathematical values.
pub struct Record {
    pub key: Seq<u8>,
    pub value: Option<Seq<u8>>,
    pub timestamp: u128,
    pub deleted: bool,
}

/// The record that `set(key, value, timestamp)` writes.
pub open spec fn live_record(key: Seq<u8>, value: Seq<u8>, timestamp: u128) -> Record {
    Record { key, value: Some(value), timestamp, deleted: false }
}

/// The record that `delete(key, timestamp)` writes.
pub open spec fn tombstone(key: Seq<u8>, timestamp: u128) -> Record {
    Record { key, value: None, timestamp, deleted: true }
}

pub open spec fn value_len(value: Option<Seq<u8>>) -> nat {
    match value {
        Some(v) => v.len(),
        None => 0,
    }
}

/// Bytes a record is accounted for: its key, its value, a 16-byte
/// timestamp and a 1-byte tombstone flag.
pub open spec fn weight(r: Record) -> nat {
    r.key.len() + value_len(r.value) + 17
}

/// The accounted size of a sequence of records.
pub open spec fn total_size(s: Seq<Record>) -> nat
    decreases s.len(),
{
    if s.len() == 0 {
        0
    } else {
        total_size(s.drop_last()) + weight(s.last())
    }
}

/// Keys strictly ascend, hence are unique.
pub open spec fn sorted_by_key(s: Seq<Record>) -> bool {
    forall|i: int, j: int| 0 <= i < j < s.len() ==> key_lt(#[trigger] s[i].key, #[trigger] s[j].key)
}

pub open spec fn has_key(s: Seq<Record>, k: Seq<u8>) -> bool {
    exists|i: int| 0 <= i < s.len() && #[trigger] s[i].key == k
}

/// Position of the record with key `k` (meaningful when `has_key(s, k)`).
pub open spec fn key_index(s: Seq<Record>, k: Seq<u8>) -> int {
    choose|i: int| 0 <= i < s.len() && #[trigger] s[i].key == k
}

/// `i` separates the keys below `k` from those above it.
pub open spec fn is_insert_pos(s: Seq<Record>, k: Seq<u8>, i: int) -> bool {
    &&& 0 <= i <= s.len()
    &&& forall|j: int| 0 <= j < i ==> key_lt(#[trigger] s[j].key, k)
    &&& forall|j: int| i <= j < s.len() ==> key_lt(k, #[trigger] s[j].key)
}

/// Where a record with the absent key `k` goes to keep `s` sorted.
pub open spec fn insert_pos(s: Seq<Record>, k: Seq<u8>) -> int {
    choose|i: int| is_insert_pos(s, k, i)
}

/// `s` with `r` written under its key: the record of that key replaced
/// in place, or `r` inserted where its key sorts.
pub open spec fn upsert(s: Seq<Record>, r: Record) -> Seq<Record> {
    if has_key(s, r.key) {
        s.update(key_index(s, r.key), r)
    } else {
        s.insert(insert_pos(s, r.key), r)
    }
}

pub proof fn lemma_total_size_split(s: Seq<Record>, i: int)
    requires
        0 <= i <= s.len(),
    ensures
        total_size(s) == total_size(s.subrange(0, i)) + total_size(s.subrange(i, s.len() as int)),
    decreases s.len(),
{
    if i == s.len() {
        assert(s.subrange(0, i) =~= s);
        assert(s.subrange(i, s.len() as int) =~= Seq::<Record>::empty());
    } else {
        lemma_total_size_split(s.drop_last(), i);
        assert(s.drop_last().subrange(0, i) =~= s.subrange(0, i));
        let t = s.subrange(i, s.len() as int);
        assert(t.drop_last() =~= s.drop_last().subrange(i, s.len() - 1));
        assert(t.last() == s.last());
    }
}

pub proof fn lemma_total_size_update(s: Seq<Record>, i: int, r: Record)
    requires
        0 <= i < s.len(),
    ensures
        total_size(s.update(i, r)) + weight(s[i]) == total_size(s) + weight(r),
{
    let u = s.update(i, r);
    lemma_total_size_split(s, i);
    lemma_total_size_split(u, i);
    lemma_total_size_split(s.subrange(i, s.len() as int), 1);
    lemma_total_size_split(u.subrange(i, u.len() as int), 1);
    assert(u.subrange(0, i) =~= s.subrange(0, i));
    assert(u.subrange(i, u.len() as int).subrange(1, u.len() - i) =~= s.subrange(i, s.len() as int).subrange(1, s.len() - i));
    let one_s = s.subrange(i, s.len() as int).subrange(0, 1);
    let one_u = u.subrange(i, u.len() as int).subrange(0, 1);
    assert(one_s.drop_last() =~= Seq::<Record>::empty());
    assert(one_u.drop_last() =~= Seq::<Record>::empty());
    assert(one_s.last() == s[i]);
    assert(one_u.last() == r);
}

pub proof fn lemma_total_size_insert(s: Seq<Record>, i: int, r: Record)
    requires
        0 <= i <= s.len(),
    ensures
        total_size(s.insert(i, r)) == total_size(s) + weight(r),
{
    let u = s.insert(i, r);
    lemma_total_size_split(s, i);
    lemma_total_size_split(u, i);
    lemma_total_size_split(u.subrange(i, u.len() as int), 1);
    assert(u.subrange(0, i) =~= s.subrange(0, i));
    assert(u.subrange(i, u.len() as int).subrange(1, u.len() - i) =~= s.subrange(i, s.len() as int));
    let one = u.subrange(i, u.len() as int).subrange(0, 1);
    assert(one =~= seq![r]);
    assert(one.drop_last() =~= Seq::<Record>::empty());
    assert(total_size(Seq::<Record>::empty()) == 0);
    assert(total_size(one) == weight(r));
    assert(total_size(s.subrange(i, s.len() as int)) + weight(r) == total_size(u.subrange(i, u.len() as int)));
}

/// In a sorted sequence a key stands at one position only.
pub proof fn lemma_key_index_unique(s: Seq<Record>, i: int)
    requires
        sorted_by_key(s),
        0 <= i < s.len(),
    ensures
        has_key(s, s[i].key),
        key_index(s, s[i].key) == i,
{
    let k = s[i].key;
    assert(s[i].key == k);
    let j = key_index(s, k);
    if j < i {
        assert(key_lt(s[j].key, s[i].key));
        lemma_key_lt_irreflexive(k);
    } else if j > i {
        assert(key_lt(s[i].key, s[j].key));
        lemma_key_lt_irreflexive(k);
    }
}

/// The insertion point of an absent key is unique.
pub proof fn lemma_insert_pos_unique(s: Seq<Record>, k: Seq<u8>, i: int)
    requires
        is_insert_pos(s, k, i),
    ensures
        insert_pos(s, k) == i,
{
    let p = insert_pos(s, k);
    assert(is_insert_pos(s, k, p));
    if p < i {
        assert(key_lt(k, s[p].key));
        assert(key_lt(s[p].key, k));
        lemma_key_lt_asymmetric(k, s[p].key);
    } else if p > i {
        assert(key_lt(k, s[i].key));
        assert(key_lt(s[i].key, k));
        lemma_key_lt_asymmetric(k, s[i].key);
    }
}

/// Replacing the record of an existing key keeps the order.
pub proof fn lemma_sorted_update(s: Seq<Record>, i: int, r: Record)
    requires
        sorted_by_key(s),
        0 <= i < s.len(),
        s[i].key == r.key,
    ensures
        sorted_by_key(s.update(i, r)),
{
    let u = s.update(i, r);
    assert forall|a: int, b: int| 0 <= a < b < u.len() implies key_lt(#[trigger] u[a].key, #[trigger] u[b].key) by {
        assert(key_lt(s[a].key, s[b].key));
    }
}

/// Inserting at the insertion point keeps the order.
pub proof fn lemma_sorted_insert(s: Seq<Record>, i: int, r: Record)
    requires
        sorted_by_key(s),
        is_insert_pos(s, r.key, i),
    ensures
        sorted_by_key(s.insert(i, r)),
{
    let u = s.insert(i, r);
    assert forall|a: int, b: int| 0 <= a < b < u.len() implies key_lt(#[trigger] u[a].key, #[trigger] u[b].key) by {
        if b < i {
            assert(key_lt(s[a].key, s[b].key));
        } else if b == i {
            assert(key_lt(s[a].key, r.key));
        } else if a == i {
            assert(key_lt(r.key, s[b - 1].key));
        } else if a < i {
            assert(key_lt(s[a].key, s[b - 1].key));
        } else {
            assert(key_lt(s[a - 1].key, s[b - 1].key));
        }
    }
}

/// Writing a record keeps a sorted sequence sorted.
pub proof fn lemma_upsert_sorted(s: Seq<Record>, r: Record)
    requires
        sorted_by_key(s),
    ensures
        sorted_by_key(upsert(s, r)),
{
    if has_key(s, r.key) {
        let i = key_index(s, r.key);
        lemma_sorted_update(s, i, r);
    } else {
        lemma_insert_pos_exists(s, r.key);
        lemma_sorted_insert(s, insert_pos(s, r.key), r);
    }
}

/// An absent key has an insertion point in a sorted sequence.
pub proof fn lemma_insert_pos_exists(s: Seq<Record>, k: Seq<u8>)
    requires
        sorted_by_key(s),
        !has_key(s, k),
    ensures
        is_insert_pos(s, k, insert_pos(s, k)),
    decreases s.len(),
{
    if s.len() == 0 {
        assert(is_insert_pos(s, k, 0));
    } else {
        let t = s.drop_last();
        assert(sorted_by_key(t)) by {
            assert forall|a: int, b: int| 0 <= a < b < t.len() implies key_lt(#[trigger] t[a].key, #[trigger] t[b].key) by {
                assert(key_lt(s[a].key, s[b].key));
            }
        }
        assert(!has_key(t, k)) by {
            if has_key(t, k) {
                let j = choose|j: int| 0 <= j < t.len() && #[trigger] t[j].key == k;
                assert(s[j].key == k);
            }
        }
        lemma_insert_pos_exists(t, k);
        let p = insert_pos(t, k);
        let n = s.len() - 1;
        assert(s[n].key != k);
        lemma_key_lt_total(s[n].key, k);
        if key_lt(s[n].key, k) {
            assert forall|j: int| 0 <= j < s.len() implies key_lt(#[trigger] s[j].key, k) by {
                if j < n {
                    assert(key_lt(s[j].key, s[n].key));
                    lemma_key_lt_transitive(s[j].key, s[n].key, k);
                }
            }
            assert(is_insert_pos(s, k, s.len() as int));
        } else {
            assert(key_lt(k, s[n].key));
            assert forall|j: int| 0 <= j < p implies key_lt(#[trigger] s[j].key, k) by {
                assert(t[j].key == s[j].key);
            }
            assert forall|j: int| p <= j < s.len() implies key_lt(k, #[trigger] s[j].key) by {
                if j < n {
                    assert(t[j].key == s[j].key);
                }
            }
            assert(is_insert_pos(s, k, p));
        }
    }
}

/// The accounted size after a write, in terms of the size before it.
pub proof fn lemma_upsert_size(s: Seq<Record>, r: Record)
    requires
        sorted_by_key(s),
    ensures
        has_key(s, r.key) ==> total_size(upsert(s, r)) + weight(s[key_index(s, r.key)])
            == total_size(s) + weight(r),
        !has_key(s, r.key) ==> total_size(upsert(s, r)) == total_size(s) + weight(r),
        upsert(s, r).len() == if has_key(s, r.key) { s.len() } else { s.len() + 1 },
{
    if has_key(s, r.key) {
        let i = key_index(s, r.key);
        lemma_total_size_update(s, i, r);
    } else {
        lemma_insert_pos_exists(s, r.key);
        lemma_total_size_insert(s, insert_pos(s, r.key), r);
    }
}

} // verus!
