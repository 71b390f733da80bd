//! The sorted in-memory table of records.
use vstd::prelude::*;
use vstd::slice::slice_to_vec;
use crate::key_order::{compare_keys, key_lt, lemma_key_lt_irreflexive, lemma_key_lt_transitive};
use crate::record::{
    has_key, is_insert_pos, key_index, lemma_insert_pos_unique, lemma_key_index_unique,
    lemma_upsert_size, lemma_upsert_sorted, live_record, sorted_by_key, tombstone, total_size,
    upsert, value_len, Record,
};

verus! {

/// One record of the table: a key, its value (none for a tombstone), the
/// microsecond timestamp of the write, and whether it marks a deletion.
pub struct MemTableEntry {
    pub key: Vec<u8>,
    pub value: Option<Vec<u8>>,
    pub timestamp: u128,
    pub deleted: bool,
}

pub open spec fn opt_view(v: Option<Vec<u8>>) -> Option<Seq<u8>> {
    match v {
        Some(b) => Some(b@),
        None => None,
    }
}

impl View for MemTableEntry {
    type V = Record;

    open spec fn view(&self) -> Record {
        Record {
            key: self.key@,
            value: opt_view(self.value),
            timestamp: self.timestamp,
            deleted: self.deleted,
        }
    }
}

/// Records held in ascending key order, with a running total of their
/// accounted size.
pub struct MemTable {
    entries: Vec<MemTableEntry>,
    size: usize,
}

impl View for MemTable {
    type V = Seq<Record>;

    closed spec fn view(&self) -> Seq<Record> {
        self.entries@.map_values(|e: MemTableEntry| e@)
    }
}

impl MemTable {
    /// The accounted size that the table reports.
    pub closed spec fn spec_size(&self) -> nat {
        self.size as nat
    }

    /// Keys strictly ascend and the running size is the accounted size of
    /// the records held.
    pub open spec fn wf(&self) -> bool {
        &&& sorted_by_key(self@)
        &&& self.spec_size() == total_size(self@)
    }

    /// Creates a table that holds no record.
    pub fn new() -> (r: MemTable)
        ensures
            r.wf(),
            r@ == Seq::<Record>::empty(),
            r.spec_size() == 0,
    {
        let r = MemTable { entries: Vec::new(), size: 0 };
        assert(r@ =~= Seq::<Record>::empty());
        r
    }

    /// Binary search by key: `Ok` with the position of the key, or `Err`
    /// with the position where it would be inserted.
    fn get_index(&self, key: &[u8]) -> (r: Result<usize, usize>)
        requires
            self.wf(),
        ensures
            r matches Ok(i) ==> i < self@.len() && self@[i as int].key == key@,
            r matches Err(i) ==> is_insert_pos(self@, key@, i as int),
            r is Ok <==> has_key(self@, key@),
    {
        let ghost s = self@;
        let mut lo: usize = 0;
        let mut hi: usize = self.entries.len();
        while lo < hi
            invariant
                s == self@,
                sorted_by_key(s),
                s.len() == self.entries@.len(),
                lo <= hi <= s.len(),
                forall|j: int| 0 <= j < lo ==> key_lt(#[trigger] s[j].key, key@),
                forall|j: int| hi <= j < s.len() ==> key_lt(key@, #[trigger] s[j].key),
            decreases hi - lo,
        {
            let mid = lo + (hi - lo) / 2;
            let c = compare_keys(self.entries[mid].key.as_slice(), key);
            assert(s[mid as int] == self.entries@[mid as int]@);
            if c == 0 {
                proof {
                    lemma_key_index_unique(s, mid as int);
                }
                return Ok(mid);
            } else if c < 0 {
                proof {
                    assert forall|j: int| 0 <= j < mid + 1 implies key_lt(#[trigger] s[j].key, key@) by {
                        if j < mid {
                            assert(key_lt(s[j].key, s[mid as int].key));
                            lemma_key_lt_transitive(s[j].key, s[mid as int].key, key@);
                        }
                    }
                }
                lo = mid + 1;
            } else {
                proof {
                    assert forall|j: int| mid <= j < s.len() implies key_lt(key@, #[trigger] s[j].key) by {
                        if j > mid {
                            assert(key_lt(s[mid as int].key, s[j].key));
                            lemma_key_lt_transitive(key@, s[mid as int].key, s[j].key);
                        }
                    }
                }
                hi = mid;
            }
        }
        proof {
            assert(is_insert_pos(s, key@, lo as int));
            if has_key(s, key@) {
                let j = choose|j: int| 0 <= j < s.len() && #[trigger] s[j].key == key@;
                assert(s[j].key == key@);
                lemma_key_lt_irreflexive(key@);
            }
        }
        Err(lo)
    }

    /// Writes `entry` under its key: replaces the record of that key in
    /// place, or inserts it where its key sorts, and keeps the running size.
    fn write_entry(&mut self, entry: MemTableEntry)
        requires
            old(self).wf(),
            total_size(upsert(old(self)@, entry@)) <= usize::MAX,
        ensures
            final(self).wf(),
            final(self)@ == upsert(old(self)@, entry@),
    {
        let ghost s = self@;
        let new_len: usize = match &entry.value {
            Some(v) => v.len(),
            None => 0,
        };
        assert(new_len == value_len(entry@.value));
        proof {
            lemma_upsert_size(s, entry@);
            lemma_upsert_sorted(s, entry@);
        }
        match self.get_index(entry.key.as_slice()) {
            Ok(idx) => {
                proof {
                    lemma_key_index_unique(s, idx as int);
                }
                assert(s[idx as int] == self.entries@[idx as int]@);
                let old_len: usize = match &self.entries[idx].value {
                    Some(v) => v.len(),
                    None => 0,
                };
                assert(old_len == value_len(s[idx as int].value));
                if old_len > new_len {
                    self.size = self.size - (old_len - new_len);
                } else {
                    self.size = self.size + (new_len - old_len);
                }
                self.entries.set(idx, entry);
                assert(self@ =~= s.update(idx as int, entry@));
            },
            Err(idx) => {
                proof {
                    lemma_insert_pos_unique(s, entry@.key, idx as int);
                }
                self.size = self.size + entry.key.len() + new_len + 17;
                self.entries.insert(idx, entry);
                assert(self@ =~= s.insert(idx as int, entry@));
            },
        }
    }

    /// Writes `value` under `key`. An existing record of the key is
    /// replaced in place and the size moves by the difference of the value
    /// lengths; otherwise the record is inserted in key order and the size
    /// grows by its key, its value and 17 bytes.
    pub fn set(&mut self, key: &[u8], value: &[u8], timestamp: u128)
        requires
            old(self).wf(),
            total_size(upsert(old(self)@, live_record(key@, value@, timestamp))) <= usize::MAX,
        ensures
            final(self).wf(),
            final(self)@ == upsert(old(self)@, live_record(key@, value@, timestamp)),
            has_key(old(self)@, key@) ==> final(self).spec_size() + value_len(
                old(self)@[key_index(old(self)@, key@)].value,
            ) == old(self).spec_size() + value@.len(),
            !has_key(old(self)@, key@) ==> final(self).spec_size() == old(self).spec_size()
                + key@.len() + value@.len() + 17,
    {
        let entry = MemTableEntry {
            key: slice_to_vec(key),
            value: Some(slice_to_vec(value)),
            timestamp: timestamp,
            deleted: false,
        };
        assert(entry@ == live_record(key@, value@, timestamp));
        proof {
            lemma_upsert_size(self@, entry@);
        }
        self.write_entry(entry);
    }

    /// Marks `key` deleted: writes a tombstone under it. An existing record
    /// is replaced in place and the size drops by its value's length;
    /// otherwise the tombstone is inserted in key order and the size grows
    /// by the key and 17 bytes.
    pub fn delete(&mut self, key: &[u8], timestamp: u128)
        requires
            old(self).wf(),
            total_size(upsert(old(self)@, tombstone(key@, timestamp))) <= usize::MAX,
        ensures
            final(self).wf(),
            final(self)@ == upsert(old(self)@, tombstone(key@, timestamp)),
            has_key(old(self)@, key@) ==> final(self).spec_size() + value_len(
                old(self)@[key_index(old(self)@, key@)].value,
            ) == old(self).spec_size(),
            !has_key(old(self)@, key@) ==> final(self).spec_size() == old(self).spec_size()
                + key@.len() + 17,
    {
        let entry = MemTableEntry {
            key: slice_to_vec(key),
            value: None,
            timestamp: timestamp,
            deleted: true,
        };
        assert(entry@ == tombstone(key@, timestamp));
        proof {
            lemma_upsert_size(self@, entry@);
        }
        self.write_entry(entry);
    }

    /// The record stored under `key`, which may be a tombstone, or `None`
    /// when the table holds no record of that key.
    pub fn get(&self, key: &[u8]) -> (r: Option<&MemTableEntry>)
        requires
            self.wf(),
        ensures
            r is Some <==> has_key(self@, key@),
            r matches Some(e) ==> e@ == self@[key_index(self@, key@)],
    {
        match self.get_index(key) {
            Ok(idx) => {
                proof {
                    lemma_key_index_unique(self@, idx as int);
                }
                assert(self@[idx as int] == self.entries@[idx as int]@);
                Some(&self.entries[idx])
            },
            Err(_) => None,
        }
    }

    /// The first record, in key order, whose value equals `value`;
    /// tombstones hold no value and never match.
    pub fn scan(&self, value: &[u8]) -> (r: Option<&MemTableEntry>)
        ensures
            r is None <==> forall|i: int| 0 <= i < self@.len() ==> #[trigger] self@[i].value != Some(value@),
            r matches Some(e) ==> exists|i: int|
                0 <= i < self@.len() && #[trigger] self@[i] == e@ && e@.value == Some(value@)
                    && forall|j: int| 0 <= j < i ==> #[trigger] self@[j].value != Some(value@),
    {
        let mut i: usize = 0;
        while i < self.entries.len()
            invariant
                i <= self@.len(),
                self@.len() == self.entries@.len(),
                forall|j: int| 0 <= j < i ==> #[trigger] self@[j].value != Some(value@),
            decreases self@.len() - i,
        {
            let entry = &self.entries[i];
            assert(self@[i as int] == entry@);
            match &entry.value {
                Some(v) => {
                    if compare_keys(v.as_slice(), value) == 0 {
                        assert(self@[i as int].value == Some(value@));
                        return Some(entry);
                    }
                },
                None => {},
            }
            i = i + 1;
        }
        None
    }

    /// The number of records, tombstones included.
    pub fn len(&self) -> (r: usize)
        ensures
            r == self@.len(),
    {
        self.entries.len()
    }

    /// The accounted size of the records: for each, its key, its value,
    /// and 17 bytes for timestamp and tombstone flag.
    pub fn size(&self) -> (r: usize)
        ensures
            r == self.spec_size(),
            self.wf() ==> r == total_size(self@),
    {
        self.size
    }

    /// The records in ascending key order.
    pub fn entries(&self) -> (r: &Vec<MemTableEntry>)
        ensures
            r@.map_values(|e: MemTableEntry| e@) == self@,
    {
        &self.entries
    }
}

} // verus!
