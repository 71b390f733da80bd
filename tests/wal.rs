use lsm_wal::key_order::compare_keys;
use lsm_wal::mem_table::MemTable;
use lsm_wal::wal::{encode_delete, encode_set, recover};
use lsm_wal::wal_iterator::{decode_all, decode_at, WALEntry, WALIterator};

fn check_entry(entry: &WALEntry, key: &[u8], value: Option<&[u8]>, timestamp: u128, deleted: bool) {
    assert_eq!(entry.key, key);
    assert_eq!(entry.timestamp, timestamp);
    assert_eq!(entry.deleted, deleted);
    assert_eq!(entry.value.as_deref(), value);
}

fn sample_log() -> Vec<u8> {
    let mut log = Vec::new();
    encode_set(&mut log, b"Monday", b"Rejoice", 1);
    encode_set(&mut log, b"Tuesday", b"Celebrate", 2);
    encode_delete(&mut log, b"Monday", 3);
    encode_set(&mut log, b"Friday", b"", 4);
    log
}

#[test]
fn set_record_layout() {
    let mut log = Vec::new();
    encode_set(&mut log, b"ab", b"xyz", 0x0102);
    let mut expected = vec![2, 0, 0, 0, 0, 0, 0, 0, 0, 3, 0, 0, 0, 0, 0, 0, 0];
    expected.extend_from_slice(b"ab");
    expected.extend_from_slice(b"xyz");
    expected.extend_from_slice(&[0x02, 0x01, 0, 0, 0, 0, 0, 0, 0, 0, 0, 0, 0, 0, 0, 0]);
    assert_eq!(log, expected);
}

#[test]
fn delete_record_layout() {
    let mut log = Vec::new();
    encode_delete(&mut log, b"k", u128::MAX);
    let mut expected = vec![1, 0, 0, 0, 0, 0, 0, 0, 1];
    expected.extend_from_slice(b"k");
    expected.extend_from_slice(&[0xff; 16]);
    assert_eq!(log, expected);
    assert_eq!(log.len(), 8 + 1 + 1 + 16);
}

#[test]
fn round_trip_in_order() {
    let entries = decode_all(&sample_log());
    assert_eq!(entries.len(), 4);
    check_entry(&entries[0], b"Monday", Some(b"Rejoice"), 1, false);
    check_entry(&entries[1], b"Tuesday", Some(b"Celebrate"), 2, false);
    check_entry(&entries[2], b"Monday", None, 3, true);
    check_entry(&entries[3], b"Friday", Some(b""), 4, false);
}

#[test]
fn iterator_walks_then_stays_ended() {
    let mut it = WALIterator::from_bytes(sample_log());
    check_entry(&it.next().unwrap(), b"Monday", Some(b"Rejoice"), 1, false);
    check_entry(&it.next().unwrap(), b"Tuesday", Some(b"Celebrate"), 2, false);
    check_entry(&it.next().unwrap(), b"Monday", None, 3, true);
    check_entry(&it.next().unwrap(), b"Friday", Some(b""), 4, false);
    assert!(it.next().is_none());
    assert!(it.next().is_none());
}

#[test]
fn truncated_tail_is_end_of_log() {
    let mut whole = Vec::new();
    encode_set(&mut whole, b"Monday", b"Rejoice", 1);
    let first_len = whole.len();
    encode_set(&mut whole, b"Tuesday", b"Celebrate", 2);
    for cut in first_len..whole.len() {
        let entries = decode_all(&whole[..cut]);
        assert_eq!(entries.len(), 1);
        check_entry(&entries[0], b"Monday", Some(b"Rejoice"), 1, false);
    }
    assert_eq!(decode_all(&whole).len(), 2);
}

#[test]
fn truncated_tombstone_is_end_of_log() {
    let mut whole = Vec::new();
    encode_delete(&mut whole, b"Monday", 7);
    for cut in 0..whole.len() {
        assert!(decode_all(&whole[..cut]).is_empty());
        assert!(decode_at(&whole, 0).is_some());
        assert!(decode_at(&whole[..cut], 0).is_none());
    }
}

#[test]
fn nonzero_flag_reads_as_tombstone() {
    let mut log = Vec::new();
    encode_delete(&mut log, b"k", 5);
    log[8] = 7;
    let entries = decode_all(&log);
    check_entry(&entries[0], b"k", None, 5, true);
}

#[test]
fn empty_log_decodes_to_nothing() {
    assert!(decode_all(&[]).is_empty());
    let (table, out) = recover(&vec![]);
    assert_eq!(table.len(), 0);
    assert_eq!(table.size(), 0);
    assert!(out.is_empty());
}

#[test]
fn recover_merges_logs_in_order() {
    let mut first = Vec::new();
    encode_set(&mut first, b"Monday", b"Rejoice", 0);
    encode_set(&mut first, b"Tuesday", b"Celebrate", 1);
    let mut second = Vec::new();
    encode_set(&mut second, b"Monday", b"Blues", 2);
    encode_delete(&mut second, b"Tuesday", 3);
    encode_set(&mut second, b"Friday", b"Party", 4);
    // a record cut short at the end of the second log
    second.extend_from_slice(&[3, 0, 0]);

    let (table, out) = recover(&vec![first.clone(), second.clone()]);
    assert_eq!(table.len(), 3);
    let monday = table.get(b"Monday").unwrap();
    assert_eq!(monday.value.as_deref(), Some(&b"Blues"[..]));
    assert_eq!(monday.timestamp, 2);
    let tuesday = table.get(b"Tuesday").unwrap();
    assert!(tuesday.deleted);
    assert_eq!(tuesday.value, None);
    assert_eq!(table.size(), (6 + 5 + 17) + (7 + 17) + (6 + 5 + 17));

    let mut expected = first.clone();
    expected.extend_from_slice(&second[..second.len() - 3]);
    assert_eq!(out, expected);

    let mut replayed = MemTable::new();
    for e in decode_all(&first).iter().chain(decode_all(&second).iter()) {
        if e.deleted {
            replayed.delete(&e.key, e.timestamp);
        } else {
            replayed.set(&e.key, e.value.as_ref().unwrap(), e.timestamp);
        }
    }
    assert_eq!(replayed.len(), table.len());
    assert_eq!(replayed.size(), table.size());
    for (a, b) in replayed.entries().iter().zip(table.entries().iter()) {
        assert_eq!(a.key, b.key);
        assert_eq!(a.value, b.value);
        assert_eq!(a.timestamp, b.timestamp);
        assert_eq!(a.deleted, b.deleted);
    }
}

#[test]
fn recover_again_gives_same_table() {
    let mut first = Vec::new();
    encode_set(&mut first, b"b", b"2", 0);
    encode_set(&mut first, b"a", b"1", 1);
    let mut second = Vec::new();
    encode_delete(&mut second, b"b", 2);
    encode_set(&mut second, b"c", b"3", 3);
    let (table, out) = recover(&vec![first, second]);
    let (again, out_again) = recover(&vec![out.clone()]);
    assert_eq!(out, out_again);
    assert_eq!(table.len(), again.len());
    assert_eq!(table.size(), again.size());
    for (a, b) in table.entries().iter().zip(again.entries().iter()) {
        assert_eq!(a.key, b.key);
        assert_eq!(a.value, b.value);
        assert_eq!(a.timestamp, b.timestamp);
        assert_eq!(a.deleted, b.deleted);
    }
}

#[test]
fn sets_in_any_order_come_out_sorted() {
    let keys: Vec<&[u8]> = vec![b"pear", b"apple", b"", b"app", b"zebra", b"apples", b"b"];
    let mut table = MemTable::new();
    for (i, k) in keys.iter().enumerate() {
        table.set(k, b"v", i as u128);
    }
    assert_eq!(table.len(), keys.len());
    let e = table.entries();
    for w in e.windows(2) {
        assert!(w[0].key < w[1].key);
    }
    assert_eq!(e[0].key, b"");
    assert_eq!(e[1].key, b"app");
}

#[test]
fn scan_skips_tombstones() {
    let mut table = MemTable::new();
    table.set(b"a", b"same", 0);
    table.set(b"b", b"same", 1);
    assert_eq!(table.scan(b"same").unwrap().key, b"a");
    table.delete(b"a", 2);
    assert_eq!(table.scan(b"same").unwrap().key, b"b");
    table.delete(b"b", 3);
    assert!(table.scan(b"same").is_none());
    assert!(table.scan(b"").is_none());
}

#[test]
fn delete_twice_rewrites_tombstone() {
    let mut table = MemTable::new();
    table.delete(b"k", 1);
    assert_eq!(table.size(), 1 + 17);
    table.delete(b"k", 2);
    assert_eq!(table.size(), 1 + 17);
    assert_eq!(table.len(), 1);
    assert_eq!(table.get(b"k").unwrap().timestamp, 2);
    table.set(b"k", b"vv", 3);
    assert_eq!(table.size(), 1 + 2 + 17);
    assert!(!table.get(b"k").unwrap().deleted);
}

#[test]
fn key_comparison_is_bytewise() {
    assert!(compare_keys(b"ab", b"abc") < 0);
    assert!(compare_keys(b"abc", b"ab") > 0);
    assert!(compare_keys(b"b", b"abc") > 0);
    assert_eq!(compare_keys(b"abc", b"abc"), 0);
    assert_eq!(compare_keys(b"", b""), 0);
    assert!(compare_keys(&[0x7f], &[0x80]) < 0);
}
