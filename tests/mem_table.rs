use lsm_wal::mem_table::MemTable;

#[test]
fn test_mem_table_put_start() {
  let mut table = MemTable::new();
  table.set(b"Monday", b"Rejoice", 0);       // 13 + 16 + 1
  table.set(b"Tuesday", b"Celebrate", 10);   // 16 + 16 + 1
  // This one should go at the beginning of the table
  table.set(b"Friday",  b"Party", 21);       // 11 + 16 + 1

  assert_eq!(table.len(), 3);
  assert_eq!(table.size(), 91);

  assert_eq!(table.entries()[0].key, b"Friday");
  assert_eq!(table.entries()[0].value.as_ref().unwrap(), b"Party");
  assert_eq!(table.entries()[0].timestamp, 21);
  assert_eq!(table.entries()[0].deleted, false);


  assert_eq!(table.entries()[1].key, b"Monday");
  assert_eq!(table.entries()[1].value.as_ref().unwrap(), b"Rejoice");
  assert_eq!(table.entries()[1].timestamp, 0);
  assert_eq!(table.entries()[1].deleted, false);

  assert_eq!(table.entries()[2].key, b"Tuesday");
  assert_eq!(table.entries()[2].value.as_ref().unwrap(), b"Celebrate");
  assert_eq!(table.entries()[2].timestamp, 10);
  assert_eq!(table.entries()[2].deleted, false);
}

#[test]
fn test_mem_table_put_middle() {
  let mut table = MemTable::new();

  table.set(b"Tuesday", b"Celebrate", 10);
  table.set(b"Friday", b"Party", 21);
  // This one goes into the middle of the table
  table.set(b"Monday", b"Rejoice", 0);

  assert_eq!(table.len(), 3);
  assert_eq!(table.size(), 91);

  assert_eq!(table.entries()[0].key, b"Friday");
  assert_eq!(table.entries()[0].value.as_ref().unwrap(), b"Party");
  assert_eq!(table.entries()[0].timestamp, 21);
  assert_eq!(table.entries()[0].deleted, false);


  assert_eq!(table.entries()[1].key, b"Monday");
  assert_eq!(table.entries()[1].value.as_ref().unwrap(), b"Rejoice");
  assert_eq!(table.entries()[1].timestamp, 0);
  assert_eq!(table.entries()[1].deleted, false);

  assert_eq!(table.entries()[2].key, b"Tuesday");
  assert_eq!(table.entries()[2].value.as_ref().unwrap(), b"Celebrate");
  assert_eq!(table.entries()[2].timestamp, 10);
  assert_eq!(table.entries()[2].deleted, false); 
}

#[test]
fn test_mem_table_get_exists() {
  let mut table = MemTable::new();

  table.set(b"Monday", b"Rejoice", 0);
  table.set(b"Tuesday", b"Celebrate", 10);
  table.set(b"Friday", b"Party", 21);
  
  let entry = table.get(b"Monday").unwrap();
  assert_eq!(entry.key, b"Monday");
  assert_eq!(entry.value.as_ref().unwrap(), b"Rejoice");
  assert_eq!(entry.timestamp, 0);
  assert_eq!(entry.deleted, false);
}

#[test]
fn test_mem_table_get_not_exists() {
  let mut table = MemTable::new();

  table.set(b"Monday", b"Rejoice", 0);
  table.set(b"Tuesday", b"Celebrate", 10);
  table.set(b"Friday", b"Party", 21);
  
  let entry = table.get(b"Thursday");
  assert_eq!(entry.is_some(), false);
}

#[test]
fn test_mem_table_scan_exists() {
  let mut table = MemTable::new();

  table.set(b"Monday", b"Rejoice", 0);
  table.set(b"Tuesday", b"Celebrate", 10);
  table.set(b"Friday", b"Party", 21);

  let entry = table.scan(b"Party").unwrap();
  assert_eq!(entry.key, b"Friday");
  assert_eq!(entry.value.as_ref().unwrap(), b"Party");
  assert_eq!(entry.timestamp, 21);
  assert_eq!(entry.deleted, false);
}

#[test]
fn test_mem_table_scan_not_exists() {
  let mut table = MemTable::new();
  
  table.set(b"Monday", b"Rejoice", 0);
  table.set(b"Tuesday", b"Celebrate", 10);
  table.set(b"Friday", b"Party", 21);

  let entry = table.scan(b"Blues");
  assert_eq!(entry.is_some(), false);  
}

#[test]
fn test_mem_table_put_overwrite() {
  let mut table = MemTable::new();

  table.set(b"Monday", b"Rejoice", 0);
  table.set(b"Tuesday", b"Celebrate", 10);
  table.set(b"Friday", b"Party", 21);
  
  assert_eq!(table.len(), 3);
  assert_eq!(table.size(), 91);

  assert_eq!(table.entries()[1].key, b"Monday");
  assert_eq!(table.entries()[1].value.as_ref().unwrap(), b"Rejoice");
  assert_eq!(table.entries()[1].timestamp, 0);
  assert_eq!(table.entries()[1].deleted, false);

  table.set(b"Monday", b"Blues", 25);

  assert_eq!(table.len(), 3);
  assert_eq!(table.size(), 89);
  
  assert_eq!(table.entries()[1].key, b"Monday");
  assert_eq!(table.entries()[1].value.as_ref().unwrap(), b"Blues");
  assert_eq!(table.entries()[1].timestamp, 25);
  assert_eq!(table.entries()[1].deleted, false);
}

#[test]
fn test_mem_table_delete_exists() {
  let mut table = MemTable::new();

  table.set(b"Monday", b"Rejoice", 0);
  table.set(b"Tuesday", b"Celebrate", 10);
  table.set(b"Friday", b"Party", 21);

  table.delete(b"Monday", 30);
  assert_eq!(table.len(), 3);
  assert_eq!(table.size(), 84);

  let entry = table.get(b"Monday").unwrap();
  assert_eq!(entry.key, b"Monday");
  assert_eq!(entry.value, None);
  assert_eq!(entry.timestamp, 30);
  assert_eq!(entry.deleted, true);
}

#[test]
fn test_mem_table_delete_not_exists() {
  let mut table = MemTable::new();

  table.set(b"Monday", b"Rejoice", 0);
  table.set(b"Tuesday", b"Celebrate", 10);
  table.set(b"Friday", b"Party", 21);

  let entry = table.get(b"Thursday");
  assert_eq!(entry.is_some(), false);

  table.delete(b"Thursday", 30);
  assert_eq!(table.len(), 4);
  assert_eq!(table.size(), 116);

  let entry = table.get(b"Thursday").unwrap();
  assert_eq!(entry.key, b"Thursday");
  assert_eq!(entry.value, None);
  assert_eq!(entry.timestamp, 30);
  assert_eq!(entry.deleted, true);
}
