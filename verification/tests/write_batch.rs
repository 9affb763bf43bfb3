use std::collections::HashMap;

use widecolumns::{BatchOp, ColumnFamily, Error, WideColumn, WideColumns, WriteBatch,
    WriteBatchIterator};

struct ReplayCheck {
    data: HashMap<Vec<u8>, Vec<u8>>,
}

impl WriteBatchIterator for ReplayCheck {
    fn put(&mut self, key: Vec<u8>, value: Vec<u8>) {
        match self.data.remove(key.as_slice()) {
            Some(expect) => {
                assert_eq!(value.as_slice(), expect.as_slice());
            }
            None => {
                panic!("key not exists");
            }
        }
    }

    fn delete(&mut self, _: Vec<u8>) {
        panic!("invalid delete operation");
    }

    fn put_entity(&mut self, _: Vec<u8>, _: Vec<Vec<u8>>, _: Vec<Vec<u8>>) {
        panic!("invalid entity operation");
    }
}

struct OpLog {
    puts: Vec<(Vec<u8>, Vec<u8>)>,
    deletes: Vec<Vec<u8>>,
    entities: Vec<(Vec<u8>, Vec<Vec<u8>>, Vec<Vec<u8>>)>,
}

impl OpLog {
    fn new() -> OpLog {
        OpLog { puts: Vec::new(), deletes: Vec::new(), entities: Vec::new() }
    }
}

impl WriteBatchIterator for OpLog {
    fn put(&mut self, key: Vec<u8>, value: Vec<u8>) {
        self.puts.push((key, value));
    }

    fn delete(&mut self, key: Vec<u8>) {
        self.deletes.push(key);
    }

    fn put_entity(&mut self, key: Vec<u8>, names: Vec<Vec<u8>>, values: Vec<Vec<u8>>) {
        self.entities.push((key, names, values));
    }
}

#[test]
fn test_write_batch_clear() {
    let mut batch = WriteBatch::default();
    batch.put(b"1", b"2");
    assert_eq!(batch.len(), 1);
    batch.clear();
    assert_eq!(batch.len(), 0);
    assert!(batch.is_empty());
}

#[test]
fn test_write_batch_with_serialized_data() {
    let mut kvs: HashMap<Vec<u8>, Vec<u8>> = HashMap::default();
    kvs.insert(vec![1], vec![2]);
    kvs.insert(vec![2], vec![3]);
    kvs.insert(vec![1, 2, 3, 4, 5], vec![4]);

    let mut b1 = WriteBatch::default();
    for (k, v) in &kvs {
        b1.put(k, v);
    }
    let data = b1.data();

    let b2 = WriteBatch::from_data(&data).unwrap();
    let mut it = ReplayCheck { data: kvs };
    b2.iterate(&mut it);
    assert!(it.data.is_empty());
}

#[test]
fn test_write_batch_wide_columns() {
    let cf = ColumnFamily { id: 1 };
    let names: Vec<Vec<u8>> = vec![b"567".to_vec(), b"1234".to_vec()];
    let values: Vec<Vec<u8>> = vec![b"123f4".to_vec(), b"43d2100".to_vec()];

    let mut batch = WriteBatch::default();
    batch.put_entity_cf(&cf, b"v1111", &names, &values).unwrap();
    batch.put_entity_cf(&cf, b"v2222", &names, &values).unwrap();

    let mut log = OpLog::new();
    batch.iterate(&mut log);
    assert_eq!(log.entities.len(), 2);
    assert_eq!(log.entities[0].0, b"v1111".to_vec());
    assert_eq!(log.entities[1].0, b"v2222".to_vec());

    for (_, got_names, got_values) in &log.entities {
        // The engine returns a lookup's columns in its native storage order,
        // which is reverse-insertion order in the reference engine.
        let entries = vec![
            WideColumn { name: got_names[1].clone(), value: got_values[1].clone() },
            WideColumn { name: got_names[0].clone(), value: got_values[0].clone() },
        ];
        let columns = WideColumns::from_entries(entries);
        let mut it = columns.iter();
        let mut collected: Vec<&WideColumn> = Vec::new();
        while let Some(c) = it.next() {
            collected.push(c);
        }
        assert_eq!(collected.len(), 2);
        assert_eq!(collected[0].name, names[1]);
        assert_eq!(collected[0].value, values[1]);
        assert_eq!(collected[1].name, names[0]);
        assert_eq!(collected[1].value, values[0]);
    }
}

#[test]
fn test_round_trip_preserves_bytes() {
    let cf = ColumnFamily { id: 3 };
    let mut batch = WriteBatch::new();
    batch.put(b"alpha", b"one");
    batch.delete(b"beta");
    batch.put_cf(&cf, b"gamma", b"two");
    batch.delete_cf(&cf, b"delta");
    let data = batch.data();

    let reloaded = WriteBatch::from_data(&data).unwrap();
    assert_eq!(reloaded.len(), 4);
    assert_eq!(reloaded.data(), data);
}

#[test]
fn test_reload_and_replay_in_insertion_order() {
    let mut batch = WriteBatch::default();
    batch.put(&[1], &[2]);
    batch.put(&[2], &[3]);
    batch.put(&[1, 2, 3, 4, 5], &[4]);
    let data = batch.data();

    let reloaded = WriteBatch::from_data(&data).unwrap();
    let mut log = OpLog::new();
    reloaded.iterate(&mut log);
    assert_eq!(log.deletes.len(), 0);
    assert_eq!(log.entities.len(), 0);
    assert_eq!(log.puts.len(), 3);
    assert_eq!(log.puts[0], (vec![1], vec![2]));
    assert_eq!(log.puts[1], (vec![2], vec![3]));
    assert_eq!(log.puts[2], (vec![1, 2, 3, 4, 5], vec![4]));
}

#[test]
fn test_clear_resets_log_to_empty_encoding() {
    let cf = ColumnFamily { id: 9 };
    let mut batch = WriteBatch::new();
    batch.put(b"k", b"v");
    batch.put_entity_cf(&cf, b"e", &vec![b"n".to_vec()], &vec![b"v".to_vec()]).unwrap();
    let exported = batch.data();
    assert!(!exported.is_empty());

    batch.clear();
    assert_eq!(batch.len(), 0);
    assert!(batch.is_empty());
    assert_eq!(batch.data(), WriteBatch::new().data());
    assert_eq!(batch.data(), Vec::<u8>::new());
    // buffers exported before the clear are independent copies
    assert!(!exported.is_empty());
}

#[test]
fn test_entity_mismatched_counts_rejected() {
    let cf = ColumnFamily { id: 2 };
    let mut batch = WriteBatch::new();
    batch.put(b"prior", b"record");
    let before = batch.data();

    let names = vec![b"a".to_vec(), b"b".to_vec(), b"c".to_vec()];
    let values = vec![b"1".to_vec(), b"2".to_vec()];
    let r = batch.put_entity_cf(&cf, b"key", &names, &values);
    assert_eq!(r, Err(Error::InvalidArgument));
    assert_eq!(batch.len(), 1);
    assert_eq!(batch.data(), before);
}

#[test]
fn test_entity_replay_keeps_pairing_and_order() {
    let cf = ColumnFamily { id: 5 };
    let names = vec![b"first".to_vec(), b"second".to_vec()];
    let values = vec![b"1".to_vec(), b"22".to_vec()];
    let mut batch = WriteBatch::new();
    batch.put_entity_cf(&cf, b"entity", &names, &values).unwrap();

    let reloaded = WriteBatch::from_data(&batch.data()).unwrap();
    let mut log = OpLog::new();
    reloaded.iterate(&mut log);
    assert_eq!(log.entities.len(), 1);
    let (key, got_names, got_values) = &log.entities[0];
    assert_eq!(key, &b"entity".to_vec());
    assert_eq!(got_names, &names);
    assert_eq!(got_values, &values);
}

#[test]
fn test_exact_put_encoding() {
    let mut batch = WriteBatch::new();
    batch.put(b"1", b"2");
    let expected: Vec<u8> = vec![
        0, // upsert tag
        1, 0, 0, 0, 0, 0, 0, 0, // key length
        0x31, // "1"
        1, 0, 0, 0, 0, 0, 0, 0, // value length
        0x32, // "2"
    ];
    assert_eq!(batch.data(), expected);
}

#[test]
fn test_exact_delete_cf_encoding() {
    let cf = ColumnFamily { id: 7 };
    let mut batch = WriteBatch::new();
    batch.delete_cf(&cf, b"k");
    let expected: Vec<u8> = vec![
        3, // deletion-with-column-family tag
        7, 0, 0, 0, // column family
        1, 0, 0, 0, 0, 0, 0, 0, // key length
        0x6b, // "k"
    ];
    assert_eq!(batch.data(), expected);
}

#[test]
fn test_exact_entity_encoding() {
    let cf = ColumnFamily { id: 1 };
    let mut batch = WriteBatch::new();
    batch.put_entity_cf(&cf, b"k", &vec![b"n".to_vec()], &vec![b"w".to_vec()]).unwrap();
    let expected: Vec<u8> = vec![
        4, // entity-upsert tag
        1, 0, 0, 0, // column family
        1, 0, 0, 0, 0, 0, 0, 0, // key length
        0x6b, // "k"
        1, 0, 0, 0, 0, 0, 0, 0, // column count
        1, 0, 0, 0, 0, 0, 0, 0, // name length
        0x6e, // "n"
        1, 0, 0, 0, 0, 0, 0, 0, // value length
        0x77, // "w"
    ];
    assert_eq!(batch.data(), expected);
}

#[test]
fn test_from_data_empty_is_empty_batch() {
    let batch = WriteBatch::from_data(&[]).unwrap();
    assert_eq!(batch.len(), 0);
    assert!(batch.is_empty());
    assert_eq!(batch.data(), Vec::<u8>::new());
}

#[test]
fn test_from_data_rejects_unknown_tag() {
    assert_eq!(WriteBatch::from_data(&[9]).err(), Some(Error::Corrupt));
}

#[test]
fn test_from_data_rejects_truncated_record() {
    let mut batch = WriteBatch::new();
    batch.put(b"abc", b"def");
    let mut data = batch.data();
    data.pop();
    assert_eq!(WriteBatch::from_data(&data).err(), Some(Error::Corrupt));
}

#[test]
fn test_from_data_rejects_trailing_garbage() {
    let mut batch = WriteBatch::new();
    batch.delete(b"x");
    let mut data = batch.data();
    data.push(0xff);
    assert_eq!(WriteBatch::from_data(&data).err(), Some(Error::Corrupt));
}

#[test]
fn test_ops_lists_records_in_order() {
    let cf = ColumnFamily { id: 4 };
    let mut batch = WriteBatch::new();
    batch.put_cf(&cf, b"a", b"1");
    batch.delete(b"b");
    let records = batch.ops();
    assert_eq!(records.len(), 2);
    match &records[0] {
        BatchOp::PutCf { cf: id, key, value } => {
            assert_eq!(*id, 4);
            assert_eq!(key, &b"a".to_vec());
            assert_eq!(value, &b"1".to_vec());
        }
        _ => panic!("first record is not the scoped upsert"),
    }
    match &records[1] {
        BatchOp::Delete { key } => {
            assert_eq!(key, &b"b".to_vec());
        }
        _ => panic!("second record is not the deletion"),
    }
}

#[test]
fn test_empty_key_and_value_permitted() {
    let mut batch = WriteBatch::new();
    batch.put(b"", b"");
    assert_eq!(batch.len(), 1);
    let reloaded = WriteBatch::from_data(&batch.data()).unwrap();
    let mut log = OpLog::new();
    reloaded.iterate(&mut log);
    assert_eq!(log.puts.len(), 1);
    assert_eq!(log.puts[0], (Vec::new(), Vec::new()));
}
