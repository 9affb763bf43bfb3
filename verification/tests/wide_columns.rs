use widecolumns::{Error, Iterable, PinnableWideColumns, WideColumn, WideColumns};

fn sample_entries() -> Vec<WideColumn> {
    vec![
        WideColumn { name: b"one".to_vec(), value: b"1".to_vec() },
        WideColumn { name: b"two".to_vec(), value: b"22".to_vec() },
        WideColumn { name: b"three".to_vec(), value: b"333".to_vec() },
    ]
}

#[test]
fn test_len_and_is_empty() {
    let cols = WideColumns::from_entries(sample_entries());
    assert_eq!(cols.len(), 3);
    assert!(!cols.is_empty());

    let empty = WideColumns::from_entries(Vec::new());
    assert_eq!(empty.len(), 0);
    assert!(empty.is_empty());
}

#[test]
fn test_get_column_accessors() {
    let cols = WideColumns::from_entries(sample_entries());
    assert_eq!(cols.get_column_name(0).unwrap(), &b"one".to_vec());
    assert_eq!(cols.get_column_value(1).unwrap(), &b"22".to_vec());
    let c = cols.get_column(2).unwrap();
    assert_eq!(c.name, b"three".to_vec());
    assert_eq!(c.value, b"333".to_vec());
}

#[test]
fn test_out_of_range_access_is_an_error() {
    let cols = WideColumns::from_entries(sample_entries());
    assert_eq!(cols.get_column_name(3).err(), Some(Error::OutOfRange));
    assert_eq!(cols.get_column_value(100).err(), Some(Error::OutOfRange));
    assert!(cols.get_column(3).is_err());

    let empty = WideColumns::from_entries(Vec::new());
    assert_eq!(empty.get_column_name(0).err(), Some(Error::OutOfRange));
}

#[test]
fn test_iteration_completeness() {
    let cols = WideColumns::from_entries(sample_entries());
    let mut it = cols.iter();
    let mut collected: Vec<&WideColumn> = Vec::new();
    while let Some(c) = it.next() {
        collected.push(c);
    }
    assert_eq!(collected.len(), cols.len());
    for (idx, c) in collected.iter().enumerate() {
        let expect = cols.get_column(idx).unwrap();
        assert_eq!(c.name, expect.name);
        assert_eq!(c.value, expect.value);
    }
}

#[test]
fn test_iteration_restartable() {
    let cols = WideColumns::from_entries(sample_entries());
    let mut first: Vec<(Vec<u8>, Vec<u8>)> = Vec::new();
    let mut it = cols.iter();
    while let Some(c) = it.next() {
        first.push((c.name.clone(), c.value.clone()));
    }
    let mut second: Vec<(Vec<u8>, Vec<u8>)> = Vec::new();
    let mut it2 = cols.iter();
    while let Some(c) = it2.next() {
        second.push((c.name.clone(), c.value.clone()));
    }
    assert_eq!(first.len(), 3);
    assert_eq!(first, second);
}

#[test]
fn test_iteration_past_end_yields_none() {
    let cols = WideColumns::from_entries(vec![
        WideColumn { name: b"n".to_vec(), value: b"v".to_vec() },
    ]);
    let mut it = cols.iter();
    assert!(it.next().is_some());
    assert!(it.next().is_none());
    assert!(it.next().is_none());

    let empty = WideColumns::from_entries(Vec::new());
    let mut it2 = empty.iter();
    assert!(it2.next().is_none());
}

#[test]
fn test_iteration_keeps_native_order() {
    let cols = WideColumns::from_entries(sample_entries());
    let mut it = cols.iter();
    assert_eq!(it.next().unwrap().name, b"one".to_vec());
    assert_eq!(it.next().unwrap().name, b"two".to_vec());
    assert_eq!(it.next().unwrap().name, b"three".to_vec());
    assert!(it.next().is_none());
}

#[test]
fn test_pinnable_reads_like_plain() {
    let cols = PinnableWideColumns::from_entries(sample_entries());
    assert_eq!(cols.len(), 3);
    assert!(!cols.is_empty());
    assert_eq!(cols.get_column_name(0).unwrap(), &b"one".to_vec());
    assert_eq!(cols.get_column_value(2).unwrap(), &b"333".to_vec());
    assert_eq!(cols.get_column_name(3).err(), Some(Error::OutOfRange));

    let mut it = cols.iter();
    let mut n = 0;
    while let Some(c) = it.next() {
        let expect = cols.get_column(n).unwrap();
        assert_eq!(c.name, expect.name);
        assert_eq!(c.value, expect.value);
        n += 1;
    }
    assert_eq!(n, 3);
}

#[test]
fn test_iterable_capability() {
    let plain = WideColumns::from_entries(sample_entries());
    let mut it = Iterable::iter(&plain);
    assert_eq!(it.next().unwrap().name, b"one".to_vec());

    let pinned = PinnableWideColumns::from_entries(sample_entries());
    let mut it2 = Iterable::iter(&pinned);
    assert_eq!(it2.next().unwrap().name, b"one".to_vec());
}
