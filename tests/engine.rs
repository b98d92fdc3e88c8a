use sledis::list::Meta;
use sledis::{Conn, EngineError, Record, Tag};

fn temp_conn() -> Conn {
    let config = sled::Config::new().temporary(true);
    Conn::with_config(&config).expect("failed to open a temporary store")
}

#[test]
fn empty_list() {
    let c = temp_conn();
    assert_eq!(c.list_len(b"L").unwrap(), 0);
    let mut c = c;
    assert_eq!(c.list_pop_front(b"L").unwrap(), None);
    assert_eq!(c.list_get(b"L", 0).unwrap(), None);
}

#[test]
fn push_pop_back() {
    let mut c = temp_conn();
    c.list_push_back(b"L", b"a".to_vec()).unwrap();
    c.list_push_back(b"L", b"b".to_vec()).unwrap();
    assert_eq!(c.list_len(b"L").unwrap(), 2);
    assert_eq!(c.list_get(b"L", 0).unwrap(), Some(b"a".to_vec()));
    assert_eq!(c.list_get(b"L", 1).unwrap(), Some(b"b".to_vec()));
    assert_eq!(c.list_get(b"L", 2).unwrap(), None);
    assert_eq!(c.list_pop_back(b"L").unwrap(), Some(b"b".to_vec()));
    assert_eq!(c.list_pop_back(b"L").unwrap(), Some(b"a".to_vec()));
    assert_eq!(c.list_len(b"L").unwrap(), 0);
    assert_eq!(c.list_get_meta(b"L").unwrap(), Meta { head: 0, len: 0 });
    // the metadata record is gone
    assert!(c.remove_item(b"L").unwrap().is_none());
}

#[test]
fn mixed_ends() {
    let mut c = temp_conn();
    c.list_push_front(b"L", b"x".to_vec()).unwrap();
    c.list_push_back(b"L", b"y".to_vec()).unwrap();
    assert_eq!(c.list_get_meta(b"L").unwrap(), Meta { head: -1, len: 2 });
    assert_eq!(c.list_pop_front(b"L").unwrap(), Some(b"x".to_vec()));
    assert_eq!(c.list_pop_front(b"L").unwrap(), Some(b"y".to_vec()));
    assert_eq!(c.list_pop_front(b"L").unwrap(), None);
}

#[test]
fn type_conflict() {
    let mut c = temp_conn();
    c.list_push_back(b"N", b"v".to_vec()).unwrap();
    let old = c.blob_insert(b"N", b"b".to_vec()).unwrap();
    assert_eq!(old.map(|r| r.tag()), Some(Tag::List));
    assert_eq!(c.list_len(b"N").unwrap(), 0);
    assert_eq!(c.blob_get(b"N").unwrap(), Some(b"b".to_vec()));
}

#[test]
fn table_length() {
    let mut c = temp_conn();
    assert_eq!(c.table_insert(b"T", b"k1", b"v1".to_vec()).unwrap(), None);
    assert_eq!(c.table_insert(b"T", b"k2", b"v2".to_vec()).unwrap(), None);
    assert_eq!(c.table_insert(b"T", b"k1", b"v1'".to_vec()).unwrap(), Some(b"v1".to_vec()));
    assert_eq!(c.table_get_meta(b"T").unwrap().len(), 2);
    assert_eq!(c.table_get(b"T", b"k1").unwrap(), Some(b"v1'".to_vec()));
    assert_eq!(c.table_remove(b"T", b"k2").unwrap(), Some(b"v2".to_vec()));
    assert_eq!(c.table_get_meta(b"T").unwrap().len(), 1);
    assert_eq!(c.table_remove(b"T", b"k1").unwrap(), Some(b"v1'".to_vec()));
    assert!(c.table_get_meta(b"T").unwrap().is_empty());
    assert!(c.remove_item(b"T").unwrap().is_none());
}

#[test]
fn name_with_nul() {
    let mut c = temp_conn();
    c.list_push_back(&[0x00, 0x61], b"v".to_vec()).unwrap();
    assert_eq!(c.list_get(&[0x00, 0x61], 0).unwrap(), Some(b"v".to_vec()));
    assert_eq!(c.list_get(&[0x61], 0).unwrap(), None);
}

#[test]
fn list_set_replaces() {
    let mut c = temp_conn();
    c.list_push_back(b"L", b"a".to_vec()).unwrap();
    c.list_push_front(b"L", b"z".to_vec()).unwrap();
    assert_eq!(c.list_set(b"L", 1, b"b".to_vec()).unwrap(), Some(b"a".to_vec()));
    assert_eq!(c.list_get(b"L", 1).unwrap(), Some(b"b".to_vec()));
    assert_eq!(c.list_set(b"L", 2, b"c".to_vec()).unwrap(), None);
    assert_eq!(c.list_len(b"L").unwrap(), 2);
}

#[test]
fn list_matches_deque() {
    let mut c = temp_conn();
    let mut model: std::collections::VecDeque<Vec<u8>> = std::collections::VecDeque::new();
    let ops: [u8; 12] = [0, 2, 2, 1, 0, 3, 3, 3, 2, 0, 1, 1];
    for (i, op) in ops.iter().enumerate() {
        let v = vec![i as u8, 0];
        match op {
            0 => {
                model.push_front(v.clone());
                c.list_push_front(b"q", v).unwrap();
            }
            1 => assert_eq!(c.list_pop_front(b"q").unwrap(), model.pop_front()),
            2 => {
                model.push_back(v.clone());
                c.list_push_back(b"q", v).unwrap();
            }
            _ => assert_eq!(c.list_pop_back(b"q").unwrap(), model.pop_back()),
        }
        assert_eq!(c.list_len(b"q").unwrap(), model.len() as u64);
        for (j, item) in model.iter().enumerate() {
            assert_eq!(c.list_get(b"q", j as u64).unwrap().as_ref(), Some(item));
        }
    }
}

#[test]
fn table_update_with_closure() {
    let mut c = temp_conn();
    c.table_insert(b"T", b"k", vec![1]).unwrap();
    let old = c
        .table_update(b"T", b"k", |m, o| {
            assert_eq!(m.len(), 1);
            o.as_ref().map(|v| vec![v[0] + 1])
        })
        .unwrap();
    assert_eq!(old, Some(vec![1]));
    assert_eq!(c.table_get(b"T", b"k").unwrap(), Some(vec![2]));
    c.table_update(b"T", b"k", |_, _| None).unwrap();
    assert_eq!(c.table_get_meta(b"T").unwrap().len(), 0);
}

#[test]
fn blob_round_trip() {
    let mut c = temp_conn();
    assert_eq!(c.blob_get(b"B").unwrap(), None);
    assert!(c.blob_insert(b"B", b"one".to_vec()).unwrap().is_none());
    let old = c.blob_insert(b"B", b"two".to_vec()).unwrap().unwrap();
    assert_eq!(old.tag(), Tag::Blob);
    assert_eq!(old.data(), b"one".to_vec());
    assert_eq!(c.blob_remove(b"B").unwrap(), Some(b"two".to_vec()));
    assert_eq!(c.blob_get(b"B").unwrap(), None);
}

#[test]
fn wrong_kind_is_reported() {
    let mut c = temp_conn();
    c.table_insert(b"X", b"k", vec![1]).unwrap();
    match c.list_len(b"X") {
        Err(EngineError::BadType(Tag::List, Tag::Table)) => {}
        other => panic!("unexpected {:?}", other),
    }
    c.blob_insert(b"B", vec![1]).unwrap();
    match c.table_get(b"B", b"") {
        Ok(None) => {}
        other => panic!("unexpected {:?}", other),
    }
    assert_eq!(c.blob_remove(b"X").unwrap(), None);
    c.list_push_back(b"Y", vec![1]).unwrap();
    match c.table_insert(b"Y", b"k", vec![2]) {
        Err(EngineError::BadType(Tag::Table, Tag::List)) => {}
        other => panic!("unexpected {:?}", other),
    }
}

#[test]
fn remove_item_clears_container() {
    let mut c = temp_conn();
    c.table_insert(b"T", b"a", vec![1]).unwrap();
    c.table_insert(b"T", b"b", vec![2]).unwrap();
    c.table_insert(b"T2", b"a", vec![3]).unwrap();
    let rec = c.remove_item(b"T").unwrap().unwrap();
    assert_eq!(rec.tag(), Tag::Table);
    assert_eq!(c.table_get(b"T", b"a").unwrap(), None);
    assert_eq!(c.table_get_meta(b"T").unwrap().len(), 0);
    assert_eq!(c.table_get(b"T2", b"a").unwrap(), Some(vec![3]));
    c.clear().unwrap();
    assert_eq!(c.table_get(b"T2", b"a").unwrap(), None);
    c.flush().unwrap();
}

#[test]
fn record_envelope() {
    let raw = Record::FromData(Tag::List, vec![7, 8]).into_raw();
    assert_eq!(raw, vec![2, 7, 8]);
    let rec = Record::decode(raw).unwrap();
    assert_eq!(rec.tag(), Tag::List);
    assert_eq!(rec.data(), vec![7, 8]);
    assert!(matches!(Record::decode(vec![]), Err(sledis::RecordError::EmptyInput)));
    assert!(matches!(Record::decode(vec![3, 1]), Err(sledis::RecordError::BadTag)));
}

#[test]
fn list_meta_bytes() {
    let m = Meta { head: -2, len: 3 };
    let bytes = m.encode();
    assert_eq!(&bytes[..16], &(-2i128).to_be_bytes());
    assert_eq!(&bytes[16..], &3u64.to_be_bytes());
    assert_eq!(Meta::decode(&bytes), Some(m));
    assert_eq!(Meta::decode(&bytes[..23]), None);
    assert_eq!(m.mk_key(2), Some(0));
    assert_eq!(m.mk_key(3), None);
    assert_eq!(m.head_ix(), Some(-2));
    assert_eq!(m.tail_ix(), Some(0));
    let mut m2 = m;
    assert_eq!(m2.push_front(), -3);
    assert_eq!(m2.push_back(), 1);
    assert_eq!(m2.pop_back(), Some(1));
    assert_eq!(m2.pop_front(), Some(-3));
    assert_eq!(m2, m);
}

#[test]
fn table_meta_record() {
    let m = sledis::table::Meta { len: 258 };
    let rec = m.encode();
    assert_eq!(rec.tag(), Tag::Table);
    assert_eq!(rec.data(), 258u64.to_be_bytes().to_vec());
    assert_eq!(sledis::table::Meta::decode(&rec).unwrap(), m);
    let bad = Record::FromData(Tag::Table, vec![1, 2]);
    assert!(matches!(
        sledis::table::Meta::decode(&bad),
        Err(EngineError::Table(sledis::table::TableError::InvalidMeta(_)))
    ));
}

#[test]
fn table_matches_map() {
    let mut c = temp_conn();
    let mut model: std::collections::BTreeMap<Vec<u8>, Vec<u8>> = std::collections::BTreeMap::new();
    let keys: [&[u8]; 4] = [b"", b"a", &[0], &[0, 0x61]];
    let ops: [(u8, usize); 12] = [
        (0, 0), (0, 1), (1, 2), (0, 2), (0, 1), (1, 1),
        (0, 3), (1, 0), (1, 0), (0, 0), (1, 3), (1, 2),
    ];
    for (n, (op, k)) in ops.iter().enumerate() {
        let key = keys[*k];
        if *op == 0 {
            let v = vec![n as u8];
            assert_eq!(c.table_insert(b"T", key, v.clone()).unwrap(), model.insert(key.to_vec(), v));
        } else {
            assert_eq!(c.table_remove(b"T", key).unwrap(), model.remove(key));
        }
        assert_eq!(c.table_get_meta(b"T").unwrap().len(), model.len() as u64);
        for k in keys.iter() {
            assert_eq!(c.table_get(b"T", k).unwrap().as_ref(), model.get(*k));
        }
    }
}

#[test]
fn list_len_counts_items() {
    let mut c = temp_conn();
    c.list_push_back(b"L", vec![1]).unwrap();
    c.list_push_front(b"L", vec![2]).unwrap();
    c.list_push_back(b"L", vec![3]).unwrap();
    c.list_pop_front(b"L").unwrap();
    let len = c.list_len(b"L").unwrap();
    assert_eq!(len, 2);
    for i in 0..len {
        assert!(c.list_get(b"L", i).unwrap().is_some());
    }
    assert_eq!(c.list_get(b"L", len).unwrap(), None);
    c.list_pop_back(b"L").unwrap();
    c.list_pop_back(b"L").unwrap();
    assert_eq!(c.list_len(b"L").unwrap(), 0);
    assert!(c.remove_item(b"L").unwrap().is_none());
}

#[test]
fn table_len_counts_entries() {
    let mut c = temp_conn();
    c.table_insert(b"T", b"x", vec![1]).unwrap();
    c.table_insert(b"T", b"y", vec![2]).unwrap();
    c.table_remove(b"T", b"z").unwrap();
    assert_eq!(c.table_get_meta(b"T").unwrap().len(), 2);
    c.table_remove(b"T", b"x").unwrap();
    c.table_remove(b"T", b"y").unwrap();
    assert_eq!(c.table_get_meta(b"T").unwrap().len(), 0);
    assert!(c.remove_item(b"T").unwrap().is_none());
}

#[test]
fn names_are_independent() {
    let mut c = temp_conn();
    c.list_push_back(b"a", vec![1]).unwrap();
    c.table_insert(b"b", b"k", vec![2]).unwrap();
    c.blob_insert(b"c", vec![3]).unwrap();
    c.remove_item(b"a").unwrap();
    assert_eq!(c.table_get(b"b", b"k").unwrap(), Some(vec![2]));
    assert_eq!(c.blob_get(b"c").unwrap(), Some(vec![3]));
    assert_eq!(c.list_len(b"a").unwrap(), 0);
}
