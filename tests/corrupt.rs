use sledis::keys::{blob, list, list_meta, table};
use sledis::list::{ListError, Meta};
use sledis::table::TableError;
use sledis::{Conn, EngineError, Record, RecordError, Tag};

fn conn_over(entries: &[(Vec<u8>, Vec<u8>)]) -> Conn {
    let config = sled::Config::new().temporary(true);
    {
        let db = config.open().expect("open");
        let items = db.open_tree("items").expect("tree");
        for (k, v) in entries {
            items.insert(k.as_slice(), v.as_slice()).expect("insert");
        }
        db.flush().expect("flush");
    }
    Conn::with_config(&config).expect("reopen")
}

fn list_meta_record(head: i128, len: u64) -> Vec<u8> {
    Record::FromData(Tag::List, Meta { head, len }.encode().to_vec()).into_raw()
}

#[test]
fn list_meta_of_wrong_length() {
    let c = conn_over(&[(list_meta(b"N"), vec![2, 1, 2, 3])]);
    match c.list_len(b"N") {
        Err(EngineError::List(ListError::InvalidMeta(n))) => assert_eq!(n, b"N".to_vec()),
        other => panic!("unexpected {:?}", other),
    }
}

#[test]
fn list_item_missing() {
    let mut c = conn_over(&[(list_meta(b"N"), list_meta_record(0, 1))]);
    match c.list_pop_front(b"N") {
        Err(EngineError::List(ListError::MissingVal(n, ix))) => {
            assert_eq!(n, b"N".to_vec());
            assert_eq!(ix, 0);
        }
        other => panic!("unexpected {:?}", other),
    }
    assert_eq!(c.list_len(b"N").unwrap(), 1);
}

#[test]
fn list_out_of_indices() {
    let item = Record::FromData(Tag::List, b"v".to_vec()).into_raw();
    let mut c = conn_over(&[
        (list_meta(b"F"), list_meta_record(i128::MIN, 1)),
        (list(b"F", i128::MIN), item.clone()),
        (list_meta(b"B"), list_meta_record(i128::MAX, 1)),
        (list(b"B", i128::MAX), item),
    ]);
    match c.list_push_front(b"F", b"w".to_vec()) {
        Err(EngineError::List(ListError::Full(n))) => assert_eq!(n, b"F".to_vec()),
        other => panic!("unexpected {:?}", other),
    }
    match c.list_push_back(b"B", b"w".to_vec()) {
        Err(EngineError::List(ListError::Full(n))) => assert_eq!(n, b"B".to_vec()),
        other => panic!("unexpected {:?}", other),
    }
    c.list_push_back(b"F", b"w".to_vec()).unwrap();
    assert_eq!(c.list_get(b"F", 1).unwrap(), Some(b"w".to_vec()));
    assert_eq!(c.list_pop_front(b"B").unwrap(), Some(b"v".to_vec()));
}

#[test]
fn table_count_disagrees() {
    let item = Record::FromData(Tag::Table, b"v".to_vec()).into_raw();
    let mut c = conn_over(&[(table(b"T", b"k"), item)]);
    match c.table_remove(b"T", b"k") {
        Err(EngineError::Table(TableError::InvalidMeta(p))) => assert_eq!(p, 0u64.to_be_bytes().to_vec()),
        other => panic!("unexpected {:?}", other),
    }
    assert_eq!(c.table_get(b"T", b"k").unwrap(), Some(b"v".to_vec()));
}

#[test]
fn stored_value_not_a_record() {
    let mut c = conn_over(&[(blob(b"E"), vec![]), (blob(b"G"), vec![9, 1])]);
    assert!(matches!(c.blob_get(b"E"), Err(EngineError::Record(RecordError::EmptyInput))));
    assert!(matches!(c.blob_get(b"G"), Err(EngineError::Record(RecordError::BadTag))));
    assert!(matches!(c.blob_remove(b"G"), Err(EngineError::Record(RecordError::BadTag))));
    assert!(matches!(c.remove_item(b"E"), Err(EngineError::Record(RecordError::EmptyInput))));
}
