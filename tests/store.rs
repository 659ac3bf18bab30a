use valet::{Error, LotRow, RecordRow, Store, UserRow, WrappedKeyRow};

fn user_row(name: &str) -> UserRow {
    UserRow {
        username: name.to_string(),
        salt: b"low sodium".to_vec(),
        validation_data: b"test".to_vec(),
        validation_nonce: b"not".to_vec(),
    }
}

#[test]
fn users_insert_and_select() {
    let mut store = Store::new();
    store.insert_user(user_row("alice")).expect("failed to insert user");
    let selected = store.select_user("alice").expect("failed to select user");
    assert_eq!(selected.salt, b"low sodium".to_vec());
    assert_eq!(store.insert_user(user_row("alice")), Err(Error::AlreadyExists));
    assert!(store.select_user("bob").is_none());
}

#[test]
fn lots_upsert_and_select() {
    let mut store = Store::new();
    store.upsert_lot(LotRow { id: "1".to_string(), name: "Lot A".to_string() }).expect("failed to insert lot");
    store.upsert_lot(LotRow { id: "1".to_string(), name: "Lot A2".to_string() }).expect("failed to rename lot");
    assert!(store.select_lot_by_name("Lot A").is_none());
    assert_eq!(store.select_lot_by_name("Lot A2").expect("missing lot").id, "1");
    assert_eq!(store.select_lot_by_id("1").expect("missing lot").name, "Lot A2");
    assert_eq!(
        store.upsert_lot(LotRow { id: "2".to_string(), name: "Lot A2".to_string() }),
        Err(Error::AlreadyExists)
    );
}

#[test]
fn user_lot_keys_upsert_and_selects() {
    let mut store = Store::new();
    store.upsert_wrapped_key(WrappedKeyRow {
        username: "alice".to_string(),
        lot_id: "1".to_string(),
        data: b"userlotakey".to_vec(),
        nonce: b"userlotanonce".to_vec(),
    });
    store.upsert_wrapped_key(WrappedKeyRow {
        username: "alice".to_string(),
        lot_id: "1".to_string(),
        data: b"replaced".to_vec(),
        nonce: b"nonce".to_vec(),
    });
    let selected = store.select_wrapped_key("alice", "1").expect("failed to select");
    assert_eq!(selected.data, b"replaced".to_vec());
    assert!(store.select_wrapped_key("bob", "1").is_none());
    assert!(store.select_wrapped_key("alice", "2").is_none());
}

#[test]
fn records_upsert_and_select_by_lot() {
    let mut store = Store::new();
    let row = |lot: &str, id: &str, data: &[u8]| RecordRow {
        lot_id: lot.to_string(),
        id: id.to_string(),
        data: data.to_vec(),
        nonce: b"something".to_vec(),
    };
    store.upsert_record(row("123", "a_record", b"encrypted"));
    store.upsert_record(row("456", "b_record", b"other"));
    store.upsert_record(row("123", "c_record", b"third"));
    store.upsert_record(row("123", "a_record", b"updated"));
    let rows = store.select_records_by_lot("123");
    assert_eq!(rows.len(), 2);
    assert_eq!(rows[0].id, "a_record");
    assert_eq!(rows[0].data, b"updated".to_vec());
    assert_eq!(rows[1].id, "c_record");
}
