use valet::{Encrypted, Error, Key, Lot, LotTag, Password, Record, RecordData, Store, User, DEFAULT_LOT};

fn password(text: &str) -> Password {
    Password::from(text.to_string())
}

fn registered(store: &mut Store, name: &str, pw: &str) -> User {
    User::new(name, password(pw))
        .expect("failed to make user")
        .register(store)
        .expect("failed to register user")
}

/// The lot key as unwrapped from the user's wrapping row.
fn get_user_lot_key(store: &Store, user: &User, lot: &Lot) -> Key<LotTag> {
    let row = store
        .select_wrapped_key(user.username(), &lot.uuid().to_text())
        .expect("failed to select user lot key");
    let encrypted = Encrypted { data: row.data.clone(), nonce: row.nonce.clone() };
    Key::<LotTag>::from_bytes(&user.key().decrypt(&encrypted).expect("failed to decrypt lot key"))
}

fn wrapped_bytes(store: &Store, user: &User, lot: &Lot) -> Vec<u8> {
    store
        .select_wrapped_key(user.username(), &lot.uuid().to_text())
        .expect("failed to select user lot key")
        .data
        .clone()
}

#[test]
fn lot_new() {
    let lot = Lot::new("lot a").expect("failed to create lot");
    assert_eq!(36, lot.uuid().to_text().len());
    assert!(lot.records().is_empty());
}

#[test]
fn create_load() {
    let mut store = Store::new();
    let user = registered(&mut store, "nixpulvis", "password");
    let mut lot_a = Lot::new("lot a").expect("failed to create lot");
    // Save the lot without any records.
    lot_a.save(&mut store, &user).expect("failed to save lot");
    // Insert a record.
    Record::new(&lot_a, RecordData::plain("a", "1"))
        .expect("failed to create record")
        .insert(&mut store, &mut lot_a)
        .expect("failed to insert record");
    // Add a record without storing it; the save stores it.
    let record = Record::new(&lot_a, RecordData::plain("b", "2")).expect("failed to create record");
    lot_a.add_record(record).expect("failed to add record");
    lot_a.save(&mut store, &user).expect("failed to save lot");

    let lot_b = Lot::load(&store, lot_a.name(), &user).expect("failed to load lot");
    assert_eq!(lot_a.records(), lot_b.records());
}

#[test]
fn user_lot_key() {
    let mut store = Store::new();
    let user = registered(&mut store, "nixpulvis", "password");
    let lot = Lot::new("lot a").expect("failed to create lot");
    lot.save(&mut store, &user).expect("failed to save lot");
    let lot_key = get_user_lot_key(&store, &user, &lot);
    assert_eq!(lot.key().as_bytes(), lot_key.as_bytes());
}

#[test]
fn user_lot_key_update() {
    let mut store = Store::new();
    let user = registered(&mut store, "nixpulvis", "password");
    let mut lot = Lot::new("lot a").expect("failed to create lot");
    let record = Record::new(&lot, RecordData::plain("a", "1")).expect("failed to create record");
    lot.add_record(record).expect("failed to add record");
    lot.save(&mut store, &user).expect("failed to save lot");
    let lot_key_a = get_user_lot_key(&store, &user, &lot);
    lot.set_key(Key::<LotTag>::new().expect("failed to generate key"));
    // Update lot key, user_lot_key, and reencrypt all records.
    lot.save(&mut store, &user).expect("failed to save lot");
    let lot_key_b = get_user_lot_key(&store, &user, &lot);
    assert_ne!(lot_key_a.as_bytes(), lot_key_b.as_bytes());
    // Ensure the records got reencrypted and we can still access them.
    let lot = Lot::load(&store, lot.name(), &user).expect("failed to load lot");
    assert_eq!(1, lot.records().len());
    assert_eq!("a", lot.records()[0].data().label());
}

#[test]
fn record_insert() {
    let mut store = Store::new();
    let user = registered(&mut store, "nixpulvis", "password");
    let mut lot = Lot::new("lot a").expect("failed to create lot");
    lot.save(&mut store, &user).expect("failed to save lot");
    let inserted_uuid = Record::new(&lot, RecordData::plain("foo", "bar"))
        .expect("failed to create record")
        .insert(&mut store, &mut lot)
        .expect("failed to insert record");
    assert_eq!(lot.uuid(), lot.records()[0].lot());
    assert_eq!(&inserted_uuid, lot.records()[0].uuid());
}

#[test]
fn load_all() {
    let mut store = Store::new();
    let user = registered(&mut store, "nixpulvis", "password");
    let mut lot = Lot::new("lot a").expect("failed to create lot");
    lot.save(&mut store, &user).expect("failed to save lot");
    let inserted_uuid = Record::new(&lot, RecordData::plain("foo", "bar"))
        .expect("failed to create record")
        .insert(&mut store, &mut lot)
        .expect("failed to insert record");
    let records = Record::load_all(&store, &lot).expect("failed to load records");
    assert_eq!(lot.uuid(), records[0].lot());
    assert_eq!(&inserted_uuid, records[0].uuid());
}

#[test]
fn key_rotation_rewraps_and_reseals() {
    let mut store = Store::new();
    let user = registered(&mut store, "alice", "s3cret");
    let mut lot = Lot::new("vault").expect("failed to create lot");
    let record = Record::new(&lot, RecordData::plain("email", "a@example.com")).expect("failed to create record");
    lot.add_record(record).expect("failed to add record");
    lot.save(&mut store, &user).expect("failed to save lot");
    let k1 = wrapped_bytes(&store, &user, &lot);
    lot.set_key(Key::<LotTag>::new().expect("failed to generate key"));
    lot.save(&mut store, &user).expect("failed to save lot");
    let k2 = wrapped_bytes(&store, &user, &lot);
    assert_ne!(k1, k2);
    let reloaded = Lot::load(&store, "vault", &user).expect("failed to load lot");
    assert_eq!(reloaded.records().len(), 1);
    assert_eq!(reloaded.records()[0].data(), &RecordData::plain("email", "a@example.com"));
    assert_eq!(reloaded.key().as_bytes(), lot.key().as_bytes());
}

#[test]
fn end_to_end_register_store_and_reload() {
    let mut store = Store::new();
    {
        let user = registered(&mut store, "alice", "s3cret");
        let mut lot = Lot::new(DEFAULT_LOT).expect("failed to create lot");
        lot.save(&mut store, &user).expect("failed to save lot");
        Record::new(&lot, RecordData::plain("email", "a@example.com"))
            .expect("failed to create record")
            .insert(&mut store, &mut lot)
            .expect("failed to insert record");
        lot.save(&mut store, &user).expect("failed to save lot");
    }
    // A fresh session: nothing but the store carries over.
    let user = User::load(&store, "alice", password("s3cret")).expect("failed to load user");
    let lot = Lot::load(&store, "main", &user).expect("failed to load lot");
    let record = lot
        .records()
        .iter()
        .find(|r| r.data().label() == "email")
        .expect("no email record");
    assert_eq!(record.data(), &RecordData::plain("email", "a@example.com"));
}

#[test]
fn other_user_is_not_authorized() {
    let mut store = Store::new();
    let alice = registered(&mut store, "alice", "s3cret");
    let bob = registered(&mut store, "bob", "hunter2");
    let lot = Lot::new("main").expect("failed to create lot");
    lot.save(&mut store, &alice).expect("failed to save lot");
    assert!(matches!(Lot::load(&store, "main", &bob), Err(Error::NotAuthorized)));
}

#[test]
fn missing_lot_is_not_found() {
    let mut store = Store::new();
    let alice = registered(&mut store, "alice", "s3cret");
    assert!(matches!(Lot::load(&store, "nothing", &alice), Err(Error::NotFound)));
}

#[test]
fn lot_name_is_unique() {
    let mut store = Store::new();
    let alice = registered(&mut store, "alice", "s3cret");
    let a = Lot::new("main").expect("failed to create lot");
    let b = Lot::new("main").expect("failed to create lot");
    a.save(&mut store, &alice).expect("failed to save lot");
    assert!(matches!(b.save(&mut store, &alice), Err(Error::AlreadyExists)));
}

#[test]
fn duplicate_record_is_refused() {
    let mut lot = Lot::new("main").expect("failed to create lot");
    let id = valet::Uuid::<valet::RecordTag>::now().expect("failed to make id");
    let first = Record::from_parts(lot.uuid().clone(), id.clone(), RecordData::plain("a", "1"));
    let second = Record::from_parts(lot.uuid().clone(), id, RecordData::plain("b", "2"));
    lot.add_record(first).expect("failed to add record");
    assert_eq!(lot.add_record(second), Err(Error::AlreadyExists));
    assert_eq!(lot.records().len(), 1);
}

#[test]
fn corrupted_record_fails_the_whole_load() {
    let mut store = Store::new();
    let user = registered(&mut store, "alice", "s3cret");
    let mut lot = Lot::new("main").expect("failed to create lot");
    lot.save(&mut store, &user).expect("failed to save lot");
    let record = Record::new(&lot, RecordData::plain("a", "1")).expect("failed to create record");
    let mut row = record.to_row(lot.key()).expect("failed to seal");
    row.data[0] ^= 1;
    store.upsert_record(row);
    let result = Lot::load(&store, "main", &user);
    assert!(matches!(result, Err(Error::Pipeline(valet::Stage::Decryption))));
    let _ = lot.add_record(record);
}

#[test]
fn create_load_all() {
    let mut store = Store::new();
    let user = registered(&mut store, "nixpulvis", "password");
    let mut lot_a = Lot::new("lot a").expect("failed to create lot");
    lot_a.save(&mut store, &user).expect("failed to save lot");
    Record::new(&lot_a, RecordData::plain("a", "1"))
        .expect("failed to create record")
        .insert(&mut store, &mut lot_a)
        .expect("failed to insert record");
    let mut lot_b = Lot::new("lot b").expect("failed to create lot");
    lot_b.save(&mut store, &user).expect("failed to save lot");
    Record::new(&lot_b, RecordData::plain("b", "2"))
        .expect("failed to create record")
        .insert(&mut store, &mut lot_b)
        .expect("failed to insert record");

    let lots = Lot::load_all(&store, &user).expect("failed to load lots");
    assert!(lots == vec![lot_a, lot_b]);
    assert_eq!(user.lots(&store).expect("failed to load lots").len(), 2);
}

#[test]
fn tampered_wrapped_key_fails_to_load() {
    let mut store = Store::new();
    let user = registered(&mut store, "alice", "s3cret");
    let lot = Lot::new("main").expect("failed to create lot");
    lot.save(&mut store, &user).expect("failed to save lot");
    let row = store.select_wrapped_key("alice", &lot.uuid().to_text()).expect("missing row");
    let mut data = row.data.clone();
    data[5] ^= 0x10;
    store.upsert_wrapped_key(valet::WrappedKeyRow {
        username: "alice".to_string(),
        lot_id: lot.uuid().to_text(),
        data,
        nonce: row.nonce.clone(),
    });
    assert!(matches!(Lot::load(&store, "main", &user), Err(Error::DecryptionFailed)));
}

#[test]
fn malformed_lot_identifier_fails_to_load() {
    let mut store = Store::new();
    let user = registered(&mut store, "alice", "s3cret");
    let key = Key::<LotTag>::new().expect("failed to generate key");
    let wrapped = user.key().encrypt(key.as_bytes()).expect("failed to wrap");
    store
        .upsert_lot(valet::LotRow { id: "not-an-id".to_string(), name: "main".to_string() })
        .expect("failed to insert lot");
    store.upsert_wrapped_key(valet::WrappedKeyRow {
        username: "alice".to_string(),
        lot_id: "not-an-id".to_string(),
        data: wrapped.data,
        nonce: wrapped.nonce,
    });
    assert!(matches!(Lot::load(&store, "main", &user), Err(Error::MalformedIdentifier)));
}

#[test]
fn lots_of_a_user_without_lots() {
    let mut store = Store::new();
    let user = registered(&mut store, "alice", "s3cret");
    assert!(user.lots(&store).expect("failed to load lots").is_empty());
}

#[test]
fn find_label_gives_the_first_match() {
    let mut lot = Lot::new("main").expect("failed to create lot");
    let a = Record::new(&lot, RecordData::plain("email", "first")).expect("failed to create record");
    let b = Record::new(&lot, RecordData::plain("email", "second")).expect("failed to create record");
    lot.add_record(a).expect("failed to add record");
    lot.add_record(b).expect("failed to add record");
    let found = lot.find_label("email").expect("no email record");
    assert_eq!(found.data(), &RecordData::plain("email", "first"));
    assert!(lot.find_label("phone").is_none());
}
