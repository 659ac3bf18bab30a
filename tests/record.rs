use valet::{Error, Key, Lot, LotTag, Record, RecordData, Stage};

fn attrs(pairs: &[(&str, &str)]) -> Vec<(String, String)> {
    pairs.iter().map(|(k, v)| (k.to_string(), v.to_string())).collect()
}

#[test]
fn record_new() {
    let lot = Lot::new("test").expect("failed to create lot");
    let record = Record::new(&lot, RecordData::plain("foo", "bar")).expect("failed to create record");
    assert_eq!(lot.uuid(), record.lot());
    assert_eq!(36, record.uuid().to_text().len());
    match record.data() {
        RecordData::Plain(label, value) => {
            assert_eq!("foo", label);
            assert_eq!("bar", value);
        }
        _ => unreachable!(),
    }
}

#[test]
fn encrypt_decrypt() {
    let lot = Lot::new("test").expect("failed to create lot");
    let key = Key::<LotTag>::new().expect("failed to generate key");
    let record = Record::new(&lot, RecordData::plain("foo", "bar")).expect("failed to create record");
    let encrypted = record.encrypt(&key).expect("failed to encrypt");
    let decrypted_data = RecordData::decrypt(&encrypted, &key).expect("failed to decrypt");
    assert_eq!(record.data(), &decrypted_data);
}

#[test]
fn data_label() {
    let data = RecordData::plain("plain", "secret");
    assert_eq!("plain", data.label());
    let data = RecordData::domain("domain", Vec::new());
    assert_eq!("domain", data.label());
}

#[test]
fn data_encode_decode() {
    let data = RecordData::plain("label", "secret");
    let encoded = data.encode();
    let decoded = RecordData::decode(&encoded).expect("failed to decode");
    assert_eq!(data, decoded);
}

#[test]
fn data_compress_decompress() {
    let data = RecordData::plain("label", "secret");
    let compressed = data.compress().expect("failed to compress");
    let decompressed = RecordData::decompress(&compressed).expect("failed to decompress");
    assert_eq!(data, decompressed);
}

#[test]
fn data_encrypt_decrypt() {
    let lot = Lot::new("test").expect("failed to create lot");
    let data = RecordData::plain("label", "secret");
    let encrypted = data.encrypt(lot.key()).expect("failed to encrypt");
    let decrypted = RecordData::decrypt(&encrypted, lot.key()).expect("failed to decrypt");
    assert_eq!(data, decrypted);
}

#[test]
fn plain_encoding_is_exact() {
    let encoded = RecordData::plain("ab", "c").encode();
    assert_eq!(
        encoded,
        vec![1, 2, 0, 0, 0, 0, 0, 0, 0, b'a', b'b', 1, 0, 0, 0, 0, 0, 0, 0, b'c']
    );
}

#[test]
fn domain_encoding_is_exact() {
    let encoded = RecordData::domain("d", attrs(&[("k", "v")])).encode();
    assert_eq!(
        encoded,
        vec![
            0, 1, 0, 0, 0, 0, 0, 0, 0, b'd', 1, 0, 0, 0, 0, 0, 0, 0, 1, 0, 0, 0, 0, 0, 0, 0, b'k',
            1, 0, 0, 0, 0, 0, 0, 0, b'v'
        ]
    );
}

#[test]
fn encoding_is_deterministic() {
    let data = RecordData::domain("site", attrs(&[("user", "me"), ("pass", "x")]));
    assert_eq!(data.encode(), data.encode());
}

#[test]
fn domain_round_trips_through_every_stage() {
    let lot = Lot::new("test").expect("failed to create lot");
    let data = RecordData::domain(
        "example.com",
        attrs(&[("username", "alice"), ("password", "pä55wörd"), ("note", "")]),
    );
    assert_eq!(RecordData::decode(&data.encode()).expect("failed to decode"), data);
    let compressed = data.compress().expect("failed to compress");
    assert_eq!(RecordData::decompress(&compressed).expect("failed to decompress"), data);
    let encrypted = data.encrypt(lot.key()).expect("failed to encrypt");
    assert_eq!(RecordData::decrypt(&encrypted, lot.key()).expect("failed to decrypt"), data);
}

#[test]
fn empty_and_multiline_values_round_trip() {
    let lot = Lot::new("test").expect("failed to create lot");
    for data in [
        RecordData::plain("", ""),
        RecordData::plain("note", "line one\nline two"),
        RecordData::domain("", Vec::new()),
    ] {
        let encrypted = data.encrypt(lot.key()).expect("failed to encrypt");
        assert_eq!(RecordData::decrypt(&encrypted, lot.key()).expect("failed to decrypt"), data);
    }
}

#[test]
fn domain_keeps_last_value_of_a_repeated_name() {
    let data = RecordData::domain("d", attrs(&[("a", "1"), ("b", "2"), ("a", "3")]));
    assert_eq!(data, RecordData::Domain("d".to_string(), attrs(&[("a", "3"), ("b", "2")])));
}

#[test]
fn compressed_form_is_snappy_frames() {
    let compressed = RecordData::plain("label", "secret").compress().expect("failed to compress");
    assert_eq!(&compressed[..10], b"\xff\x06\x00\x00sNaPpY");
}

#[test]
fn decode_rejects_bad_input() {
    let decoding = Err(Error::Pipeline(Stage::Decoding));
    assert_eq!(RecordData::decode(&[]), decoding);
    assert_eq!(RecordData::decode(&[2]), decoding);
    let mut encoded = RecordData::plain("ab", "c").encode();
    encoded.push(0);
    assert_eq!(RecordData::decode(&encoded), decoding);
    let encoded = RecordData::plain("ab", "c").encode();
    assert_eq!(RecordData::decode(&encoded[..encoded.len() - 1]), decoding);
    let bad_utf8 = vec![1, 1, 0, 0, 0, 0, 0, 0, 0, 0xff, 0, 0, 0, 0, 0, 0, 0, 0];
    assert_eq!(RecordData::decode(&bad_utf8), decoding);
    let duplicate = vec![
        0, 0, 0, 0, 0, 0, 0, 0, 0, 2, 0, 0, 0, 0, 0, 0, 0, 1, 0, 0, 0, 0, 0, 0, 0, b'k', 0, 0, 0,
        0, 0, 0, 0, 0, 1, 0, 0, 0, 0, 0, 0, 0, b'k', 0, 0, 0, 0, 0, 0, 0, 0,
    ];
    assert_eq!(RecordData::decode(&duplicate), decoding);
}

#[test]
fn pipeline_errors_name_their_stage() {
    let lot = Lot::new("test").expect("failed to create lot");
    let other = Lot::new("other").expect("failed to create lot");
    let data = RecordData::plain("label", "secret");
    let encrypted = data.encrypt(lot.key()).expect("failed to encrypt");
    assert_eq!(
        RecordData::decrypt(&encrypted, other.key()),
        Err(Error::Pipeline(Stage::Decryption))
    );
    assert_eq!(
        RecordData::decompress(b"not snappy"),
        Err(Error::Pipeline(Stage::Decompression))
    );
    let garbage = lot.key().encrypt(b"not snappy").expect("failed to encrypt");
    assert_eq!(
        RecordData::decrypt(&garbage, lot.key()),
        Err(Error::Pipeline(Stage::Decompression))
    );
}

#[test]
fn payload_text() {
    assert_eq!(RecordData::plain("label", "secret").to_text(), "label: secret");
    assert_eq!(RecordData::plain("note", "l1\nl2").to_text(), "note:\nl1\nl2");
    let domain = RecordData::domain("d", attrs(&[("a", "1"), ("b", "2")]));
    assert_eq!(domain.to_text(), "d: { a: 1, b: 2 }");
    assert_eq!(RecordData::domain("d", Vec::new()).to_text(), "d: {  }");
    let lot = Lot::new("test").expect("failed to create lot");
    let record = Record::new(&lot, RecordData::plain("k", "v")).expect("failed to create record");
    assert_eq!(record.to_text(), "k: v");
}

#[test]
fn row_from_sealed_keeps_ids_and_bytes() {
    let lot = Lot::new("test").expect("failed to create lot");
    let record = Record::new(&lot, RecordData::plain("k", "v")).expect("failed to create record");
    let sealed = record.encrypt(lot.key()).expect("failed to encrypt");
    let (data, nonce) = (sealed.data.clone(), sealed.nonce.clone());
    let row = record.row_from_sealed(sealed);
    assert_eq!(row.id, record.uuid().to_text());
    assert_eq!(row.lot_id, lot.uuid().to_text());
    assert_eq!(row.data, data);
    assert_eq!(row.nonce, nonce);
}

#[test]
fn attribute_order_does_not_matter() {
    let a = RecordData::domain("site", attrs(&[("user", "me"), ("pass", "x"), ("note", "n")]));
    let b = RecordData::domain("site", attrs(&[("note", "n"), ("user", "me"), ("pass", "x")]));
    assert_eq!(a, b);
    assert_eq!(a.encode(), b.encode());
    assert_eq!(a, RecordData::Domain("site".to_string(), attrs(&[("note", "n"), ("pass", "x"), ("user", "me")])));
}

#[test]
fn decode_rejects_unsorted_names() {
    let unsorted = RecordData::Domain("d".to_string(), attrs(&[("b", "1"), ("a", "2")]));
    assert_eq!(RecordData::decode(&unsorted.encode()), Err(Error::Pipeline(Stage::Decoding)));
}
