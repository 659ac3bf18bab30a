use valet::{Error, LotTag, Uuid};

#[test]
fn identifier_text_round_trips() {
    let id = Uuid::<LotTag>::now().expect("failed to make id");
    let text = id.to_text();
    assert_eq!(text.len(), 36);
    assert_eq!(Uuid::<LotTag>::parse(&text).expect("failed to parse"), id);
}

#[test]
fn identifier_text_is_canonical() {
    let id = Uuid::<LotTag>::from_u128(0x0123456789abcdef0123456789abcdef);
    assert_eq!(id.to_text(), "01234567-89ab-cdef-0123-456789abcdef");
    assert_eq!(id.as_u128(), 0x0123456789abcdef0123456789abcdef);
}

#[test]
fn malformed_identifier() {
    assert_eq!(Uuid::<LotTag>::parse("not a uuid"), Err(Error::MalformedIdentifier));
}

#[test]
fn identifiers_are_time_ordered() {
    let a = Uuid::<LotTag>::now().expect("failed to make id");
    let start = std::time::Instant::now();
    while start.elapsed() < std::time::Duration::from_millis(2) {}
    let b = Uuid::<LotTag>::now().expect("failed to make id");
    assert!(a.as_u128() < b.as_u128());
    assert_eq!(b.as_u128() >> 76 & 0xf, 7);
}

#[test]
fn identifier_from_time_and_random_bytes() {
    let id = Uuid::<LotTag>::from_unix_millis(0x0123_4567_89ab, &[0xff; 10]);
    assert_eq!(id.as_u128() >> 80, 0x0123_4567_89ab);
    assert_eq!(id.as_u128() >> 76 & 0xf, 7);
}
