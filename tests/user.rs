use std::time::{Duration, Instant};
use valet::{Error, Password, Store, User};

fn password(text: &str) -> Password {
    Password::from(text.to_string())
}

#[test]
fn new_validate() {
    let user = User::new("alice", password("password")).expect("failed to create user");
    assert!(user.validate());
}

#[test]
fn invalid() {
    let mut user = User::new("alice", password("password")).expect("failed to create user");
    let imposter = User::new("charlie", password("password")).expect("failed to create user");
    user.set_validation(imposter.key().encrypt(b"VALID").expect("failed to encrypt"));
    assert!(!user.validate());
}

#[test]
fn new_is_slow() {
    let start = Instant::now();
    User::new("alice", password("password")).expect("failed to create user");
    let duration = start.elapsed();
    assert!(duration > Duration::from_millis(200));
}

#[test]
fn register_load() {
    let mut store = Store::new();
    let user = User::new("alice", password("password"))
        .expect("failed to create user")
        .register(&mut store)
        .expect("failed to register user");
    let loaded = User::load(&store, user.username(), password("password")).expect("failed to load user");
    assert!(user == loaded);
}

#[test]
fn wrong_password_is_invalid_credentials() {
    let mut store = Store::new();
    User::new("alice", password("s3cret"))
        .expect("failed to create user")
        .register(&mut store)
        .expect("failed to register user");
    let result = User::load(&store, "alice", password("wrong"));
    assert!(matches!(result, Err(Error::InvalidCredentials)));
}

#[test]
fn unknown_user_is_invalid_credentials() {
    let store = Store::new();
    let result = User::load(&store, "nobody", password("pw"));
    assert!(matches!(result, Err(Error::InvalidCredentials)));
}

#[test]
fn tampered_validation_fails() {
    let mut user = User::new("alice", password("pw")).expect("failed to create user");
    let mut validation = valet::Encrypted {
        data: user.validation().data.clone(),
        nonce: user.validation().nonce.clone(),
    };
    validation.data[0] ^= 0x01;
    user.set_validation(validation);
    assert!(!user.validate());

    let mut store = Store::new();
    let user = User::new("bob", password("pw")).expect("failed to create user");
    let mut row = user.to_row();
    row.validation_data[2] ^= 0x40;
    assert!(matches!(User::unlock(&row, password("pw")), Err(Error::InvalidCredentials)));
    store.insert_user(row).expect("failed to insert");
    assert!(matches!(User::load(&store, "bob", password("pw")), Err(Error::InvalidCredentials)));
}

#[test]
fn malformed_salt_is_invalid_credentials() {
    let user = User::new("alice", password("pw")).expect("failed to create user");
    let mut row = user.to_row();
    row.salt.pop();
    assert!(matches!(User::unlock(&row, password("pw")), Err(Error::InvalidCredentials)));
}

#[test]
fn username_is_unique() {
    let mut store = Store::new();
    User::new("alice", password("a"))
        .expect("failed to create user")
        .register(&mut store)
        .expect("failed to register user");
    let again = User::new("alice", password("b")).expect("failed to create user").register(&mut store);
    assert!(matches!(again, Err(Error::AlreadyExists)));
}

#[test]
fn each_user_gets_a_fresh_salt() {
    let a = User::new("alice", password("same")).expect("failed to create user");
    let b = User::new("bob", password("same")).expect("failed to create user");
    assert_eq!(a.salt().len(), 16);
    assert_ne!(a.salt(), b.salt());
    assert_ne!(a.key().as_bytes(), b.key().as_bytes());
}

#[test]
fn unlock_with_right_password_gives_the_user() {
    let user = User::new("alice", password("pw")).expect("failed to create user");
    let row = user.to_row();
    let unlocked = User::unlock(&row, password("pw")).expect("failed to unlock");
    assert!(unlocked == user);
    assert!(matches!(User::unlock(&row, password("other")), Err(Error::InvalidCredentials)));
}
