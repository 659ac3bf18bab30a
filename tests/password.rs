use valet::{Password, PasswordBuf};

#[test]
fn password_empty_and_from() {
    assert_eq!(Password::empty().as_str(), "");
    assert_eq!(Password::from("secret".to_string()).as_str(), "secret");
}

#[test]
fn taking_from_a_buffer_wipes_it() {
    let mut buf = PasswordBuf::empty();
    buf.as_mut().push_str("typed in");
    let password = Password::take_from(&mut buf);
    assert_eq!(password.as_str(), "typed in");
    assert_eq!(buf.as_mut().as_str(), "");
}

#[test]
fn buffer_from_string() {
    let mut buf = PasswordBuf::from("abc".to_string());
    assert_eq!(buf.as_mut().as_str(), "abc");
}

#[test]
fn from_mut_wipes_the_source() {
    let mut typed = "hunter2".to_string();
    let password = Password::from_mut(&mut typed);
    assert_eq!(password.as_str(), "hunter2");
    assert_eq!(typed, "");
}
