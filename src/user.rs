use crate::error::Error;
use crate::id::UserTag;
use crate::key::{
    derivable, derived_key, generate_salt, opened_bytes, unwraps_to, Encrypted, Key, ARGON2_INPUT_MAX, KEY_LEN,
    SALT_LEN,
};
use crate::store::UserRowView;
use crate::password::Password;
use crate::lot::{all_lots_available, loaded_via, Lot};
use crate::store::{bytes_equal, copy_bytes, has_key, same_user, wrapped_of, Store, StoreView, UserRow};
use vstd::prelude::*;

verus! {

/// The plaintext that each user seals under their key: "VALID".
pub open spec fn validation_marker() -> Seq<u8> {
    seq![86u8, 65u8, 76u8, 73u8, 68u8]
}

fn marker_bytes() -> (r: Vec<u8>)
    ensures
        r@ == validation_marker(),
{
    let r = vec![86u8, 65u8, 76u8, 73u8, 68u8];
    assert(r@ =~= validation_marker());
    r
}

/// A user, known by a unique username.
///
/// The password is never kept: with the stored salt it derives the user key,
/// and the validation marker sealed under that key tells whether a password
/// was the right one.
#[derive(PartialEq, Eq)]
pub struct User {
    username: String,
    salt: Vec<u8>,
    validation: Encrypted,
    key: Key<UserTag>,
}

impl User {
    pub closed spec fn spec_username(&self) -> Seq<char> {
        self.username@
    }

    pub closed spec fn spec_salt(&self) -> Seq<u8> {
        self.salt@
    }

    pub closed spec fn spec_validation(&self) -> Encrypted {
        self.validation
    }

    pub closed spec fn spec_key(&self) -> Seq<u8> {
        self.key@
    }

    /// The salt has its length and the key is a whole key.
    pub open spec fn wf(&self) -> bool {
        self.spec_salt().len() == SALT_LEN && self.spec_key().len() == KEY_LEN
    }

    /// The validation marker opens under the user's key.
    pub open spec fn is_valid(&self) -> bool {
        self.spec_validation().opened(self.spec_key()) == Some(validation_marker())
    }

    /// Creates a user: a fresh random salt, the key derived from the password
    /// and that salt, and the marker sealed under the key.
    pub fn new(username: &str, password: Password) -> (r: Result<Self, Error>)
        ensures
            new_user_outcome(username@, password@, r),
    {
        let salt = match generate_salt() {
            Ok(s) => s,
            Err(e) => return Err(e),
        };
        let key = match Key::<UserTag>::from_password(password, salt.as_slice()) {
            Ok(k) => k,
            Err(e) => return Err(e),
        };
        let marker = marker_bytes();
        let validation = match key.encrypt(marker.as_slice()) {
            Ok(v) => v,
            Err(e) => return Err(e),
        };
        Ok(User { username: username.to_string(), salt, validation, key })
    }

    pub fn username(&self) -> (r: &str)
        ensures
            r@ == self.spec_username(),
    {
        self.username.as_str()
    }

    pub fn salt(&self) -> (r: &[u8])
        ensures
            r@ == self.spec_salt(),
    {
        self.salt.as_slice()
    }

    pub fn validation(&self) -> (r: &Encrypted)
        ensures
            *r == self.spec_validation(),
    {
        &self.validation
    }

    pub fn key(&self) -> (r: &Key<UserTag>)
        requires
            self.wf(),
        ensures
            r@ == self.spec_key(),
            r.wf(),
    {
        &self.key
    }

    /// Replaces the sealed validation marker.
    pub fn set_validation(&mut self, validation: Encrypted)
        ensures
            final(self).spec_validation() == validation,
            final(self).spec_username() == old(self).spec_username(),
            final(self).spec_salt() == old(self).spec_salt(),
            final(self).spec_key() == old(self).spec_key(),
            final(self).wf() == old(self).wf(),
    {
        self.validation = validation;
    }

    /// Whether the validation marker opens under the user's key. Any
    /// failure to decrypt counts as `false`.
    pub fn validate(&self) -> (r: bool)
        requires
            self.wf(),
        ensures
            validate_outcome(*self, r),
    {
        match self.key.decrypt(&self.validation) {
            Ok(v) => {
                let marker = marker_bytes();
                bytes_equal(v.as_slice(), marker.as_slice())
            },
            Err(_) => false,
        }
    }

    /// The row that stores this user: everything but the key.
    pub fn to_row(&self) -> (r: UserRow)
        ensures
            r@.username == self.spec_username(),
            r@.salt == self.spec_salt(),
            r@.validation_data == self.spec_validation().data@,
            r@.validation_nonce == self.spec_validation().nonce@,
    {
        UserRow {
            username: self.username.clone(),
            salt: copy_bytes(&self.salt),
            validation_data: copy_bytes(&self.validation.data),
            validation_nonce: copy_bytes(&self.validation.nonce),
        }
    }

    /// Authenticates a password against a stored user row.
    ///
    /// A salt of the wrong length, or a marker that does not open under the
    /// derived key, is `InvalidCredentials`.
    pub fn unlock(row: &UserRow, password: Password) -> (r: Result<Self, Error>)
        ensures
            unlock_outcome(row@, password@, r),
    {
        if row.salt.len() != SALT_LEN {
            return Err(Error::InvalidCredentials);
        }
        let ghost pw = password@;
        let key = match Key::<UserTag>::from_password(password, row.salt.as_slice()) {
            Ok(k) => k,
            Err(e) => return Err(e),
        };
        let user = User {
            username: row.username.clone(),
            salt: copy_bytes(&row.salt),
            validation: Encrypted {
                data: copy_bytes(&row.validation_data),
                nonce: copy_bytes(&row.validation_nonce),
            },
            key,
        };
        if user.validate() {
            Ok(user)
        } else {
            Err(Error::InvalidCredentials)
        }
    }

    /// Stores this user. A username that is taken is refused.
    pub fn register(self, store: &mut Store) -> (r: Result<Self, Error>)
        requires
            old(store)@.wf(),
        ensures
            final(store)@.wf(),
            match r {
                Ok(u) => u == self && final(store)@ == (StoreView {
                    users: old(store)@.users.push(self.to_row_spec()),
                    ..old(store)@
                }),
                Err(e) => e == Error::AlreadyExists && final(store)@ == old(store)@ && has_key(
                    old(store)@.users,
                    self.to_row_spec(),
                    same_user(),
                ),
            },
    {
        let row = self.to_row();
        match store.insert_user(row) {
            Ok(()) => Ok(self),
            Err(e) => Err(e),
        }
    }

    /// The stored form of this user.
    pub open spec fn to_row_spec(&self) -> crate::store::UserRowView {
        crate::store::UserRowView {
            username: self.spec_username(),
            salt: self.spec_salt(),
            validation_data: self.spec_validation().data@,
            validation_nonce: self.spec_validation().nonce@,
        }
    }

    /// Logs a user in: looks the row up and authenticates the password.
    /// An unknown username is `InvalidCredentials`, as a wrong password is.
    pub fn load(store: &Store, username: &str, password: Password) -> (r: Result<Self, Error>)
        requires
            store@.wf(),
        ensures
            match r {
                Ok(u) => u.wf() && u.is_valid() && u.spec_username() == username@
                    && store@.users.contains(u.to_row_spec()) && u.spec_key() == derived_key(
                    password@,
                    u.spec_salt(),
                ),
                Err(e) => e == Error::KeyDerivationFailed || e == Error::InvalidCredentials,
            },
            (forall|i: int|
                0 <= i < store@.users.len() ==> store@.users[i].username != username@) ==> r
                == Err::<User, Error>(Error::InvalidCredentials),
            (exists|i: int|
                0 <= i < store@.users.len() && store@.users[i].username == username@
                    && #[trigger] password_opens(store@.users[i], password@)) ==> r is Ok,
            (exists|i: int|
                0 <= i < store@.users.len() && store@.users[i].username == username@
                    && #[trigger] password_wrong(store@.users[i], password@)) ==> r == Err::<
                User,
                Error,
            >(Error::InvalidCredentials),
    {
        match store.select_user(username) {
            Some(row) => {
                let ghost pw = password@;
                let r = Self::unlock(row, password);
                proof {
                    if r is Ok {
                        assert(r->Ok_0.to_row_spec() == row@);
                    }
                    let j = choose|j: int| 0 <= j < store@.users.len() && store@.users[j] == row@;
                    assert forall|i: int|
                        0 <= i < store@.users.len() && store@.users[i].username == username@ implies store@.users[i]
                        == row@ by {
                        if i != j {
                            assert(!crate::store::same_user()(store@.users[i], store@.users[j]));
                        }
                    }
                }
                r
            },
            None => Err(Error::InvalidCredentials),
        }
    }

    /// Every lot that this user holds a wrapped key for.
    pub fn lots(&self, store: &Store) -> (r: Result<Vec<Lot>, Error>)
        requires
            self.wf(),
            store@.wf(),
        ensures
            match r {
                Ok(lots) => {
                    let rows = wrapped_of(store@.wrapped_keys, self.spec_username());
                    &&& lots@.len() == rows.len()
                    &&& forall|i: int| 0 <= i < rows.len() ==> #[trigger] loaded_via(store@, *self, rows[i], lots@[i])
                },
                Err(e) => e == Error::NotFound || e == Error::DecryptionFailed
                    || e == Error::MalformedIdentifier || e is Pipeline,
            },
            all_lots_available(store@, *self) ==> r is Ok,
    {
        Lot::load_all(store, self)
    }
}

/// What decryption under the key derived from `password` and the row's salt
/// gives for the row's validation marker.
pub open spec fn marker_opened(row: UserRowView, password: Seq<char>) -> Option<Seq<u8>> {
    opened_bytes(derived_key(password, row.salt), row.validation_nonce, row.validation_data)
}

/// The password is the right one for the row: the salt has its length, the
/// key derives, and the marker opens under it (it is known to, or the row
/// holds the marker sealed under that key).
pub open spec fn password_opens(row: UserRowView, password: Seq<char>) -> bool {
    &&& row.salt.len() == SALT_LEN
    &&& derivable(password, row.salt)
    &&& unwraps_to(
        derived_key(password, row.salt),
        row.validation_nonce,
        row.validation_data,
        validation_marker(),
    )
}

/// The password is a wrong one for the row: the salt has its length and the
/// key derives, but the marker does not open under it.
pub open spec fn password_wrong(row: UserRowView, password: Seq<char>) -> bool {
    &&& row.salt.len() == SALT_LEN
    &&& derivable(password, row.salt)
    &&& marker_opened(row, password) != Some(validation_marker())
}

/// Every outcome that `User::unlock` may have on a row and a password.
pub open spec fn unlock_outcome(row: UserRowView, password: Seq<char>, r: Result<User, Error>) -> bool {
    &&& match r {
        Ok(u) => {
            &&& u.wf()
            &&& u.is_valid()
            &&& u.to_row_spec() == row
            &&& u.spec_key() == derived_key(password, row.salt)
        },
        Err(e) => e == Error::InvalidCredentials || (e == Error::KeyDerivationFailed && !derivable(
            password,
            row.salt,
        )),
    }
    &&& row.salt.len() != SALT_LEN ==> r == Err::<User, Error>(Error::InvalidCredentials)
    &&& password_wrong(row, password) ==> r == Err::<User, Error>(Error::InvalidCredentials)
    &&& password_opens(row, password) ==> r is Ok
    &&& r == Err::<User, Error>(Error::InvalidCredentials) ==> row.salt.len() != SALT_LEN
        || marker_opened(row, password) != Some(validation_marker())
}

/// A password whose derived key does not open the stored marker is refused
/// with `InvalidCredentials`.
pub proof fn lemma_wrong_password_refused(row: UserRowView, password: Seq<char>, r: Result<User, Error>)
    requires
        unlock_outcome(row, password, r),
        password_wrong(row, password),
    ensures
        r == Err::<User, Error>(Error::InvalidCredentials),
{
}

/// Every outcome that `User::new` may have.
pub open spec fn new_user_outcome(username: Seq<char>, password: Seq<char>, r: Result<User, Error>) -> bool {
    match r {
        Ok(u) => {
            &&& u.wf()
            &&& u.spec_username() == username
            &&& derivable(password, u.spec_salt())
            &&& u.spec_key() == derived_key(password, u.spec_salt())
            &&& u.spec_validation().seals(u.spec_key(), validation_marker())
        },
        Err(e) => e == Error::EntropyUnavailable || e == Error::EncryptionFailed || (e
            == Error::KeyDerivationFailed && vstd::utf8::encode_utf8(password).len() > ARGON2_INPUT_MAX),
    }
}

/// The outcome of `User::validate`.
pub open spec fn validate_outcome(user: User, r: bool) -> bool {
    &&& r == user.is_valid()
    &&& user.spec_validation().seals(user.spec_key(), validation_marker()) ==> r
}

/// A user just created by `User::new` validates.
pub proof fn lemma_new_user_validates(
    username: Seq<char>,
    password: Seq<char>,
    created: Result<User, Error>,
    valid: bool,
)
    requires
        new_user_outcome(username, password, created),
        created is Ok,
        validate_outcome(created->Ok_0, valid),
    ensures
        valid,
{
}

/// A user created by `User::new` and stored logs in again with the same
/// password: the stored row meets the success condition of `User::load`.
pub proof fn lemma_registered_user_opens(
    username: Seq<char>,
    password: Seq<char>,
    created: Result<User, Error>,
    store: StoreView,
)
    requires
        new_user_outcome(username, password, created),
        created is Ok,
        store.users.contains(created->Ok_0.to_row_spec()),
    ensures
        exists|i: int|
            0 <= i < store.users.len() && store.users[i].username == username
                && #[trigger] password_opens(store.users[i], password),
{
    let u = created->Ok_0;
    let i = choose|i: int| 0 <= i < store.users.len() && store.users[i] == u.to_row_spec();
    assert(password_opens(store.users[i], password));
}

} // verus!
