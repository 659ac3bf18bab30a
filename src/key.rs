use crate::error::Error;
use crate::password::Password;
use aes_gcm_siv::aead::{Aead, KeyInit};
use aes_gcm_siv::Aes256GcmSiv;
use argon2::Argon2;
use rand_core::{OsRng, RngCore};
use std::marker::PhantomData;
use vstd::prelude::*;

verus! {

/// Length in bytes of a key: AES-256-GCM-SIV takes 256 bits.
pub const KEY_LEN: usize = 32;

/// Length in bytes of a nonce.
pub const NONCE_LEN: usize = 12;

/// Length in bytes of the authentication tag appended to each ciphertext.
pub const TAG_LEN: usize = 16;

/// Length in bytes of a user's salt.
pub const SALT_LEN: usize = 16;

/// The longest plaintext, in bytes, that the cipher seals (2^36).
pub const PLAINTEXT_MAX: u64 = 68719476736;

/// What AES-256-GCM-SIV produces from a key, a nonce and a plaintext.
pub uninterp spec fn aead_seal(key: Seq<u8>, nonce: Seq<u8>, plaintext: Seq<u8>) -> Seq<u8>;

/// What AES-256-GCM-SIV's authenticated decryption gives for a key, a nonce
/// and a ciphertext: the plaintext, or nothing when authentication fails.
pub uninterp spec fn aead_open(key: Seq<u8>, nonce: Seq<u8>, ciphertext: Seq<u8>) -> Option<Seq<u8>>;

/// What Argon2, with its default parameters, derives from a password and a
/// salt into a key of `KEY_LEN` bytes.
pub uninterp spec fn argon2_key(password: Seq<u8>, salt: Seq<u8>) -> Seq<u8>;

/// Relies on `Aead::encrypt` of `Aes256GcmSiv` (aes-gcm-siv): it refuses a
/// plaintext longer than `P_MAX` (2^36 bytes) and otherwise returns the
/// ciphertext with its 16-byte tag appended.
#[verifier::external_body]
fn aead_encrypt(key: &[u8], nonce: &[u8], plaintext: &[u8]) -> (r: Option<Vec<u8>>)
    requires
        key@.len() == KEY_LEN,
        nonce@.len() == NONCE_LEN,
    ensures
        r is Some <==> plaintext@.len() <= PLAINTEXT_MAX,
        r matches Some(c) ==> c@ == aead_seal(key@, nonce@, plaintext@) && c@.len()
            == plaintext@.len() + TAG_LEN,
{
    let cipher = Aes256GcmSiv::new(aes_gcm_siv::Key::<Aes256GcmSiv>::from_slice(key));
    cipher.encrypt(aes_gcm_siv::Nonce::from_slice(nonce), plaintext).ok()
}

/// A ciphertext sealed from `p` (of a length the cipher takes) opens to `p`.
pub open spec fn opens_sealed(r: Option<Vec<u8>>, key: Seq<u8>, nonce: Seq<u8>, ciphertext: Seq<u8>, p: Seq<u8>) -> bool {
    p.len() <= PLAINTEXT_MAX && ciphertext == aead_seal(key, nonce, p) ==> (r matches Some(v) && v@ == p)
}

/// Relies on `Aead::decrypt` of `Aes256GcmSiv` (aes-gcm-siv): authenticated
/// decryption, which gives back the plaintext that `encrypt` sealed under the
/// same key and nonce.
#[verifier::external_body]
fn aead_decrypt(key: &[u8], nonce: &[u8], ciphertext: &[u8]) -> (r: Option<Vec<u8>>)
    requires
        key@.len() == KEY_LEN,
        nonce@.len() == NONCE_LEN,
    ensures
        r matches Some(p) ==> aead_open(key@, nonce@, ciphertext@) == Some(p@),
        r is None ==> aead_open(key@, nonce@, ciphertext@) is None,
        forall|p: Seq<u8>| #[trigger] opens_sealed(r, key@, nonce@, ciphertext@, p),
{
    let cipher = Aes256GcmSiv::new(aes_gcm_siv::Key::<Aes256GcmSiv>::from_slice(key));
    cipher.decrypt(aes_gcm_siv::Nonce::from_slice(nonce), ciphertext).ok()
}

/// The longest password and salt, in bytes, that Argon2 takes (2^32 - 1).
pub const ARGON2_INPUT_MAX: u64 = 0xFFFF_FFFF;

/// The shortest salt, in bytes, that Argon2 takes.
pub const ARGON2_SALT_MIN: u64 = 8;

/// Argon2 takes a password and a salt of these lengths.
pub open spec fn argon2_accepts(password: Seq<u8>, salt: Seq<u8>) -> bool {
    &&& password.len() <= ARGON2_INPUT_MAX
    &&& ARGON2_SALT_MIN <= salt.len() <= ARGON2_INPUT_MAX
}

/// Relies on `Argon2::hash_password_into` (argon2) with `Argon2::default()`:
/// a deterministic function of password and salt, here written into a
/// 32-byte buffer. With the default parameters and that buffer it fails only
/// on a password longer than `MAX_PWD_LEN`, or a salt shorter than
/// `MIN_SALT_LEN` or longer than `MAX_SALT_LEN`.
#[verifier::external_body]
fn argon2_derive(password: &[u8], salt: &[u8]) -> (r: Option<Vec<u8>>)
    ensures
        r is Some <==> argon2_accepts(password@, salt@),
        r matches Some(k) ==> k@ == argon2_key(password@, salt@) && k@.len() == KEY_LEN,
{
    let mut out = vec![0u8; 32];
    Argon2::default().hash_password_into(password, salt, &mut out).ok()?;
    Some(out)
}

/// Relies on `OsRng::try_fill_bytes` (rand_core): the buffer is filled from
/// the operating system's random source, or an error says it could not be.
#[verifier::external_body]
pub(crate) fn random_bytes(len: usize) -> (r: Option<Vec<u8>>)
    ensures
        r matches Some(v) ==> v@.len() == len,
{
    let mut buf = vec![0u8; len];
    OsRng.try_fill_bytes(&mut buf).ok()?;
    Some(buf)
}

/// Encrypted bytes with the nonce they were sealed under.
#[derive(Debug, PartialEq, Eq)]
pub struct Encrypted {
    pub data: Vec<u8>,
    pub nonce: Vec<u8>,
}

/// `data` is what sealing `plaintext` under `key` gives with `nonce`.
pub open spec fn sealed(key: Seq<u8>, nonce: Seq<u8>, data: Seq<u8>, plaintext: Seq<u8>) -> bool {
    &&& nonce.len() == NONCE_LEN
    &&& plaintext.len() <= PLAINTEXT_MAX
    &&& data == aead_seal(key, nonce, plaintext)
}

/// What authenticated decryption under `key` gives for `data` and `nonce`.
pub open spec fn opened_bytes(key: Seq<u8>, nonce: Seq<u8>, data: Seq<u8>) -> Option<Seq<u8>> {
    if nonce.len() == NONCE_LEN {
        aead_open(key, nonce, data)
    } else {
        None
    }
}

/// Decryption under `key` gives `plaintext`: it is known to, or the bytes
/// are what sealing `plaintext` under `key` gives.
pub open spec fn unwraps_to(key: Seq<u8>, nonce: Seq<u8>, data: Seq<u8>, plaintext: Seq<u8>) -> bool {
    opened_bytes(key, nonce, data) == Some(plaintext) || sealed(key, nonce, data, plaintext)
}

impl Encrypted {
    /// This is what sealing `plaintext` under `key` gives with this nonce.
    pub open spec fn seals(&self, key: Seq<u8>, plaintext: Seq<u8>) -> bool {
        sealed(key, self.nonce@, self.data@, plaintext)
    }

    /// What authenticated decryption under `key` gives for this ciphertext.
    pub open spec fn opened(&self, key: Seq<u8>) -> Option<Seq<u8>> {
        opened_bytes(key, self.nonce@, self.data@)
    }
}

/// Every outcome that `Key::encrypt` may have on a plaintext.
pub open spec fn encrypt_outcome(key: Seq<u8>, plaintext: Seq<u8>, r: Result<Encrypted, Error>) -> bool {
    match r {
        Ok(c) => c.seals(key, plaintext),
        Err(e) => e == Error::EntropyUnavailable || (e == Error::EncryptionFailed && plaintext.len()
            > PLAINTEXT_MAX),
    }
}

/// The outcome of `Key::decrypt` on a ciphertext.
pub open spec fn decrypt_outcome(key: Seq<u8>, c: Encrypted, r: Result<Vec<u8>, Error>) -> bool {
    &&& match r {
        Ok(p) => c.opened(key) == Some(p@),
        Err(e) => c.opened(key) is None && e == Error::DecryptionFailed,
    }
    &&& forall|p: Seq<u8>| #[trigger] c.seals(key, p) ==> (r matches Ok(v) && v@ == p)
}

/// A fresh random salt of `SALT_LEN` bytes.
pub fn generate_salt() -> (r: Result<Vec<u8>, Error>)
    ensures
        r matches Ok(s) ==> s@.len() == SALT_LEN,
        r matches Err(e) ==> e == Error::EntropyUnavailable,
{
    match random_bytes(SALT_LEN) {
        Some(s) => Ok(s),
        None => Err(Error::EntropyUnavailable),
    }
}

/// A symmetric key that belongs to an entity of type `T`.
///
/// The tag exists only in the type: a `Key<User>` cannot be passed where a
/// `Key<Lot>` is expected.
#[derive(PartialEq, Eq)]
pub struct Key<T> {
    bytes: Vec<u8>,
    owner: PhantomData<T>,
}

impl<T> View for Key<T> {
    type V = Seq<u8>;

    closed spec fn view(&self) -> Seq<u8> {
        self.bytes@
    }
}

impl<T> Key<T> {
    /// The key holds exactly `KEY_LEN` bytes.
    pub open spec fn wf(&self) -> bool {
        self@.len() == KEY_LEN
    }

    /// A fresh key drawn from the operating system's random source.
    pub fn new() -> (r: Result<Self, Error>)
        ensures
            r matches Ok(k) ==> k.wf(),
            r matches Err(e) ==> e == Error::EntropyUnavailable,
    {
        match random_bytes(KEY_LEN) {
            Some(bytes) => Ok(Key { bytes, owner: PhantomData }),
            None => Err(Error::EntropyUnavailable),
        }
    }

    /// Derives a key from a password and a salt with Argon2.
    ///
    /// The password is consumed, and wiped when this returns.
    pub fn from_password(password: Password, salt: &[u8]) -> (r: Result<Self, Error>)
        ensures
            r is Ok <==> derivable(password@, salt@),
            r matches Ok(k) ==> k.wf() && k@ == derived_key(password@, salt@),
            r matches Err(e) ==> e == Error::KeyDerivationFailed,
    {
        let text = password.as_str();
        match argon2_derive(text.as_bytes(), salt) {
            Some(bytes) => Ok(Key { bytes, owner: PhantomData }),
            None => Err(Error::KeyDerivationFailed),
        }
    }

    /// Rebuilds a key from its raw bytes.
    pub fn from_bytes(bytes: &[u8]) -> (r: Self)
        requires
            bytes@.len() == KEY_LEN,
        ensures
            r.wf(),
            r@ == bytes@,
    {
        Key { bytes: vstd::slice::slice_to_vec(bytes), owner: PhantomData }
    }

    /// The raw bytes of this key.
    pub fn as_bytes(&self) -> (r: &[u8])
        ensures
            r@ == self@,
    {
        self.bytes.as_slice()
    }

    /// Seals a plaintext under this key with the given nonce.
    ///
    /// The nonce must never have been used with this key before; `encrypt`
    /// draws a fresh one for every call.
    pub fn seal_with_nonce(&self, plaintext: &[u8], nonce: Vec<u8>) -> (r: Result<Encrypted, Error>)
        requires
            self.wf(),
            nonce@.len() == NONCE_LEN,
        ensures
            r is Ok <==> plaintext@.len() <= PLAINTEXT_MAX,
            r matches Ok(c) ==> c.nonce@ == nonce@ && c.seals(self@, plaintext@),
            r matches Err(e) ==> e == Error::EncryptionFailed,
    {
        match aead_encrypt(self.bytes.as_slice(), nonce.as_slice(), plaintext) {
            Some(data) => Ok(Encrypted { data, nonce }),
            None => Err(Error::EncryptionFailed),
        }
    }

    /// Seals a plaintext under this key with a fresh random nonce.
    pub fn encrypt(&self, plaintext: &[u8]) -> (r: Result<Encrypted, Error>)
        requires
            self.wf(),
        ensures
            encrypt_outcome(self@, plaintext@, r),
            plaintext@.len() > PLAINTEXT_MAX ==> r is Err,
    {
        let nonce = match random_bytes(NONCE_LEN) {
            Some(n) => n,
            None => return Err(Error::EntropyUnavailable),
        };
        self.seal_with_nonce(plaintext, nonce)
    }

    /// Opens a ciphertext sealed under this key.
    ///
    /// Any failure to authenticate (wrong key, wrong nonce, altered data) is
    /// `DecryptionFailed`.
    pub fn decrypt(&self, encrypted: &Encrypted) -> (r: Result<Vec<u8>, Error>)
        requires
            self.wf(),
        ensures
            decrypt_outcome(self@, *encrypted, r),
    {
        if encrypted.nonce.len() != NONCE_LEN {
            return Err(Error::DecryptionFailed);
        }
        let opened = aead_decrypt(
            self.bytes.as_slice(),
            encrypted.nonce.as_slice(),
            encrypted.data.as_slice(),
        );
        proof {
            assert forall|q: Seq<u8>| #[trigger] encrypted.seals(self@, q) implies (opened matches Some(
                v) && v@ == q) by {
                assert(opens_sealed(opened, self@, encrypted.nonce@, encrypted.data@, q));
            }
        }
        match opened {
            Some(p) => Ok(p),
            None => Err(Error::DecryptionFailed),
        }
    }
}

/// Argon2 takes this password (as UTF-8) and this salt.
pub open spec fn derivable(password: Seq<char>, salt: Seq<u8>) -> bool {
    argon2_accepts(vstd::utf8::encode_utf8(password), salt)
}

/// The key that a password and a salt derive: Argon2 over the password's
/// UTF-8 bytes.
pub open spec fn derived_key(password: Seq<char>, salt: Seq<u8>) -> Seq<u8> {
    argon2_key(vstd::utf8::encode_utf8(password), salt)
}

/// Decrypting what `encrypt` sealed, under the same key, gives back the
/// plaintext.
pub proof fn lemma_decrypt_inverts_encrypt(
    key: Seq<u8>,
    plaintext: Seq<u8>,
    sealed: Result<Encrypted, Error>,
    opened: Result<Vec<u8>, Error>,
)
    requires
        encrypt_outcome(key, plaintext, sealed),
        sealed is Ok,
        decrypt_outcome(key, sealed->Ok_0, opened),
    ensures
        opened matches Ok(p) && p@ == plaintext,
{
    assert(sealed->Ok_0.seals(key, plaintext));
}

/// Deriving twice from the same password and salt gives the same key bytes.
pub proof fn lemma_derivation_deterministic(
    password: Seq<char>,
    salt: Seq<u8>,
    first: Seq<u8>,
    second: Seq<u8>,
)
    requires
        first == derived_key(password, salt),
        second == derived_key(password, salt),
    ensures
        first == second,
{
}

} // verus!
