use vstd::prelude::*;

verus! {

/// The step of the record pipeline at which a failure happened.
#[derive(Debug, Clone, Copy, PartialEq, Eq, Structural)]
pub enum Stage {
    Compression,
    Encryption,
    Decryption,
    Decompression,
    Decoding,
}

/// Every way an operation of the library can fail.
#[derive(Debug, Clone, Copy, PartialEq, Eq, Structural)]
pub enum Error {
    /// Authentication failed: wrong password, unknown user or a damaged marker.
    InvalidCredentials,
    /// The key derivation function could not run.
    KeyDerivationFailed,
    /// The cipher refused to seal the plaintext.
    EncryptionFailed,
    /// Authentication of a ciphertext failed: wrong key or tampered data.
    DecryptionFailed,
    /// A stage of the record pipeline failed.
    Pipeline(Stage),
    /// A lot, user or record row is missing.
    NotFound,
    /// A row would break a uniqueness rule of the store (a username or a
    /// lot name that is taken).
    AlreadyExists,
    /// The lot exists, but this user holds no wrapped key for it.
    NotAuthorized,
    /// A stored identifier does not parse.
    MalformedIdentifier,
    /// The operating system's random source or clock was unavailable.
    EntropyUnavailable,
}

} // verus!
