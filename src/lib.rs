//! Valet: a personal secret store built on a key hierarchy.
//!
//! A password and a stored salt derive the user key; the user key wraps each
//! lot key; a lot key seals the records of its lot. Every piece of logic here
//! is verified, and the cryptographic primitives are reached through small
//! wrappers whose contracts name what the primitive computes.
pub mod error;
pub mod id;
pub mod key;
pub mod password;
pub mod path;
pub mod lot;
pub mod payload;
pub mod record;
pub mod store;
pub mod user;

pub use crate::error::{Error, Stage};
pub use crate::id::{LotTag, RecordTag, UserTag, Uuid};
pub use crate::key::{generate_salt, Encrypted, Key};
pub use crate::lot::{Lot, DEFAULT_LOT};
pub use crate::password::{Password, PasswordBuf};
pub use crate::path::Path;
pub use crate::record::{Record, RecordData};
pub use crate::store::{LotRow, RecordRow, Store, UserRow, WrappedKeyRow};
pub use crate::user::User;
