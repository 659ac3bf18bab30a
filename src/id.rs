use crate::error::Error;
use crate::key::random_bytes;
use std::marker::PhantomData;
use vstd::prelude::*;

verus! {

/// Type-level tag of what belongs to a user.
#[derive(Debug, PartialEq, Eq)]
pub struct UserTag;

/// Type-level tag of what belongs to a lot.
#[derive(Debug, PartialEq, Eq)]
pub struct LotTag;

/// Type-level tag of what belongs to a record.
#[derive(Debug, PartialEq, Eq)]
pub struct RecordTag;

/// Length of the canonical text form of an identifier.
pub const UUID_TEXT_LEN: usize = 36;

/// Number of random bytes that go into a new identifier.
pub const UUID_RANDOM_LEN: usize = 10;

/// The lower-case hexadecimal digit of a value below 16.
pub open spec fn hex_digit(n: int) -> char {
    seq!['0', '1', '2', '3', '4', '5', '6', '7', '8', '9', 'a', 'b', 'c', 'd', 'e', 'f'][n]
}

/// The `k`-th of the 32 hexadecimal digits of `bits`, most significant first.
pub open spec fn nibble(bits: u128, k: int) -> int {
    ((bits >> ((124 - 4 * k) as u128)) & 0xf) as int
}

/// Which digit stands at a place of the hyphenated text.
pub open spec fn digit_at(place: int) -> int {
    if place < 8 {
        place
    } else if place < 13 {
        place - 1
    } else if place < 18 {
        place - 2
    } else if place < 23 {
        place - 3
    } else {
        place - 4
    }
}

/// The canonical hyphenated text of 128 bits: 32 lower-case hexadecimal
/// digits, most significant first, grouped 8-4-4-4-12 by hyphens.
pub open spec fn uuid_text(bits: u128) -> Seq<char> {
    Seq::new(
        36,
        |place: int|
            if place == 8 || place == 13 || place == 18 || place == 23 {
                '-'
            } else {
                hex_digit(nibble(bits, digit_at(place)))
            },
    )
}

/// What the uuid crate's parser reads from a text: 128 bits, or nothing.
pub uninterp spec fn uuid_parse(text: Seq<char>) -> Option<u128>;

/// The version 7 identifier that the uuid crate builds from a Unix time in
/// milliseconds and ten random bytes.
pub uninterp spec fn uuid_v7(millis: u64, random: Seq<u8>) -> u128;

/// The text that `uuid_text` wrote for `bits` parses back to `bits`.
pub open spec fn parses_back(r: Option<u128>, text: Seq<char>, bits: u128) -> bool {
    text == uuid_text(bits) ==> r == Some(bits)
}

/// Relies on `Uuid::hyphenated` and its `Display` (uuid): the 36-character
/// form `xxxxxxxx-xxxx-xxxx-xxxx-xxxxxxxxxxxx` of the big-endian bytes in
/// lower-case hexadecimal, which `Uuid::parse_str` reads back to the same
/// bits.
#[verifier::external_body]
fn format_uuid(bits: u128) -> (r: String)
    ensures
        r@ == uuid_text(bits),
        r@.len() == UUID_TEXT_LEN,
        uuid_parse(r@) == Some(bits),
{
    uuid::Uuid::from_u128(bits).hyphenated().to_string()
}

/// Relies on `Uuid::parse_str` (uuid), which reads among other forms the
/// hyphenated one that `format_uuid` writes.
#[verifier::external_body]
fn parse_uuid(text: &str) -> (r: Option<u128>)
    ensures
        r == uuid_parse(text@),
        forall|bits: u128| #[trigger] parses_back(r, text@, bits),
{
    uuid::Uuid::parse_str(text).ok().map(|u| u.as_u128())
}

/// Relies on `Builder::from_unix_timestamp_millis` (uuid): a version 7
/// identifier, whose leading bits are the timestamp.
#[verifier::external_body]
fn build_v7(millis: u64, random: &[u8]) -> (r: u128)
    requires
        random@.len() == UUID_RANDOM_LEN,
    ensures
        r == uuid_v7(millis, random@),
{
    let mut bytes = [0u8; 10];
    bytes.copy_from_slice(random);
    uuid::Builder::from_unix_timestamp_millis(millis, &bytes).into_uuid().as_u128()
}

/// Relies on `SystemTime::elapsed` (std) on `UNIX_EPOCH`: the milliseconds
/// since the epoch, or nothing when the clock stands before it.
#[verifier::external_body]
fn unix_millis() -> (r: Option<u64>) {
    std::time::UNIX_EPOCH.elapsed().ok().map(|d| d.as_millis() as u64)
}

/// A time-ordered 128-bit identifier of an entity of type `T`.
///
/// The tag exists only in the type; at rest an identifier is plain text.
#[derive(Debug)]
pub struct Uuid<T> {
    bits: u128,
    tag: PhantomData<T>,
}

impl<T> View for Uuid<T> {
    type V = u128;

    closed spec fn view(&self) -> u128 {
        self.bits
    }
}

impl<T> Uuid<T> {
    /// A new version 7 identifier from the clock and the random source.
    pub fn now() -> (r: Result<Self, Error>)
        ensures
            r matches Ok(u) ==> exists|millis: u64, random: Seq<u8>|
                random.len() == UUID_RANDOM_LEN && u@ == #[trigger] uuid_v7(millis, random),
            r matches Err(e) ==> e == Error::EntropyUnavailable,
    {
        let millis = match unix_millis() {
            Some(m) => m,
            None => return Err(Error::EntropyUnavailable),
        };
        let random = match random_bytes(UUID_RANDOM_LEN) {
            Some(b) => b,
            None => return Err(Error::EntropyUnavailable),
        };
        Ok(Self::from_unix_millis(millis, random.as_slice()))
    }

    /// The version 7 identifier of a Unix time in milliseconds and ten
    /// random bytes.
    pub fn from_unix_millis(millis: u64, random: &[u8]) -> (r: Self)
        requires
            random@.len() == UUID_RANDOM_LEN,
        ensures
            r@ == uuid_v7(millis, random@),
    {
        Uuid { bits: build_v7(millis, random), tag: PhantomData }
    }

    /// Reads an identifier from its text form.
    pub fn parse(text: &str) -> (r: Result<Self, Error>)
        ensures
            r matches Ok(u) ==> uuid_parse(text@) == Some(u@),
            r matches Err(e) ==> uuid_parse(text@) is None && e == Error::MalformedIdentifier,
            forall|bits: u128| text@ == uuid_text(bits) ==> (r matches Ok(u) && u@ == bits),
    {
        let parsed = parse_uuid(text);
        proof {
            assert forall|bits: u128| text@ == uuid_text(bits) implies parsed == Some(bits) by {
                assert(parses_back(parsed, text@, bits));
            }
        }
        match parsed {
            Some(bits) => Ok(Uuid { bits, tag: PhantomData }),
            None => Err(Error::MalformedIdentifier),
        }
    }

    /// An identifier with the given bits.
    pub fn from_u128(bits: u128) -> (r: Self)
        ensures
            r@ == bits,
    {
        Uuid { bits, tag: PhantomData }
    }

    /// The 128 bits of this identifier.
    pub fn as_u128(&self) -> (r: u128)
        ensures
            r == self@,
    {
        self.bits
    }

    /// The canonical 36-character text of this identifier.
    pub fn to_text(&self) -> (r: String)
        ensures
            r@ == uuid_text(self@),
            r@.len() == UUID_TEXT_LEN,
            uuid_parse(r@) == Some(self@),
    {
        format_uuid(self.bits)
    }

    /// A copy of this identifier.
    pub fn duplicate(&self) -> (r: Self)
        ensures
            r@ == self@,
    {
        Uuid { bits: self.bits, tag: PhantomData }
    }
}

impl<T> Clone for Uuid<T> {
    fn clone(&self) -> (r: Self)
        ensures
            r@ == self@,
    {
        self.duplicate()
    }
}

impl<T> PartialEq for Uuid<T> {
    fn eq(&self, other: &Self) -> (r: bool) {
        self.bits == other.bits
    }
}

impl<T> Eq for Uuid<T> {
}

impl<T> vstd::std_specs::cmp::PartialEqSpecImpl for Uuid<T> {
    open spec fn obeys_eq_spec() -> bool {
        true
    }

    open spec fn eq_spec(&self, other: &Self) -> bool {
        self@ == other@
    }
}

} // verus!
