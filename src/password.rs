use vstd::prelude::*;
use zeroize::Zeroize;

verus! {

/// Relies on zeroize's impl for `String`: every byte of the buffer, spare
/// capacity included, is overwritten with zeros, and the string is cleared.
#[verifier::external_body]
fn wipe(text: &mut String)
    ensures
        final(text)@ == Seq::<char>::empty(),
    opens_invariants none
    no_unwind
{
    text.zeroize();
}

/// A plaintext password that is wiped from memory when it is dropped.
///
/// It cannot be cloned: the only copy of the secret is the one that is wiped.
/// Functions that need it take it by reference, or consume it.
pub struct Password {
    text: String,
}

impl View for Password {
    type V = Seq<char>;

    closed spec fn view(&self) -> Seq<char> {
        self.text@
    }
}

impl Password {
    /// A password with no characters.
    pub fn empty() -> (r: Self)
        ensures
            r@ == Seq::<char>::empty(),
    {
        Password { text: String::new() }
    }

    /// The password as text, for as long as it is borrowed.
    pub fn as_str(&self) -> (r: &str)
        ensures
            r@ == self@,
    {
        self.text.as_str()
    }

    /// Copies the text of a mutable string, then wipes the string: the only
    /// copy left is the one this password wipes when dropped.
    pub fn from_mut(text: &mut String) -> (r: Self)
        ensures
            r@ == old(text)@,
            final(text)@ == Seq::<char>::empty(),
    {
        let copy = text.clone();
        wipe(text);
        Password { text: copy }
    }

    /// Takes the text out of an input buffer, wiping the buffer.
    pub fn take_from(buf: &mut PasswordBuf) -> (r: Self)
        ensures
            r@ == old(buf)@,
            final(buf)@ == Seq::<char>::empty(),
    {
        let text = buf.text.clone();
        wipe(&mut buf.text);
        Password { text }
    }
}

impl From<String> for Password {
    /// Takes ownership of the text; no other copy of it is made.
    fn from(text: String) -> (r: Self)
        ensures
            r@ == text@,
    {
        Password { text }
    }
}

impl vstd::std_specs::convert::FromSpecImpl<String> for Password {
    open spec fn obeys_from_spec() -> bool {
        true
    }

    closed spec fn from_spec(v: String) -> Self {
        Password { text: v }
    }
}

impl Drop for Password {
    fn drop(&mut self)
        opens_invariants none
        no_unwind
    {
        wipe(&mut self.text);
    }
}

/// A mutable buffer that an input field writes a password into.
///
/// It is wiped when dropped, and `Password::take_from` wipes it as soon as
/// the text has been taken.
pub struct PasswordBuf {
    text: String,
}

impl View for PasswordBuf {
    type V = Seq<char>;

    closed spec fn view(&self) -> Seq<char> {
        self.text@
    }
}

impl PasswordBuf {
    /// An empty buffer.
    pub fn empty() -> (r: Self)
        ensures
            r@ == Seq::<char>::empty(),
    {
        PasswordBuf { text: String::new() }
    }

    /// The buffer's text, for an input field to edit in place.
    pub fn as_mut(&mut self) -> (r: &mut String)
        ensures
            r@ == old(self)@,
            final(r)@ == final(self)@,
    {
        &mut self.text
    }
}

impl From<String> for PasswordBuf {
    fn from(text: String) -> (r: Self)
        ensures
            r@ == text@,
    {
        PasswordBuf { text }
    }
}

impl vstd::std_specs::convert::FromSpecImpl<String> for PasswordBuf {
    open spec fn obeys_from_spec() -> bool {
        true
    }

    closed spec fn from_spec(v: String) -> Self {
        PasswordBuf { text: v }
    }
}

impl Drop for PasswordBuf {
    fn drop(&mut self)
        opens_invariants none
        no_unwind
    {
        wipe(&mut self.text);
    }
}

} // verus!
