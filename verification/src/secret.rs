//! A password in memory, and the error that says one is needed.
//!
//! The password is held in `zeroize::Zeroizing`, which wipes it on drop. The
//! type has no `Debug` or `Display` of its own, so a password never surfaces
//! in debug output or an error text.

use vstd::prelude::*;

use vstd::string::StringSliceAdditionalSpecFns;
use zeroize::Zeroizing;

use crate::text::{lossy_text, utf8_lossy};
use crate::zipcrypt::CryptError;

verus! {

/// A password, wiped from memory when dropped: the bytes live in a
/// `zeroize::Zeroizing` buffer, which Verus does not look into.
#[verifier::external_body]
pub struct Secret {
    bytes: Zeroizing<Vec<u8>>,
}

/// The bytes a `Secret` holds.
pub uninterp spec fn secret_contents(s: Secret) -> Seq<u8>;

impl View for Secret {
    type V = Seq<u8>;

    open spec fn view(&self) -> Seq<u8> {
        secret_contents(*self)
    }
}

impl Secret {
    /// `Zeroizing::new` around the bytes as given.
    #[verifier::external_body]
    pub fn new(value: Vec<u8>) -> (res: Self)
        ensures
            secret_contents(res) == value@,
    {
        Secret { bytes: Zeroizing::new(value) }
    }

    /// The UTF-8 bytes of a typed password.
    pub fn from_str_secret(s: &str) -> (res: Self)
        ensures
            res@ == s.spec_bytes(),
    {
        Self::new(vstd::slice::slice_to_vec(s.as_bytes()))
    }

    /// The password's bytes.
    ///
    /// Both WinZip AES and 7z treat the password as UTF-8/UTF-16 of the
    /// original string, so the bytes of the typed string are what is kept
    /// and handed out.
    #[verifier::external_body]
    pub fn bytes(&self) -> (res: &[u8])
        ensures
            res@ == secret_contents(*self),
    {
        self.bytes.as_slice()
    }

    pub fn is_empty(&self) -> (res: bool)
        ensures
            res == (self@.len() == 0),
    {
        self.bytes().len() == 0
    }

    /// As a string — only for handing to a foreign API that takes `&str`
    /// (7z, for one).
    pub fn as_str(&self) -> (res: String)
        ensures
            res@ == lossy_text(self@),
    {
        utf8_lossy(self.bytes())
    }

    /// `Clone` of the `Zeroizing` buffer: a copy of the same bytes.
    #[verifier::external_body]
    pub fn duplicate(&self) -> (res: Self)
        ensures
            secret_contents(res) == secret_contents(*self),
    {
        Secret { bytes: self.bytes.clone() }
    }
}

/// Why a password is asked for.
#[derive(Debug, Clone, Copy, PartialEq, Eq, Structural)]
pub enum PasswordKind {
    /// None was given.
    Missing,
    /// The one given does not open the archive.
    Wrong,
    /// The format can only say "this may be a password problem".
    Other,
}

/// The archive needs a password: none was given, or the one given is wrong.
///
/// A type rather than just a message, so that callers can recognise the case
/// whatever language the message is in — the context menu's search asks for
/// a password when it sees one.
#[derive(Debug)]
pub struct PasswordError {
    kind: PasswordKind,
    message: Option<String>,
}

impl PasswordError {
    pub closed spec fn kind_of(&self) -> PasswordKind {
        self.kind
    }

    pub closed spec fn message_of(&self) -> Option<Seq<char>> {
        match self.message {
            Some(m) => Some(m@),
            None => None,
        }
    }

    pub fn missing() -> (res: Self)
        ensures
            res.kind_of() == PasswordKind::Missing,
            res.message_of() is None,
    {
        PasswordError { kind: PasswordKind::Missing, message: None }
    }

    pub fn wrong() -> (res: Self)
        ensures
            res.kind_of() == PasswordKind::Wrong,
            res.message_of() is None,
    {
        PasswordError { kind: PasswordKind::Wrong, message: None }
    }

    /// For a format that can only say "this may be a password problem".
    pub fn with_message(message: String) -> (res: Self)
        ensures
            res.kind_of() == PasswordKind::Other,
            res.message_of() == Some(message@),
    {
        PasswordError { kind: PasswordKind::Other, message: Some(message) }
    }

    pub fn kind(&self) -> (res: PasswordKind)
        ensures
            res == self.kind_of(),
    {
        self.kind
    }

    /// The text a format gave, for `with_message`; `None` for the two cases
    /// whose text comes from the message catalogue.
    pub fn message(&self) -> (res: Option<&String>)
        ensures
            match res {
                Some(m) => self.message_of() == Some(m@),
                None => self.message_of() is None,
            },
    {
        match &self.message {
            Some(m) => Some(m),
            None => None,
        }
    }
}

/// Whether an error means that a password is needed: none was given, or the
/// one given is wrong. Callers use it to ask for a password, whatever
/// language the error's text is in.
pub fn needs_password(error: &CryptError) -> (res: bool)
    ensures
        res == (error is Password),
{
    match error {
        CryptError::Password(_) => true,
        _ => false,
    }
}

} // verus!
