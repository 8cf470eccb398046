//! The failure taxonomy of the storage layer.

use vstd::prelude::*;

verus! {

/// Everything that can go wrong in the storage layer.
#[derive(Debug, Clone, PartialEq, Eq)]
pub enum Error {
    /// An ordered-store cursor has no key at its current position.
    NoKey,
    /// An ordered-store cursor has no value at its current position.
    NoValue,
    /// A codec failure: bytes do not match the expected shape.
    Serialize,
    /// A failure of the underlying ordered byte store.
    StoreError(String),
    /// An authenticated-encryption failure: tampering or a wrong key.
    Crypto,
}

impl Error {
    /// A short human-readable description of the failure.
    pub fn message(&self) -> String {
        match self {
            Error::NoKey => "no key at the cursor position".to_owned(),
            Error::NoValue => "no value at the cursor position".to_owned(),
            Error::Serialize => "serialization error".to_owned(),
            Error::StoreError(m) => m.clone(),
            Error::Crypto => "encryption error".to_owned(),
        }
    }
}

} // verus!
