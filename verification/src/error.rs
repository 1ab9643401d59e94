//! Errors in memory management.

use vstd::prelude::*;

verus! {

/// A memory management error.
#[derive(Clone, Copy, Debug, PartialEq, Eq, Structural)]
pub enum Error {
    /// There is not enough free memory to satisfy a memory (re)allocation. A
    /// request too large for the address space is reported this way too.
    NotEnoughMemory,
    /// An alignment that is not a power of two was passed to a memory
    /// management function.
    BadAlignment,
    /// A length of zero was passed to a memory management function.
    ZeroLength,
}

impl Error {
    /// The text that describes each error.
    pub open spec fn message_text(self) -> Seq<char> {
        match self {
            Error::NotEnoughMemory => "out of memory"@,
            Error::BadAlignment => "alignment must be a power of two"@,
            Error::ZeroLength => "length must not be zero"@,
        }
    }

    /// Describes the error in words.
    pub fn message(&self) -> (text: String)
        ensures
            text@ == self.message_text(),
    {
        match *self {
            Error::NotEnoughMemory => "out of memory".to_owned(),
            Error::BadAlignment => "alignment must be a power of two".to_owned(),
            Error::ZeroLength => "length must not be zero".to_owned(),
        }
    }
}

} // verus!
