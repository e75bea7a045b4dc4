//! The failures a query can end in. All of them are recoverable: a failed
//! query yields no result and the caller goes on.

use vstd::prelude::*;

verus! {

/// Why a query was refused.
#[derive(Clone, Copy, Debug, PartialEq, Eq, Structural)]
pub enum Error {
    /// The encoder met a construct it cannot lower.
    UnsupportedQuery,
    /// The program references a column the table lacks, or one of an
    /// incompatible declared type.
    SchemaMismatch,
    /// The source table name does not resolve in the store.
    TableNotFound,
    /// A ciphertext width cannot represent a comparison operand.
    CapacityExceeded,
    /// The decoder received a malformed result sequence.
    DecryptionLengthMismatch,
}

impl Error {
    /// A short description, for callers that report failures.
    pub fn describe(&self) -> (r: &'static str)
        ensures
            r@ =~= self.describe_spec(),
    {
        match self {
            Error::UnsupportedQuery => "unsupported query",
            Error::SchemaMismatch => "schema mismatch",
            Error::TableNotFound => "table not found",
            Error::CapacityExceeded => "capacity exceeded",
            Error::DecryptionLengthMismatch => "decryption length mismatch",
        }
    }

    /// What `describe` returns.
    pub open spec fn describe_spec(self) -> Seq<char> {
        match self {
            Error::UnsupportedQuery => "unsupported query"@,
            Error::SchemaMismatch => "schema mismatch"@,
            Error::TableNotFound => "table not found"@,
            Error::CapacityExceeded => "capacity exceeded"@,
            Error::DecryptionLengthMismatch => "decryption length mismatch"@,
        }
    }
}

} // verus!
