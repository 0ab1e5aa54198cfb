use vstd::prelude::*;

verus! {

/// Enumerates all errors possible in this crate.
#[derive(Clone, Copy, Debug, PartialEq, Eq, Structural)]
pub enum Error {
    /// An I/O failure reported by the surrounding file layer.
    Io,
    /// Deserialization failed: the content does not match the expected type layout.
    CorruptedBlock,
    /// The addressed block is in the middle of a record, not at its start.
    ContinuationBlock,
    /// The addressed block is free.
    EmptyBlock,
    /// A hash-partitioned access named a shard that was never created.
    NotExistant,
}

impl Error {
    /// The description each error carries.
    pub open spec fn spec_message(self) -> Seq<char> {
        match self {
            Error::Io => "Io Failure"@,
            Error::CorruptedBlock => "Unable to deserialize a block, file is corrupted or type is wrong"@,
            Error::ContinuationBlock => "Continuation Block"@,
            Error::EmptyBlock => "Empty Block"@,
            Error::NotExistant => "Shard Not Existant"@,
        }
    }

    /// A short human-readable description of the error.
    pub fn message(&self) -> (r: &'static str)
        ensures
            r@ == self.spec_message(),
    {
        match self {
            Error::Io => "Io Failure",
            Error::CorruptedBlock => "Unable to deserialize a block, file is corrupted or type is wrong",
            Error::ContinuationBlock => "Continuation Block",
            Error::EmptyBlock => "Empty Block",
            Error::NotExistant => "Shard Not Existant",
        }
    }
}

} // verus!
