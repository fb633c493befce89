//! The error taxonomy of the rumor subsystem. Decoding and per-rumor errors
//! are local: the offending rumor is dropped and the store continues.
//! Snapshot-file errors are fatal at load time.

use vstd::prelude::*;

verus! {

#[derive(Clone, Debug)]
pub enum RumorError {
    /// An `encode` or `remove` target was not found under `(key, id)`.
    NonExistentRumor { id: String, key: String },
    /// A wire envelope was malformed; `field` names the offending field.
    ProtocolMismatch { field: String },
    /// A snapshot file carries an unsupported header version.
    IncompatibleDatFile { version: u64 },
    /// A snapshot file section is truncated or invalid.
    CorruptDatFile { section: String },
}

impl RumorError {
    /// A short stable label for the variant, for logs and tests.
    pub fn label(&self) -> (r: &'static str)
        ensures
            self is NonExistentRumor ==> r@ == "non-existent rumor"@,
            self is ProtocolMismatch ==> r@ == "protocol mismatch"@,
            self is IncompatibleDatFile ==> r@ == "incompatible dat file"@,
            self is CorruptDatFile ==> r@ == "corrupt dat file"@,
    {
        match self {
            RumorError::NonExistentRumor { .. } => "non-existent rumor",
            RumorError::ProtocolMismatch { .. } => "protocol mismatch",
            RumorError::IncompatibleDatFile { .. } => "incompatible dat file",
            RumorError::CorruptDatFile { .. } => "corrupt dat file",
        }
    }
}

} // verus!
