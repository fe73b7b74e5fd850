//! The error taxonomy shared by every engine.
use vstd::prelude::*;
use vstd::string::StringExecFns;

verus! {

/// Why an operation of the store failed.
#[derive(Debug)]
pub enum KvStoreError {
    /// The key has no value in the store.
    KeyNotFoundError,
    /// The file system failed; the message says how.
    IOError(String),
    /// A record of the log could not be decoded.
    CorruptionError,
    /// A failure reported by another backend, or by the server, as text.
    StringError(String),
}

/// The result of an operation of the store.
pub type Result<T> = core::result::Result<T, KvStoreError>;

impl KvStoreError {
    /// The text that a user sees for this error.
    pub open spec fn message_spec(&self) -> Seq<char> {
        match self {
            KvStoreError::KeyNotFoundError => "Key not found"@,
            KvStoreError::CorruptionError => "Corrupt log record"@,
            KvStoreError::IOError(m) => "IO error: "@ + m@,
            KvStoreError::StringError(m) => "Error: "@ + m@,
        }
    }

    /// Only a missing key reads "Key not found": every other error's text is
    /// distinct from it.
    pub proof fn lemma_not_found_distinct(&self)
        ensures
            self.message_spec() == "Key not found"@ <==> self is KeyNotFoundError,
    {
        reveal_strlit("Key not found");
        reveal_strlit("Corrupt log record");
        reveal_strlit("IO error: ");
        reveal_strlit("Error: ");
        if self.message_spec() == "Key not found"@ {
            assert(self.message_spec()[0] == 'K');
        }
    }

    /// The text that a user sees for this error.
    pub fn message(&self) -> (r: String)
        ensures
            r@ == self.message_spec(),
    {
        match self {
            KvStoreError::KeyNotFoundError => "Key not found".to_string(),
            KvStoreError::CorruptionError => "Corrupt log record".to_string(),
            KvStoreError::IOError(m) => "IO error: ".to_string().concat(m.as_str()),
            KvStoreError::StringError(m) => "Error: ".to_string().concat(m.as_str()),
        }
    }
}

} // verus!
