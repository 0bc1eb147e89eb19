//! Errors of the engine.
use vstd::prelude::*;
use vstd::string::*;

verus! {

/// Why an engine call failed. A missing key is no error: `get` answers `None`.
#[derive(Clone, Copy, Debug, PartialEq, Eq, Structural)]
pub enum KvError {
    /// A malformed header, or a complete record whose checksum or fields are wrong.
    Corruption,
    /// The store is already open through another handle.
    Busy,
    /// An empty key, a key or value too long for the format, or an identifier
    /// outside its length or character rules.
    InvalidArgument,
    /// The log cannot grow by the record a call would append.
    StorageFull,
}

/// The description of each error.
pub open spec fn kv_error_text(e: KvError) -> Seq<char> {
    match e {
        KvError::Corruption => "data corruption detected"@,
        KvError::Busy => "database already open elsewhere"@,
        KvError::InvalidArgument => "invalid argument"@,
        KvError::StorageFull => "storage full"@,
    }
}

impl KvError {
    /// A human-readable description.
    pub fn message(&self) -> (r: String)
        ensures
            r@ == kv_error_text(*self),
    {
        let s = match self {
            KvError::Corruption => "data corruption detected",
            KvError::Busy => "database already open elsewhere",
            KvError::InvalidArgument => "invalid argument",
            KvError::StorageFull => "storage full",
        };
        String::from_str(s)
    }
}

} // verus!
