//! Why storage could not do what was asked of it.
use crate::text;
use vstd::prelude::*;

verus! {

/// Why storage could not do what was asked of it.
#[derive(Debug)]
pub enum StorageError {
    Io(String),
    Serialization(String),
    VersionConflict,
    InvalidKey,
    Other(String),
}

/// What a storage error says.
pub open spec fn storage_message(e: StorageError) -> Seq<char> {
    match e {
        StorageError::Io(m) => "IO error: "@ + m@,
        StorageError::Serialization(m) => "Serialization error: "@ + m@,
        StorageError::VersionConflict => "Version conflict"@,
        StorageError::InvalidKey => "Invalid key"@,
        StorageError::Other(m) => "Storage error: "@ + m@,
    }
}

impl StorageError {
    /// The error in words.
    pub fn message(&self) -> (r: String)
        ensures
            r@ == storage_message(*self),
    {
        match self {
            StorageError::Io(m) => {
                let mut s: String = "IO error: ".to_owned();
                text::push_text(&mut s, m.as_str());
                s
            },
            StorageError::Serialization(m) => {
                let mut s: String = "Serialization error: ".to_owned();
                text::push_text(&mut s, m.as_str());
                s
            },
            StorageError::VersionConflict => "Version conflict".to_owned(),
            StorageError::InvalidKey => "Invalid key".to_owned(),
            StorageError::Other(m) => {
                let mut s: String = "Storage error: ".to_owned();
                text::push_text(&mut s, m.as_str());
                s
            },
        }
    }
}

} // verus!
