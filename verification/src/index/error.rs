//! Why an index could not do what was asked of it, and what it tells of itself.
use crate::text;
use vstd::prelude::*;

verus! {

/// Why an index could not do what was asked of it.
#[derive(Debug)]
pub enum IndexError {
    DimensionMismatch { expected: usize, actual: usize },
    NotFound(u64),
    Io(String),
    Other(String),
}

/// What an index error says.
pub open spec fn index_message(e: IndexError) -> Seq<char> {
    match e {
        IndexError::DimensionMismatch { expected, actual } => "Dimension mismatch: expected "@
            + text::number(expected as nat) + ", got "@ + text::number(actual as nat),
        IndexError::NotFound(id) => "ID "@ + text::number(id as nat) + " not found in index"@,
        IndexError::Io(m) => "IO error: "@ + m@,
        IndexError::Other(m) => "Index error: "@ + m@,
    }
}

impl IndexError {
    /// The error in words.
    pub fn message(&self) -> (r: String)
        ensures
            r@ == index_message(*self),
    {
        match self {
            IndexError::DimensionMismatch { expected, actual } => {
                let mut s: String = "Dimension mismatch: expected ".to_owned();
                text::push_number(&mut s, *expected as u64);
                text::push_text(&mut s, ", got ");
                text::push_number(&mut s, *actual as u64);
                s
            },
            IndexError::NotFound(id) => {
                let mut s: String = "ID ".to_owned();
                text::push_number(&mut s, *id);
                text::push_text(&mut s, " not found in index");
                s
            },
            IndexError::Io(m) => {
                let mut s: String = "IO error: ".to_owned();
                text::push_text(&mut s, m.as_str());
                s
            },
            IndexError::Other(m) => {
                let mut s: String = "Index error: ".to_owned();
                text::push_text(&mut s, m.as_str());
                s
            },
        }
    }
}

/// What an index tells of itself.
#[derive(Debug, Clone)]
pub struct AnnIndexStats {
    /// About how many bytes of memory it takes.
    pub memory_bytes: usize,
    /// How many vectors it holds that were not deleted.
    pub num_vectors: usize,
    /// A short name of its kind.
    pub index_type: String,
}

} // verus!
