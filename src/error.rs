use vstd::prelude::*;

verus! {

/// What can go wrong inside the store.
#[derive(Clone, Copy, Debug, PartialEq, Eq, Structural)]
pub enum KvsError {
    /// A segment holds bytes that are not a record.
    Decode,
    /// A keydir entry led to a record that does not assign a value.
    UnexpectedCommandType,
    /// The key to remove has no value.
    KeyNotFound,
    /// No generation number is left for a new segment.
    GenerationExhausted,
}

/// The description of an error shown to people.
pub open spec fn error_text(e: KvsError) -> Seq<char> {
    match e {
        KvsError::Decode => "Decode error"@,
        KvsError::UnexpectedCommandType => "Unexpected command type"@,
        KvsError::KeyNotFound => "Key not found"@,
        KvsError::GenerationExhausted => "No segment generation left"@,
    }
}

impl KvsError {
    /// A short description of the error, for people.
    pub fn message(&self) -> (r: String)
        ensures
            r@ == error_text(*self),
    {
        match self {
            KvsError::Decode => String::from_str("Decode error"),
            KvsError::UnexpectedCommandType => String::from_str("Unexpected command type"),
            KvsError::KeyNotFound => String::from_str("Key not found"),
            KvsError::GenerationExhausted => String::from_str("No segment generation left"),
        }
    }
}

} // verus!
