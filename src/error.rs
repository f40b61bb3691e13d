use vstd::prelude::*;

verus! {

/// What can go wrong in the store; each failure carries a readable detail where one exists.
#[derive(Debug, Clone, PartialEq)]
pub enum Error {
    SerializationFailed(String),
    ConfigDoesNotExist,
    DeserializationFailed(String),
    FileOpenFailed(String),
    FileDoesNotSet,
}

} // verus!
