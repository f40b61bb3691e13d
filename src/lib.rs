//! A store of named configuration entries held in a document value tree, with an
//! optional backing file whose reading and writing the caller supplies.

pub mod config;
pub mod error;
pub mod lemmas;
pub mod value;
