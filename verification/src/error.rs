//! The library's error type.

use vstd::prelude::*;

verus! {

/// Everything that can go wrong inside the library, each with a message.
#[derive(Debug)]
pub enum LeshyError {
    Config(String),
    Dns(String),
    Routing(String),
    Io(String),
    Parse(String),
}

impl LeshyError {
    /// The message carried by the error.
    pub fn message(&self) -> (r: &String)
        ensures
            r@ == (match self {
                LeshyError::Config(m) => m@,
                LeshyError::Dns(m) => m@,
                LeshyError::Routing(m) => m@,
                LeshyError::Io(m) => m@,
                LeshyError::Parse(m) => m@,
            }),
    {
        match self {
            LeshyError::Config(m) => m,
            LeshyError::Dns(m) => m,
            LeshyError::Routing(m) => m,
            LeshyError::Io(m) => m,
            LeshyError::Parse(m) => m,
        }
    }
}

} // verus!
