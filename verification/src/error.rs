//! The ways in which encoding and decoding fail.

use vstd::prelude::*;
use vstd::string::*;

verus! {

/// Why a call failed. A call that fails returns nothing else.
#[derive(Debug, Clone, PartialEq, Eq)]
pub enum CodecError {
    /// Encoding needs more reference ids than there are.
    RefIdOverflow,
    /// A marker's value is not a whole number in the range of reference ids.
    InvalidRefId,
    /// A reference id is defined twice, or a reference to it carries content.
    DuplicateRef,
    /// A reference id is referred to and nowhere defined.
    UnknownRef,
    /// The text is not a JSON document; the parser's message.
    Syntax(String),
    /// The tree could not be written as text; the printer's message.
    Serialize(String),
}

impl CodecError {
    /// A short description of the failure.
    pub fn message(&self) -> (r: String)
        ensures
            self matches CodecError::Syntax(m) ==> r@ == m@,
            self matches CodecError::Serialize(m) ==> r@ == m@,
            self is RefIdOverflow ==> r@ == "ref id overflow"@,
            self is InvalidRefId ==> r@ == "invalid ref id"@,
            self is DuplicateRef ==> r@ == "ref object with extra members"@,
            self is UnknownRef ==> r@ == "unknown ref id"@,
    {
        match self {
            CodecError::RefIdOverflow => String::from_str("ref id overflow"),
            CodecError::InvalidRefId => String::from_str("invalid ref id"),
            CodecError::DuplicateRef => String::from_str("ref object with extra members"),
            CodecError::UnknownRef => String::from_str("unknown ref id"),
            CodecError::Syntax(m) => m.clone(),
            CodecError::Serialize(m) => m.clone(),
        }
    }
}

} // verus!
