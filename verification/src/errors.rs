//! How the protocol reports failure.
use vstd::prelude::*;

verus! {

/// Why an inbound frame or document was rejected.
#[derive(Debug, Clone, Copy, PartialEq, Eq, Structural)]
pub enum DecodeError {
    /// The text is not JSON.
    Syntax,
    /// The frame is not a JSON object.
    NotObject,
    /// The frame has no `type` field holding a string.
    MissingType,
    /// The `type` field names no message the protocol knows.
    UnknownType,
    /// A required message field is missing or has the wrong type.
    Payload,
}

/// Why a message could not be written out.
#[derive(Debug, Clone, Copy, PartialEq, Eq, Structural)]
pub enum EncodeError {
    /// The message repeats a pass-through field key, or misuses one the
    /// protocol writes itself.
    NotWellFormed,
    /// The value nests past the depth the text codec is trusted for.
    TooDeep,
}

impl DecodeError {
    /// A short description, for diagnostics.
    pub fn describe(&self) -> (r: &'static str)
        ensures
            r@.len() > 0,
    {
        proof {
            reveal_strlit("the text is not JSON");
            reveal_strlit("the frame is not a JSON object");
            reveal_strlit("the frame has no type field");
            reveal_strlit("the frame's type is unknown");
            reveal_strlit("a message field is missing or ill-typed");
        }
        match self {
            DecodeError::Syntax => "the text is not JSON",
            DecodeError::NotObject => "the frame is not a JSON object",
            DecodeError::MissingType => "the frame has no type field",
            DecodeError::UnknownType => "the frame's type is unknown",
            DecodeError::Payload => "a message field is missing or ill-typed",
        }
    }
}

} // verus!
