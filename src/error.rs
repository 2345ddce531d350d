//! Why a decode failed.
use vstd::prelude::*;

verus! {

/// The cause of a failed decode.
#[derive(Debug, Clone, Copy, PartialEq, Eq, Structural)]
pub enum DecodingErrorKind {
    /// A character outside the alphabet.
    InvalidSymbol,
    /// A group whose value does not fit in 16 bits.
    Overflow,
    /// Decoded bytes that are not valid UTF-8 text.
    InvalidText,
}

/// The message that goes with each kind of failure.
pub open spec fn kind_message(kind: DecodingErrorKind) -> Seq<char> {
    match kind {
        DecodingErrorKind::InvalidText => "Error transforming decoded string to UTF-8"@,
        _ => "Error decoding base45 string"@,
    }
}

/// A failed decode: its cause, a message, and the whole input that was refused.
#[derive(Debug, Clone)]
pub struct DecodingError {
    pub kind: DecodingErrorKind,
    pub msg: String,
    pub input: String,
}

impl DecodingError {
    pub fn new(kind: DecodingErrorKind, input: &str) -> (r: Self)
        ensures
            r.kind == kind,
            r.msg@ == kind_message(kind),
            r.input@ == input@,
    {
        let msg = match kind {
            DecodingErrorKind::InvalidText => "Error transforming decoded string to UTF-8",
            _ => "Error decoding base45 string",
        };
        DecodingError { kind, msg: String::from_str(msg), input: String::from_str(input) }
    }

    /// The cause of the failure.
    pub fn kind(&self) -> (r: DecodingErrorKind)
        ensures
            r == self.kind,
    {
        self.kind
    }

    /// The message that describes the failure.
    pub fn message(&self) -> (r: &str)
        ensures
            r@ == self.msg@,
    {
        self.msg.as_str()
    }

    /// The whole input that was refused.
    pub fn input(&self) -> (r: &str)
        ensures
            r@ == self.input@,
    {
        self.input.as_str()
    }

    /// The message, a colon, a space, and the input.
    pub fn to_text(&self) -> (r: String)
        ensures
            r@ == self.msg@ + ": "@ + self.input@,
    {
        let mut r = String::from_str(self.msg.as_str());
        r.append(": ");
        r.append(self.input.as_str());
        r
    }
}

} // verus!
