//! Errors of the wire protocol.
use crate::text::{decimal_chars, push_decimal};
use crate::wire::CodecError;
use vstd::prelude::*;

verus! {

#[derive(Debug, Clone, Copy, PartialEq, Eq, Structural)]
pub enum ProtocolError {
    /// A frame's payload has more bytes than a frame may carry.
    FrameTooLarge(usize),
    /// More bytes are needed.
    Incomplete,
    /// The message could not be serialised.
    Encode(CodecError),
    /// The payload is no message.
    Decode(CodecError),
}

impl ProtocolError {
    /// The text that describes the error.
    pub open spec fn message(self) -> Seq<char> {
        match self {
            ProtocolError::FrameTooLarge(n) => "frame too large: "@ + decimal_chars(n as nat)
                + " bytes"@,
            ProtocolError::Incomplete => "incomplete frame"@,
            ProtocolError::Encode(e) => "encode failed: "@ + e.message(),
            ProtocolError::Decode(_) => "decode failed"@,
        }
    }

    /// Describes the error in words.
    pub fn to_string(&self) -> (r: String)
        ensures
            r@ == self.message(),
    {
        match self {
            ProtocolError::FrameTooLarge(n) => {
                let mut out: String = "frame too large: ".to_owned();
                push_decimal(&mut out, *n as u64);
                out.append(" bytes");
                out
            },
            ProtocolError::Incomplete => "incomplete frame".to_owned(),
            ProtocolError::Encode(e) => {
                let mut out: String = "encode failed: ".to_owned();
                out.append(e.to_string().as_str());
                out
            },
            ProtocolError::Decode(_) => "decode failed".to_owned(),
        }
    }
}

/// The words of a frame that is too large give its size, and those of a message
/// that could not be serialised the reason.
pub proof fn lemma_sizes_told(n: usize, e: CodecError)
    ensures
        ProtocolError::FrameTooLarge(n).message() == "frame too large: "@ + decimal_chars(n as nat)
            + " bytes"@,
        ProtocolError::Encode(e).message() == "encode failed: "@ + e.message(),
        ProtocolError::Incomplete.message() != ProtocolError::Decode(e).message(),
{
    reveal_strlit("incomplete frame");
    reveal_strlit("decode failed");
    assert("incomplete frame"@.len() == 16 && "decode failed"@.len() == 13);
}

} // verus!
