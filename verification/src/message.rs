//! The message envelope exchanged across the isolation boundary.

use vstd::prelude::*;
use vstd::utf8::valid_utf8;

use crate::bounded::{BoundedString, CHAR_LIMIT};
use crate::codec::{lemma_str_roundtrip, spec_decode_str, spec_encode_str, CodecError};
use crate::sender::{sender_ordinal, Sender};

verus! {

broadcast use vstd::seq::group_seq_axioms;

/// The unit exchanged across the isolation boundary: a sender tag and a
/// bounded string payload.
#[derive(Clone, Debug)]
pub struct Message {
    pub sender: Sender,
    pub message: BoundedString,
}

/// Wire shape of a message: the sender's discriminant byte followed by the
/// wire form of the payload.
pub open spec fn spec_encode_message(sender: Sender, content: Seq<u8>) -> Seq<u8> {
    seq![sender_ordinal(sender)] + spec_encode_str(content)
}

/// Outcome of decoding a message from the front of `input`: the sender, the
/// payload content and the number of bytes consumed, or the first error met;
/// a discriminant error takes priority over a payload error because the
/// discriminant is read first.
pub open spec fn spec_decode_message(input: Seq<u8>) -> Result<((Sender, Seq<u8>), int), CodecError> {
    if input.len() == 0 {
        Err(CodecError::Truncated)
    } else if input[0] >= 2 {
        Err(CodecError::UnknownDiscriminant)
    } else {
        let sender = if input[0] == 0 {
            Sender::Host
        } else {
            Sender::Wasm
        };
        match spec_decode_str(input.subrange(1, input.len() as int)) {
            Ok(p) => Ok(((sender, p.0), 1 + p.1)),
            Err(e) => Err(e),
        }
    }
}

impl Message {
    /// Encodes this message to its wire format.
    pub fn encode(&self) -> (r: Vec<u8>)
        requires
            self.message.wf(),
        ensures
            r@ == spec_encode_message(self.sender, self.message@),
    {
        let mut out: Vec<u8> = Vec::new();
        out.push(self.sender.to_byte());
        let tail = self.message.encode();
        out.extend_from_slice(tail.as_slice());
        proof {
            assert(out@ =~= spec_encode_message(self.sender, self.message@));
        }
        out
    }

    /// Decodes a message from the front of `input`, returning the value
    /// together with the number of bytes consumed.
    pub fn decode(input: &[u8]) -> (r: Result<(Self, usize), CodecError>)
        ensures
            ({
                match r {
                    Ok(p) => spec_decode_message(input@) == Ok::<((Sender, Seq<u8>), int),
                        CodecError>(((p.0.sender, p.0.message@), p.1 as int)) && p.0.message.wf(),
                    Err(e) => spec_decode_message(input@) == Err::<((Sender, Seq<u8>), int),
                        CodecError>(e),
                }
            }),
    {
        if input.len() == 0 {
            return Err(CodecError::Truncated);
        }
        let sender = match Sender::from_byte(input[0]) {
            Ok(s) => s,
            Err(e) => {
                return Err(e);
            },
        };
        let rest = vstd::slice::slice_subrange(input, 1, input.len());
        match BoundedString::decode(rest) {
            Ok((v, used)) => Ok((Message { sender, message: v }, 1 + used)),
            Err(e) => Err(e),
        }
    }

    /// Decodes a message that must occupy the whole of `input`; trailing
    /// bytes are rejected.
    pub fn decode_all(input: &[u8]) -> (r: Result<Self, CodecError>)
        ensures
            ({
                match spec_decode_message(input@) {
                    Ok(p) => if p.1 == input@.len() {
                        r matches Ok(m) && m.sender == p.0.0 && m.message@ == p.0.1
                            && m.message.wf()
                    } else {
                        r == Err::<Self, CodecError>(CodecError::TrailingData)
                    },
                    Err(e) => r == Err::<Self, CodecError>(e),
                }
            }),
    {
        match Self::decode(input) {
            Ok((m, used)) => {
                if used != input.len() {
                    Err(CodecError::TrailingData)
                } else {
                    Ok(m)
                }
            },
            Err(e) => Err(e),
        }
    }
}

impl PartialEq for Message {
    /// Messages compare by sender and logical payload content.
    fn eq(&self, other: &Self) -> (r: bool) {
        self.sender == other.sender && self.message == other.message
    }
}

impl vstd::std_specs::cmp::PartialEqSpecImpl for Message {
    open spec fn obeys_eq_spec() -> bool {
        true
    }

    open spec fn eq_spec(&self, other: &Self) -> bool {
        self.sender == other.sender && self.message@ == other.message@
    }
}

/// Round trip: decoding the encoding of any message with valid payload
/// content succeeds, yields the same sender and content, and consumes the
/// whole encoding.
pub proof fn lemma_message_roundtrip(sender: Sender, content: Seq<u8>)
    requires
        content.len() <= CHAR_LIMIT,
        valid_utf8(content),
    ensures
        spec_decode_message(spec_encode_message(sender, content)) == Ok::<((Sender, Seq<u8>), int),
            CodecError>(((sender, content), spec_encode_message(sender, content).len() as int)),
{
    lemma_str_roundtrip(content);
    let e = spec_encode_message(sender, content);
    assert(e[0] == sender_ordinal(sender));
    assert(e.subrange(1, e.len() as int) =~= spec_encode_str(content));
}

} // verus!
