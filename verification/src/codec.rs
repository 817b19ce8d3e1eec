//! Length-prefixed wire codec for bounded strings.
//!
//! Wire format: one length byte `L` (at most [`CHAR_LIMIT`]) followed by
//! exactly `L` payload bytes of valid UTF-8.  No padding bytes are ever
//! transmitted.

use vstd::prelude::*;
use vstd::utf8::*;

use crate::bounded::{BoundedString, CHAR_LIMIT};
use crate::text::validate_utf8;

verus! {

broadcast use vstd::seq::group_seq_axioms;

/// Errors reported by the wire codec.
#[derive(Clone, Copy, Debug, PartialEq, Eq, Structural)]
pub enum CodecError {
    /// Fewer bytes were available than the declared length required.
    Truncated,
    /// The declared payload length exceeds the string capacity.
    LengthExceedsCapacity,
    /// The payload bytes do not form valid UTF-8.
    InvalidUtf8,
    /// The envelope tag byte is outside the known enumeration.
    UnknownDiscriminant,
    /// Bytes were left over after the complete value was decoded.
    TrailingData,
}

/// Wire shape of a bounded string: a length byte followed by the content.
pub open spec fn spec_encode_str(content: Seq<u8>) -> Seq<u8> {
    seq![content.len() as u8] + content
}

/// Outcome of decoding a bounded string from the front of `input`: the
/// content bytes and the number of bytes consumed, or the first error met.
pub open spec fn spec_decode_str(input: Seq<u8>) -> Result<(Seq<u8>, int), CodecError> {
    if input.len() == 0 {
        Err(CodecError::Truncated)
    } else {
        let l = input[0] as int;
        if l > CHAR_LIMIT as int {
            Err(CodecError::LengthExceedsCapacity)
        } else if input.len() < 1 + l {
            Err(CodecError::Truncated)
        } else {
            let payload = input.subrange(1, 1 + l);
            if valid_utf8(payload) {
                Ok((payload, 1 + l))
            } else {
                Err(CodecError::InvalidUtf8)
            }
        }
    }
}

impl BoundedString {
    /// Encodes this string to its wire format; the result is one length
    /// byte followed by the content bytes.
    pub fn encode(&self) -> (r: Vec<u8>)
        requires
            self.wf(),
        ensures
            r@ == spec_encode_str(self@),
            r@.len() == 1 + self@.len(),
    {
        let mut out: Vec<u8> = Vec::new();
        let len = self.len();
        out.push(len as u8);
        out.extend_from_slice(self.as_bytes());
        proof {
            assert(out@ =~= spec_encode_str(self@));
        }
        out
    }

    /// Number of bytes `encode` produces: the length byte plus the content.
    pub fn encoded_size(&self) -> (r: usize)
        requires
            self.wf(),
        ensures
            r == 1 + self@.len(),
    {
        proof {
            crate::bounded::lemma_wf_capacity(self);
        }
        1 + self.len()
    }

    /// Decodes a bounded string from the front of `input`, returning the
    /// value together with the number of bytes consumed.
    pub fn decode(input: &[u8]) -> (r: Result<(Self, usize), CodecError>)
        ensures
            ({
                match r {
                    Ok(p) => spec_decode_str(input@) == Ok::<(Seq<u8>, int), CodecError>(
                        (p.0@, p.1 as int),
                    ) && p.0.wf(),
                    Err(e) => spec_decode_str(input@) == Err::<(Seq<u8>, int), CodecError>(e),
                }
            }),
    {
        if input.len() == 0 {
            return Err(CodecError::Truncated);
        }
        let l = input[0] as usize;
        if l > CHAR_LIMIT {
            return Err(CodecError::LengthExceedsCapacity);
        }
        if input.len() < 1 + l {
            return Err(CodecError::Truncated);
        }
        let payload = vstd::slice::slice_subrange(input, 1, 1 + l);
        if !validate_utf8(payload) {
            return Err(CodecError::InvalidUtf8);
        }
        let v = Self::from_bytes(payload);
        Ok((v, 1 + l))
    }

    /// Decodes a bounded string that must occupy the whole of `input`;
    /// trailing bytes are rejected.
    pub fn decode_all(input: &[u8]) -> (r: Result<Self, CodecError>)
        ensures
            ({
                match spec_decode_str(input@) {
                    Ok(p) => if p.1 == input@.len() {
                        r matches Ok(v) && v@ == p.0 && v.wf()
                    } else {
                        r == Err::<Self, CodecError>(CodecError::TrailingData)
                    },
                    Err(e) => r == Err::<Self, CodecError>(e),
                }
            }),
    {
        match Self::decode(input) {
            Ok((v, used)) => {
                if used != input.len() {
                    Err(CodecError::TrailingData)
                } else {
                    Ok(v)
                }
            },
            Err(e) => Err(e),
        }
    }
}

/// Round trip: decoding the encoding of any valid bounded string content
/// succeeds, yields the same content, and consumes the whole encoding.
pub proof fn lemma_str_roundtrip(content: Seq<u8>)
    requires
        content.len() <= CHAR_LIMIT,
        valid_utf8(content),
    ensures
        spec_decode_str(spec_encode_str(content)) == Ok::<(Seq<u8>, int), CodecError>(
            (content, spec_encode_str(content).len() as int),
        ),
{
    let e = spec_encode_str(content);
    assert(e[0] == content.len() as u8);
    assert(e.subrange(1, 1 + content.len() as int) =~= content);
}

} // verus!
