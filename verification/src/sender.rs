//! The message origin tag and its single-byte wire form.

use vstd::prelude::*;

use crate::codec::CodecError;

verus! {

/// Identifies which side of the isolation boundary produced a message.
#[derive(Clone, Debug, PartialEq, Eq, Structural)]
pub enum Sender {
    Host,
    Wasm,
}

/// Fixed tag-to-ordinal mapping: each variant encodes as exactly one byte.
pub open spec fn sender_ordinal(s: Sender) -> u8 {
    match s {
        Sender::Host => 0,
        Sender::Wasm => 1,
    }
}

impl Sender {
    /// The discriminant byte this variant encodes to.
    pub fn to_byte(&self) -> (r: u8)
        ensures
            r == sender_ordinal(*self),
    {
        match self {
            Sender::Host => 0,
            Sender::Wasm => 1,
        }
    }

    /// Parses a discriminant byte; any byte outside the enumeration is
    /// rejected.
    pub fn from_byte(b: u8) -> (r: Result<Self, CodecError>)
        ensures
            b == 0 ==> r == Ok::<Sender, CodecError>(Sender::Host),
            b == 1 ==> r == Ok::<Sender, CodecError>(Sender::Wasm),
            b >= 2 ==> r == Err::<Sender, CodecError>(CodecError::UnknownDiscriminant),
    {
        if b == 0 {
            Ok(Sender::Host)
        } else if b == 1 {
            Ok(Sender::Wasm)
        } else {
            Err(CodecError::UnknownDiscriminant)
        }
    }

    /// Encodes this tag to its one-byte wire form.
    pub fn encode(&self) -> (r: Vec<u8>)
        ensures
            r@ == seq![sender_ordinal(*self)],
    {
        let mut out: Vec<u8> = Vec::new();
        out.push(self.to_byte());
        proof {
            assert(out@ =~= seq![sender_ordinal(*self)]);
        }
        out
    }

    /// Decodes a tag that must occupy the whole of `input`.
    pub fn decode_all(input: &[u8]) -> (r: Result<Self, CodecError>)
        ensures
            input@.len() == 0 ==> r == Err::<Sender, CodecError>(CodecError::Truncated),
            input@.len() >= 1 && input@[0] >= 2 ==> r == Err::<Sender, CodecError>(
                CodecError::UnknownDiscriminant,
            ),
            input@.len() >= 2 && input@[0] <= 1 ==> r == Err::<Sender, CodecError>(
                CodecError::TrailingData,
            ),
            input@.len() == 1 && input@[0] == 0 ==> r == Ok::<Sender, CodecError>(Sender::Host),
            input@.len() == 1 && input@[0] == 1 ==> r == Ok::<Sender, CodecError>(Sender::Wasm),
    {
        if input.len() == 0 {
            return Err(CodecError::Truncated);
        }
        let s = match Self::from_byte(input[0]) {
            Ok(s) => s,
            Err(e) => {
                return Err(e);
            },
        };
        if input.len() > 1 {
            return Err(CodecError::TrailingData);
        }
        Ok(s)
    }

    /// Human-readable name of this variant.
    pub fn name(&self) -> (r: &'static str)
        ensures
            *self == Sender::Host ==> r@ == "Host"@,
            *self == Sender::Wasm ==> r@ == "Wasm"@,
    {
        match self {
            Sender::Host => "Host",
            Sender::Wasm => "Wasm",
        }
    }
}

} // verus!
