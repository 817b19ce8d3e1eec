//! Bounds-checked access to a shared linear memory region.
//!
//! The region is a contiguous byte-addressable space, a whole number of
//! fixed-size pages, growable monotonically up to a fixed maximum.  Every
//! access checks `offset + length` against the current size with arithmetic
//! that cannot wrap back into bounds, and text is never exposed before its
//! bytes have been validated as UTF-8.

use vstd::prelude::*;
use vstd::utf8::*;

use crate::bounded::bytes_as_str;
use crate::codec::CodecError;
use crate::message::{spec_decode_message, spec_encode_message, Message};
use crate::text::validate_utf8;

verus! {

broadcast use vstd::seq::group_seq_axioms;

/// Size in bytes of one linear-memory page.
pub const PAGE_SIZE: usize = 65536;

/// Maximum number of pages a region may grow to.
pub const MAX_PAGES: usize = 16;

/// Errors from a bounds-checked region access.
#[derive(Clone, Copy, Debug, PartialEq, Eq, Structural)]
pub enum BoundsError {
    /// The access would touch bytes beyond the current region size.
    OutOfBounds,
    /// An address did not fit the region's 32-bit offset type.
    AddressOverflow,
}

/// Errors from reading text out of the region.
#[derive(Clone, Copy, Debug, PartialEq, Eq, Structural)]
pub enum ReadTextError {
    /// The access itself was rejected.
    Bounds(BoundsError),
    /// The bytes in range do not form valid UTF-8.
    InvalidUtf8,
}

/// Errors from materializing a message out of the region.
#[derive(Clone, Copy, Debug, PartialEq, Eq, Structural)]
pub enum ReadMessageError {
    /// The access itself was rejected.
    Bounds(BoundsError),
    /// The bytes in range do not decode to a message.
    Codec(CodecError),
}

/// A contiguous, growable linear memory region shared across the isolation
/// boundary.
pub struct MemoryRegion {
    pages: usize,
    data: Vec<u8>,
}

impl View for MemoryRegion {
    type V = Seq<u8>;

    /// The bytes currently held by the region.
    closed spec fn view(&self) -> Seq<u8> {
        self.data@
    }
}

/// Validates a wide address before it is used as a region offset; the
/// conversion to the region's 32-bit offset type must never wrap.
pub fn checked_offset(value: u64) -> (r: Result<u32, BoundsError>)
    ensures
        value <= u32::MAX ==> r == Ok::<u32, BoundsError>(value as u32),
        value > u32::MAX ==> r == Err::<u32, BoundsError>(BoundsError::AddressOverflow),
{
    if value > 0xffff_ffff {
        Err(BoundsError::AddressOverflow)
    } else {
        Ok(value as u32)
    }
}

impl MemoryRegion {
    /// The region always spans a whole number of pages, within the maximum.
    pub closed spec fn wf(&self) -> bool {
        &&& self.data@.len() == self.pages * PAGE_SIZE
        &&& self.pages <= MAX_PAGES
    }

    /// Creates a zeroed region of `pages` pages.
    pub fn new(pages: usize) -> (r: Self)
        requires
            pages <= MAX_PAGES,
        ensures
            r.wf(),
            r@.len() == pages * PAGE_SIZE,
            forall|i: int| 0 <= i < r@.len() ==> r@[i] == 0,
    {
        proof {
            assert(pages * PAGE_SIZE <= MAX_PAGES * PAGE_SIZE) by (nonlinear_arith)
                requires
                    pages <= MAX_PAGES,
            ;
        }
        let data = vec![0u8; pages * PAGE_SIZE];
        MemoryRegion { pages, data }
    }

    /// Current size of the region in bytes.
    pub fn size(&self) -> (r: usize)
        ensures
            r == self@.len(),
    {
        self.data.len()
    }

    /// Grows the region by `additional` zeroed pages; growth is monotonic
    /// and fails without effect when it would exceed the maximum.
    pub fn grow(&mut self, additional: usize) -> (r: bool)
        requires
            old(self).wf(),
        ensures
            final(self).wf(),
            additional > MAX_PAGES - (old(self)@.len() as int) / (PAGE_SIZE as int) ==> !r && *final(self)
                == *old(self),
            additional <= MAX_PAGES - (old(self)@.len() as int) / (PAGE_SIZE as int) ==> r && final(self)@
                == old(self)@ + Seq::new((additional * PAGE_SIZE) as nat, |i: int| 0u8),
    {
        proof {
            let olen = old(self)@.len() as int;
            let opages = old(self).pages as int;
            assert(olen / (PAGE_SIZE as int) == opages) by (nonlinear_arith)
                requires
                    olen == opages * PAGE_SIZE,
                    opages >= 0,
            ;
        }
        if additional > MAX_PAGES - self.pages {
            return false;
        }
        let new_pages = self.pages + additional;
        proof {
            assert(new_pages * PAGE_SIZE <= MAX_PAGES * PAGE_SIZE && new_pages * PAGE_SIZE
                == self.pages * PAGE_SIZE + additional * PAGE_SIZE) by (nonlinear_arith)
                requires
                    new_pages == self.pages + additional,
                    new_pages <= MAX_PAGES,
            ;
        }
        self.data.resize(new_pages * PAGE_SIZE, 0u8);
        self.pages = new_pages;
        proof {
            assert(self@ =~= old(self)@ + Seq::new((additional * PAGE_SIZE) as nat, |i: int| 0u8));
        }
        true
    }

    /// Reads `length` bytes starting at `offset`, after checking that the
    /// whole range lies inside the current region size; the check saturates,
    /// so an overflowing range can never appear to be in bounds.
    pub fn read_region(&self, offset: u32, length: u32) -> (r: Result<Vec<u8>, BoundsError>)
        requires
            self.wf(),
        ensures
            (offset as int + length as int <= self@.len()) <==> r is Ok,
            r matches Ok(v) ==> v@ == self@.subrange(offset as int, offset as int + length as int),
            r is Err ==> r == Err::<Vec<u8>, BoundsError>(BoundsError::OutOfBounds),
    {
        let end = offset.saturating_add(length);
        if end as usize > self.data.len() {
            return Err(BoundsError::OutOfBounds);
        }
        let slice = vstd::slice::slice_subrange(self.data.as_slice(), offset as usize, end as usize);
        Ok(vstd::slice::slice_to_vec(slice))
    }

    /// Writes all of `bytes` starting at `offset`, after checking that the
    /// whole range lies inside the current region size; either every byte is
    /// written or, on a bounds failure, none is.
    pub fn write_region(&mut self, offset: u32, bytes: &[u8]) -> (r: Result<(), BoundsError>)
        requires
            old(self).wf(),
        ensures
            final(self).wf(),
            final(self)@.len() == old(self)@.len(),
            (offset as int + bytes@.len() <= old(self)@.len()) <==> r is Ok,
            r is Ok ==> final(self)@ == old(self)@.subrange(0, offset as int) + bytes@ + old(
                self,
            )@.subrange(offset as int + bytes@.len(), old(self)@.len() as int),
            r is Err ==> *final(self) == *old(self) && r == Err::<(), BoundsError>(
                BoundsError::OutOfBounds,
            ),
    {
        let len = self.data.len();
        let off = offset as usize;
        if off > len || bytes.len() > len - off {
            return Err(BoundsError::OutOfBounds);
        }
        let n = bytes.len();
        let mut j: usize = 0;
        while j < n
            invariant
                j <= n,
                n == bytes@.len(),
                off + n <= len,
                len == self.data@.len(),
                self.pages == old(self).pages,
                self.wf(),
                forall|k: int| 0 <= k < off ==> self.data@[k] == old(self)@[k],
                forall|k: int| 0 <= k < j ==> self.data@[off + k] == bytes@[k],
                forall|k: int| off + n <= k < len ==> self.data@[k] == old(self)@[k],
            decreases n - j,
        {
            self.data[off + j] = bytes[j];
            j = j + 1;
        }
        proof {
            assert(self@ =~= old(self)@.subrange(0, off as int) + bytes@ + old(self)@.subrange(
                off as int + n as int,
                len as int,
            ));
        }
        Ok(())
    }

    /// Reads `length` bytes at `offset` as text: composes the bounds check
    /// with UTF-8 validation, and never exposes a string view over
    /// unvalidated bytes.
    pub fn read_text(&self, offset: u32, length: u32) -> (r: Result<&str, ReadTextError>)
        requires
            self.wf(),
        ensures
            ({
                let sub = self@.subrange(offset as int, offset as int + length as int);
                &&& offset as int + length as int > self@.len() ==> r == Err::<&str, ReadTextError>(
                    ReadTextError::Bounds(BoundsError::OutOfBounds),
                )
                &&& offset as int + length as int <= self@.len() && !valid_utf8(sub) ==> r == Err::<
                    &str,
                    ReadTextError,
                >(ReadTextError::InvalidUtf8)
                &&& offset as int + length as int <= self@.len() && valid_utf8(sub) ==> (r matches Ok(
                    s,
                ) && encode_utf8(s@) == sub && s@ == decode_utf8(sub))
            }),
    {
        let end = offset.saturating_add(length);
        if end as usize > self.data.len() {
            return Err(ReadTextError::Bounds(BoundsError::OutOfBounds));
        }
        let slice = vstd::slice::slice_subrange(self.data.as_slice(), offset as usize, end as usize);
        if !validate_utf8(slice) {
            return Err(ReadTextError::InvalidUtf8);
        }
        let text = bytes_as_str(slice);
        proof {
            encode_utf8_decode_utf8(text@);
        }
        Ok(text)
    }

    /// Flattens a message into the region at `offset`: encodes it and
    /// writes the encoding with the usual bounds discipline.
    pub fn write_message(&mut self, offset: u32, m: &Message) -> (r: Result<(), BoundsError>)
        requires
            old(self).wf(),
            m.message.wf(),
        ensures
            final(self).wf(),
            final(self)@.len() == old(self)@.len(),
            ({
                let enc = spec_encode_message(m.sender, m.message@);
                &&& (offset as int + enc.len() <= old(self)@.len()) <==> r is Ok
                &&& r is Ok ==> final(self)@ == old(self)@.subrange(0, offset as int) + enc + old(
                    self,
                )@.subrange(offset as int + enc.len(), old(self)@.len() as int)
                &&& r is Err ==> *final(self) == *old(self) && r == Err::<(), BoundsError>(
                    BoundsError::OutOfBounds,
                )
            }),
    {
        let enc = m.encode();
        self.write_region(offset, enc.as_slice())
    }

    /// Materializes a message from the region: reads `length` bytes at
    /// `offset` with the usual bounds discipline and decodes them as a
    /// complete message envelope.
    pub fn read_message(&self, offset: u32, length: u32) -> (r: Result<Message, ReadMessageError>)
        requires
            self.wf(),
        ensures
            ({
                let sub = self@.subrange(offset as int, offset as int + length as int);
                &&& offset as int + length as int > self@.len() ==> r == Err::<
                    Message,
                    ReadMessageError,
                >(ReadMessageError::Bounds(BoundsError::OutOfBounds))
                &&& offset as int + length as int <= self@.len() ==> match spec_decode_message(sub) {
                    Ok(p) => if p.1 == sub.len() {
                        r matches Ok(m) && m.sender == p.0.0 && m.message@ == p.0.1
                            && m.message.wf()
                    } else {
                        r == Err::<Message, ReadMessageError>(ReadMessageError::Codec(
                            CodecError::TrailingData,
                        ))
                    },
                    Err(e) => r == Err::<Message, ReadMessageError>(ReadMessageError::Codec(e)),
                }
            }),
    {
        let bytes = match self.read_region(offset, length) {
            Ok(b) => b,
            Err(e) => {
                return Err(ReadMessageError::Bounds(e));
            },
        };
        match Message::decode_all(bytes.as_slice()) {
            Ok(m) => Ok(m),
            Err(e) => Err(ReadMessageError::Codec(e)),
        }
    }
}

} // verus!
