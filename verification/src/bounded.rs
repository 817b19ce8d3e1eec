//! A fixed-capacity, inline UTF-8 string buffer.
//!
//! The buffer holds its current length in slot 0 and the content bytes in
//! slots `1..=length`; the remaining slots are unspecified padding.  The view
//! of a `BoundedString` is the sequence of its content bytes, and the
//! well-formedness predicate `wf` states the two data invariants: the length
//! never exceeds [`CHAR_LIMIT`], and the content is always valid, complete
//! UTF-8.

use vstd::prelude::*;
use vstd::utf8::*;

use crate::text::{char_from_scalar, decode_first, scalar_width, validate_utf8};
use crate::text::{lemma_last_scalar_structure, lemma_not_four_continuations,
    lemma_valid_first_scalar_not_cont};

verus! {

broadcast use vstd::seq::group_seq_axioms, vstd::array::group_array_axioms;

/// Maximum number of content bytes that fit in a `BoundedString`; one extra
/// byte holds the current length, so the whole buffer occupies 128 bytes.
pub const CHAR_LIMIT: usize = 127;

/// Checks that `ch` is the first byte in a UTF-8 code point sequence
/// (equivalently: that it is not a continuation byte).
pub fn is_utf8_char_boundary(ch: u8) -> (r: bool)
    ensures
        r == !is_continuation_byte(ch),
{
    ch < 0x80 || ch >= 0xc0
}

/// Inline string of up to [`CHAR_LIMIT`] UTF-8 bytes.
#[derive(Clone, Debug)]
pub struct BoundedString {
    chars: [u8; 128],
}

impl View for BoundedString {
    type V = Seq<u8>;

    /// The content bytes of the string.
    closed spec fn view(&self) -> Seq<u8> {
        self.chars@.subrange(1, self.spec_len() + 1)
    }
}

impl BoundedString {
    /// Stored length, clamped to the capacity so that the view is always
    /// well defined.
    closed spec fn spec_len(&self) -> int {
        if self.chars@[0] as int <= CHAR_LIMIT as int {
            self.chars@[0] as int
        } else {
            CHAR_LIMIT as int
        }
    }

    /// The data invariants: the stored length is within capacity and the
    /// content bytes form valid, complete UTF-8.
    pub closed spec fn wf(&self) -> bool {
        &&& self.chars@[0] as int <= CHAR_LIMIT as int
        &&& valid_utf8(self@)
    }

    /// Creates a new empty `BoundedString`.
    pub fn new() -> (r: Self)
        ensures
            r.wf(),
            r@ == Seq::<u8>::empty(),
    {
        let chars = [0u8; 128];
        let r = BoundedString { chars };
        proof {
            assert(r@ =~= Seq::<u8>::empty());
        }
        r
    }

    /// Copies up to [`CHAR_LIMIT`] already-validated bytes into a fresh
    /// buffer.
    pub(crate) fn from_bytes(bytes: &[u8]) -> (r: Self)
        requires
            bytes@.len() <= CHAR_LIMIT,
            valid_utf8(bytes@),
        ensures
            r.wf(),
            r@ == bytes@,
    {
        let n = bytes.len();
        let mut chars = [0u8; 128];
        chars[0] = n as u8;
        let mut j: usize = 0;
        while j < n
            invariant
                j <= n,
                n == bytes@.len(),
                n <= CHAR_LIMIT,
                chars@.len() == 128,
                chars@[0] == n as u8,
                forall|k: int| 0 <= k < j ==> chars@[1 + k] == bytes@[k],
            decreases n - j,
        {
            chars[1 + j] = bytes[j];
            j = j + 1;
        }
        let r = BoundedString { chars };
        proof {
            assert(r@ =~= bytes@);
        }
        r
    }

    /// Creates a `BoundedString` from a string slice; when the slice does
    /// not fit, its longest prefix that ends on a character boundary and
    /// fits in [`CHAR_LIMIT`] bytes is taken, so the result is always valid
    /// UTF-8 and never more than three bytes short of the capacity.
    pub fn from_str(s: &str) -> (r: Self)
        ensures
            r.wf(),
            ({
                let b = encode_utf8(s@);
                &&& b.len() <= CHAR_LIMIT ==> r@ == b
                &&& b.len() > CHAR_LIMIT ==> {
                    &&& r@ == b.subrange(0, r@.len() as int)
                    &&& is_char_boundary(b, r@.len() as int)
                    &&& CHAR_LIMIT - 3 <= r@.len() <= CHAR_LIMIT
                    &&& forall|k: int|
                        r@.len() < k <= CHAR_LIMIT ==> !is_char_boundary(b, k)
                }
            }),
    {
        let bytes = s.as_bytes();
        proof {
            encode_utf8_valid_utf8(s@);
        }
        let n = bytes.len();
        if n <= CHAR_LIMIT {
            Self::from_bytes(bytes)
        } else {
            let mut i: usize = CHAR_LIMIT;
            loop
                invariant
                    i <= CHAR_LIMIT,
                    n == bytes@.len(),
                    n > CHAR_LIMIT,
                    bytes@ == encode_utf8(s@),
                    valid_utf8(bytes@),
                    forall|k: int| i < k <= CHAR_LIMIT ==> is_continuation_byte(#[trigger] bytes@[k]),
                ensures
                    i <= CHAR_LIMIT,
                    !is_continuation_byte(bytes@[i as int]),
                    forall|k: int| i < k <= CHAR_LIMIT ==> is_continuation_byte(#[trigger] bytes@[k]),
                decreases i,
            {
                if is_utf8_char_boundary(bytes[i]) {
                    break;
                }
                proof {
                    if i == 0 {
                        assert(valid_first_scalar(bytes@));
                        lemma_valid_first_scalar_not_cont(bytes@);
                        assert(false);
                    }
                }
                i = i - 1;
            }
            proof {
                if i < CHAR_LIMIT - 3 {
                    lemma_not_four_continuations(bytes@, CHAR_LIMIT as int);
                    assert(false);
                }
                is_char_boundary_iff_not_is_continuation_byte(bytes@, i as int);
                valid_utf8_split(bytes@, i as int);
                assert forall|k: int| i < k <= CHAR_LIMIT implies !is_char_boundary(
                    bytes@,
                    k,
                ) by {
                    is_char_boundary_iff_not_is_continuation_byte(bytes@, k);
                }
            }
            let prefix = vstd::slice::slice_subrange(bytes, 0, i);
            Self::from_bytes(prefix)
        }
    }

    /// Creates a `BoundedString` from a string slice, or returns `None`
    /// (rather than truncating) when the slice does not fit.
    pub fn from_str_checked(s: &str) -> (r: Option<Self>)
        ensures
            ({
                let b = encode_utf8(s@);
                if b.len() <= CHAR_LIMIT {
                    r matches Some(x) && x@ == b && x.wf()
                } else {
                    r is None
                }
            }),
    {
        let bytes = s.as_bytes();
        if bytes.len() > CHAR_LIMIT {
            return None;
        }
        proof {
            encode_utf8_valid_utf8(s@);
        }
        Some(Self::from_bytes(bytes))
    }

    /// Creates a `BoundedString` from a string slice, or returns `None`
    /// when the slice does not fit.
    pub fn try_from_str(s: &str) -> (r: Option<Self>)
        ensures
            ({
                let b = encode_utf8(s@);
                if b.len() <= CHAR_LIMIT {
                    r matches Some(x) && x@ == b && x.wf()
                } else {
                    r is None
                }
            }),
    {
        Self::from_str_checked(s)
    }

    /// Returns the length of this `BoundedString` in bytes.
    pub fn len(&self) -> (r: usize)
        requires
            self.wf(),
        ensures
            r == self@.len(),
    {
        self.chars[0] as usize
    }

    /// Returns `true` if this `BoundedString` holds no bytes.
    pub fn is_empty(&self) -> (r: bool)
        requires
            self.wf(),
        ensures
            r == (self@.len() == 0),
    {
        self.chars[0] == 0
    }

    /// Returns the content bytes of this `BoundedString`.
    pub fn as_bytes(&self) -> (r: &[u8])
        requires
            self.wf(),
        ensures
            r@ == self@,
    {
        let len = self.chars[0] as usize;
        vstd::slice::slice_subrange(self.chars.as_slice(), 1, 1 + len)
    }

    /// Returns the content of this `BoundedString` as a string slice.
    pub fn as_str(&self) -> (r: &str)
        requires
            self.wf(),
        ensures
            encode_utf8(r@) == self@,
            r@ == decode_utf8(self@),
    {
        let bytes = self.as_bytes();
        let r = bytes_as_str(bytes);
        proof {
            encode_utf8_decode_utf8(r@);
        }
        r
    }

    /// Returns the characters of this `BoundedString`, in order.
    pub fn chars(&self) -> (r: Vec<char>)
        requires
            self.wf(),
        ensures
            r@ == decode_utf8(self@),
    {
        let bytes = self.as_bytes();
        let n = bytes.len();
        let mut out: Vec<char> = Vec::new();
        let mut i: usize = 0;
        proof {
            assert(bytes@.subrange(0, n as int) =~= bytes@);
            assert(out@ + decode_utf8(bytes@) =~= decode_utf8(bytes@));
        }
        while i < n
            invariant
                i <= n,
                n == bytes@.len(),
                bytes@ == self@,
                valid_utf8(bytes@),
                valid_utf8(bytes@.subrange(i as int, n as int)),
                decode_utf8(bytes@) =~= out@ + decode_utf8(bytes@.subrange(i as int, n as int)),
            decreases n - i,
        {
            let ghost suffix = bytes@.subrange(i as int, n as int);
            let ghost prev = out@;
            proof {
                assert(suffix.len() > 0);
                assert(valid_first_scalar(suffix));
            }
            let (u, w) = decode_first(bytes, i);
            let c = char_from_scalar(u);
            out.push(c);
            proof {
                char_u32_cast(c, u);
                let next = bytes@.subrange(i + w, n as int);
                assert(pop_first_scalar(suffix) =~= next);
                assert(valid_utf8(next));
                assert(decode_utf8(suffix) =~= seq![decode_first_scalar(suffix) as char]
                    + decode_utf8(next));
                assert(c == decode_first_scalar(suffix) as char);
                assert(out@ =~= prev.push(c));
                assert(out@ + decode_utf8(next) =~= prev + decode_utf8(suffix));
            }
            i = i + w;
        }
        proof {
            assert(bytes@.subrange(n as int, n as int) =~= Seq::<u8>::empty());
            assert(decode_utf8(Seq::<u8>::empty()) =~= Seq::<char>::empty());
            assert(decode_utf8(bytes@) =~= out@);
        }
        out
    }

    /// Appends the UTF-8 encoding of `ch` when the remaining capacity
    /// suffices; on failure the buffer is unchanged.
    pub fn try_push(&mut self, ch: char) -> (r: bool)
        requires
            old(self).wf(),
        ensures
            final(self).wf(),
            old(self)@.len() + encode_scalar(ch as u32).len() <= CHAR_LIMIT ==> r && final(self)@
                == old(self)@ + encode_scalar(ch as u32),
            old(self)@.len() + encode_scalar(ch as u32).len() > CHAR_LIMIT ==> !r && *final(self)
                == *old(self),
            r ==> decode_utf8(final(self)@) == decode_utf8(old(self)@).push(ch),
    {
        let u = ch as u32;
        proof {
            char_is_scalar(ch);
        }
        let w = scalar_width(u);
        let len = self.chars[0] as usize;
        if len + w > CHAR_LIMIT {
            return false;
        }
        if w == 1 {
            self.chars[1 + len] = (u & 0x7f) as u8;
        } else if w == 2 {
            self.chars[1 + len] = 0xc0 | (((u >> 6) & 0x1f) as u8);
            self.chars[2 + len] = 0x80 | ((u & 0x3f) as u8);
        } else if w == 3 {
            self.chars[1 + len] = 0xe0 | (((u >> 12) & 0x0f) as u8);
            self.chars[2 + len] = 0x80 | (((u >> 6) & 0x3f) as u8);
            self.chars[3 + len] = 0x80 | ((u & 0x3f) as u8);
        } else {
            self.chars[1 + len] = 0xf0 | (((u >> 18) & 0x7) as u8);
            self.chars[2 + len] = 0x80 | (((u >> 12) & 0x3f) as u8);
            self.chars[3 + len] = 0x80 | (((u >> 6) & 0x3f) as u8);
            self.chars[4 + len] = 0x80 | ((u & 0x3f) as u8);
        }
        self.chars[0] = (len + w) as u8;
        proof {
            let enc = encode_scalar(u);
            assert(self@ =~= old(self)@ + enc);
            assert(encode_utf8(seq![ch]) =~= enc) by {
                assert(seq![ch].drop_first() =~= Seq::<char>::empty());
                assert(encode_utf8(seq![ch].drop_first()) == encode_utf8(Seq::<char>::empty()));
                assert(encode_utf8(Seq::<char>::empty()) =~= Seq::<u8>::empty());
                assert(seq![ch][0] == ch);
            }
            assert(valid_first_scalar(enc) && length_of_first_scalar(enc) == enc.len()) by {
                encode_utf8_first_scalar(seq![ch]);
            }
            encode_utf8_valid_utf8(seq![ch]);
            valid_utf8_concat(old(self)@, enc);
            // the new content decodes to the old characters followed by `ch`
            is_char_boundary_start_end_of_seq(old(self)@);
            lemma_boundary_extends(old(self)@, enc);
            decode_utf8_split(self@, old(self)@.len() as int);
            assert(self@.subrange(0, old(self)@.len() as int) =~= old(self)@);
            assert(self@.subrange(old(self)@.len() as int, self@.len() as int) =~= enc);
            encode_utf8_decode_utf8(seq![ch]);
            assert(decode_utf8(self@) =~= decode_utf8(old(self)@) + seq![ch]);
            assert(decode_utf8(old(self)@) + seq![ch] =~= decode_utf8(old(self)@).push(ch));
        }
        true
    }

    /// Removes and returns the last character, or returns `None` when the
    /// string is empty.
    pub fn pop(&mut self) -> (r: Option<char>)
        requires
            old(self).wf(),
        ensures
            final(self).wf(),
            old(self)@.len() == 0 ==> r is None && *final(self) == *old(self),
            old(self)@.len() > 0 ==> ({
                let w = length_of_last_scalar(old(self)@);
                let c = decode_last_scalar(old(self)@) as char;
                &&& r == Some(c)
                &&& final(self)@ == old(self)@.subrange(0, old(self)@.len() - w)
                &&& old(self)@ == final(self)@ + encode_scalar(c as u32)
                &&& decode_utf8(old(self)@) == decode_utf8(final(self)@).push(c)
                &&& decode_utf8(final(self)@) == decode_utf8(old(self)@).drop_last()
            }),
    {
        let len = self.chars[0] as usize;
        if len == 0 {
            return None;
        }
        let mut j: usize = len - 1;
        loop
            invariant
                j < len,
                *self == *old(self),
                len == self@.len(),
                self.wf(),
                forall|k: int| j < k < len ==> is_continuation_byte(#[trigger] self@[k]),
            ensures
                j < len,
                *self == *old(self),
                !is_continuation_byte(self@[j as int]),
                forall|k: int| j < k < len ==> is_continuation_byte(#[trigger] self@[k]),
            decreases j,
        {
            proof {
                assert(self@[j as int] == self.chars@[1 + j]);
            }
            if is_utf8_char_boundary(self.chars[1 + j]) {
                break;
            }
            proof {
                if j == 0 {
                    assert(valid_first_scalar(self@));
                    lemma_valid_first_scalar_not_cont(self@);
                    assert(false);
                }
            }
            j = j - 1;
        }
        proof {
            lemma_last_scalar_structure(self@, j as int);
        }
        let ghost prev = self@;
        let (u, w) = {
            let bytes = self.as_bytes();
            decode_first(bytes, j)
        };
        let c = char_from_scalar(u);
        self.chars[0] = j as u8;
        proof {
            char_u32_cast(c, u);
            assert(self@ =~= prev.subrange(0, j as int));
            assert(u == decode_last_scalar(prev));
            assert(c == decode_last_scalar(prev) as char);
            assert(prev =~= self@ + encode_scalar(decode_last_scalar(prev)));
            assert(c as u32 == decode_last_scalar(prev));
            assert(decode_utf8(prev) =~= decode_utf8(self@).push(c));
            assert(decode_utf8(self@).push(c).drop_last() =~= decode_utf8(self@));
        }
        Some(c)
    }
}

/// Capacity invariant: a well-formed `BoundedString` never holds more than
/// [`CHAR_LIMIT`] bytes, and its content is always valid, complete UTF-8.
pub proof fn lemma_wf_capacity(s: &BoundedString)
    requires
        s.wf(),
    ensures
        s@.len() <= CHAR_LIMIT,
        valid_utf8(s@),
{
}

/// A scalar encoding appended after valid UTF-8 starts at a character
/// boundary, and every byte after that boundary is then a continuation byte
/// or the leading byte of that one scalar.
proof fn lemma_boundary_extends(prefix: Seq<u8>, enc: Seq<u8>)
    requires
        valid_utf8(prefix),
        valid_first_scalar(enc),
        length_of_first_scalar(enc) == enc.len(),
    ensures
        valid_utf8(prefix + enc),
        is_char_boundary(prefix + enc, prefix.len() as int),
    decreases prefix.len(),
{
    let total = prefix + enc;
    assert(valid_utf8(enc)) by {
        assert(pop_first_scalar(enc).len() == 0);
        assert(valid_utf8(pop_first_scalar(enc)));
    }
    valid_utf8_concat(prefix, enc);
    if prefix.len() == 0 {
        assert(is_char_boundary(total, 0));
    } else {
        let w = length_of_first_scalar(prefix);
        let rest = pop_first_scalar(prefix);
        lemma_boundary_extends(rest, enc);
        assert(pop_first_scalar(total) =~= rest + enc);
        assert(is_char_boundary(total, prefix.len() as int));
    }
}

/// Append/pop inverse: appending the encoding of a character to valid UTF-8
/// content makes that character the last scalar of the result, and removing
/// it restores the original content exactly.
pub proof fn lemma_append_then_pop(s: Seq<u8>, ch: char)
    requires
        valid_utf8(s),
    ensures
        ({
            let enc = encode_scalar(ch as u32);
            let t = s + enc;
            &&& valid_utf8(t)
            &&& t.len() == s.len() + enc.len()
            &&& length_of_last_scalar(t) == enc.len()
            &&& decode_last_scalar(t) == ch as u32
            &&& t.subrange(0, s.len() as int) == s
        }),
{
    char_is_scalar(ch);
    let u = ch as u32;
    let enc = encode_scalar(u);
    let t = s + enc;
    assert(encode_utf8(seq![ch]) =~= enc) by {
        assert(seq![ch].drop_first() =~= Seq::<char>::empty());
        assert(encode_utf8(seq![ch].drop_first()) == encode_utf8(Seq::<char>::empty()));
        assert(encode_utf8(Seq::<char>::empty()) =~= Seq::<u8>::empty());
        assert(seq![ch][0] == ch);
    }
    encode_utf8_first_scalar(seq![ch]);
    assert(valid_first_scalar(enc));
    assert(length_of_first_scalar(enc) == enc.len());
    lemma_boundary_extends(s, enc);
    lemma_valid_first_scalar_not_cont(enc);
    assert(t[s.len() as int] == enc[0]);
    assert(forall|k: int| s.len() < k < t.len() ==> is_continuation_byte(#[trigger] t[k])) by {
        assert(forall|k: int| 1 <= k < enc.len() ==> is_continuation_byte(#[trigger] enc[k]));
        assert(forall|k: int| s.len() < k < t.len() ==> t[k] == enc[k - s.len()]);
    }
    lemma_last_scalar_structure(t, s.len() as int);
    assert(t.subrange(s.len() as int, t.len() as int) =~= enc);
    assert(decode_first_scalar(enc) == ch as u32);
    assert(t.subrange(0, s.len() as int) =~= s);
}

/// Relies on `core::str::from_utf8`: on valid UTF-8 input it returns `Ok`
/// with a string slice viewing exactly the given bytes.
#[verifier::external_body]
pub(crate) fn bytes_as_str(bytes: &[u8]) -> (r: &str)
    requires
        valid_utf8(bytes@),
    ensures
        encode_utf8(r@) == bytes@,
{
    match core::str::from_utf8(bytes) {
        Ok(s) => s,
        Err(_) => "",
    }
}

impl Default for BoundedString {
    /// The default value is the empty string.
    fn default() -> (r: Self)
        ensures
            r.wf(),
            r@ == Seq::<u8>::empty(),
    {
        Self::new()
    }
}

impl PartialEq for BoundedString {
    /// Equality is defined over the logical string content only, never over
    /// unused padding bytes.
    fn eq(&self, other: &Self) -> (r: bool) {
        let la = self.chars[0];
        let la = if la > 127 {
            127
        } else {
            la
        };
        let lb = other.chars[0];
        let lb = if lb > 127 {
            127
        } else {
            lb
        };
        proof {
            assert(la as int == self.spec_len());
            assert(lb as int == other.spec_len());
            assert(self@.len() == self.spec_len());
            assert(other@.len() == other.spec_len());
        }
        if la != lb {
            return false;
        }
        let n = la as usize;
        let mut j: usize = 0;
        while j < n
            invariant
                j <= n,
                n == self.spec_len(),
                n == other.spec_len(),
                self@.len() == n,
                other@.len() == n,
                forall|k: int| 0 <= k < j ==> self@[k] == other@[k],
            decreases n - j,
        {
            proof {
                assert(self@[j as int] == self.chars@[1 + j]);
                assert(other@[j as int] == other.chars@[1 + j]);
            }
            if self.chars[1 + j] != other.chars[1 + j] {
                return false;
            }
            j = j + 1;
        }
        proof {
            assert(self@ =~= other@);
        }
        true
    }
}

impl vstd::std_specs::cmp::PartialEqSpecImpl for BoundedString {
    open spec fn obeys_eq_spec() -> bool {
        true
    }

    open spec fn eq_spec(&self, other: &Self) -> bool {
        self@ == other@
    }
}

} // verus!
