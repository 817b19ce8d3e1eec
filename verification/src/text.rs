//! Executable UTF-8 validation, proved equivalent to `vstd::utf8::valid_utf8`,
//! together with the character-boundary lemmas that the bounded string
//! operations rely on.

use vstd::prelude::*;
use vstd::utf8::*;

verus! {

broadcast use vstd::seq::group_seq_axioms;

// ---------------------------------------------------------------------------
// Bit-level facts about single scalar encodings.
// ---------------------------------------------------------------------------

proof fn lemma_scalar_w1(b0: u8)
    by (bit_vector)
    requires
        b0 <= 0x7f,
    ensures
        not_surrogate(codepoint_width_1(b0)),
        has_width_1_encoding(codepoint_width_1(b0)),
{
}

proof fn lemma_scalar_w2_ok(b0: u8, b1: u8)
    by (bit_vector)
    requires
        0xc2 <= b0 <= 0xdf,
        0x80 <= b1 <= 0xbf,
    ensures
        not_overlong_encoding(codepoint_width_2(b0, b1), 2),
        not_surrogate(codepoint_width_2(b0, b1)),
        has_width_2_encoding(codepoint_width_2(b0, b1)),
{
}

proof fn lemma_scalar_w2_overlong(b0: u8, b1: u8)
    by (bit_vector)
    requires
        0xc0 <= b0 <= 0xc1,
        0x80 <= b1 <= 0xbf,
    ensures
        !not_overlong_encoding(codepoint_width_2(b0, b1), 2),
{
}

proof fn lemma_scalar_w2_bound(b0: u8, b1: u8)
    by (bit_vector)
    requires
        0xc0 <= b0 <= 0xdf,
        0x80 <= b1 <= 0xbf,
    ensures
        codepoint_width_2(b0, b1) <= 0x7ff,
{
}

proof fn lemma_scalar_w3_ok(b0: u8, b1: u8, b2: u8)
    by (bit_vector)
    requires
        0xe0 <= b0 <= 0xef,
        0x80 <= b1 <= 0xbf,
        0x80 <= b2 <= 0xbf,
        b0 == 0xe0 ==> b1 >= 0xa0,
        b0 == 0xed ==> b1 <= 0x9f,
    ensures
        not_overlong_encoding(codepoint_width_3(b0, b1, b2), 3),
        not_surrogate(codepoint_width_3(b0, b1, b2)),
        has_width_3_encoding(codepoint_width_3(b0, b1, b2)),
{
}

proof fn lemma_scalar_w3_overlong(b0: u8, b1: u8, b2: u8)
    by (bit_vector)
    requires
        b0 == 0xe0,
        0x80 <= b1 <= 0x9f,
        0x80 <= b2 <= 0xbf,
    ensures
        !not_overlong_encoding(codepoint_width_3(b0, b1, b2), 3),
{
}

proof fn lemma_scalar_w3_surrogate(b0: u8, b1: u8, b2: u8)
    by (bit_vector)
    requires
        b0 == 0xed,
        0xa0 <= b1 <= 0xbf,
        0x80 <= b2 <= 0xbf,
    ensures
        !not_surrogate(codepoint_width_3(b0, b1, b2)),
{
}

proof fn lemma_scalar_w3_bound(b0: u8, b1: u8, b2: u8)
    by (bit_vector)
    requires
        0xe0 <= b0 <= 0xef,
        0x80 <= b1 <= 0xbf,
        0x80 <= b2 <= 0xbf,
    ensures
        codepoint_width_3(b0, b1, b2) <= 0xffff,
{
}

proof fn lemma_scalar_w4_ok(b0: u8, b1: u8, b2: u8, b3: u8)
    by (bit_vector)
    requires
        0xf0 <= b0 <= 0xf4,
        0x80 <= b1 <= 0xbf,
        0x80 <= b2 <= 0xbf,
        0x80 <= b3 <= 0xbf,
        b0 == 0xf0 ==> b1 >= 0x90,
        b0 == 0xf4 ==> b1 <= 0x8f,
    ensures
        not_overlong_encoding(codepoint_width_4(b0, b1, b2, b3), 4),
        not_surrogate(codepoint_width_4(b0, b1, b2, b3)),
        has_width_4_encoding(codepoint_width_4(b0, b1, b2, b3)),
{
}

proof fn lemma_scalar_w4_bad_low(b0: u8, b1: u8, b2: u8, b3: u8)
    by (bit_vector)
    requires
        b0 == 0xf0,
        0x80 <= b1 <= 0x8f,
        0x80 <= b2 <= 0xbf,
        0x80 <= b3 <= 0xbf,
    ensures
        !not_overlong_encoding(codepoint_width_4(b0, b1, b2, b3), 4),
{
}

proof fn lemma_scalar_w4_bad_high(b0: u8, b1: u8, b2: u8, b3: u8)
    by (bit_vector)
    requires
        0xf0 <= b0 <= 0xf7,
        0x80 <= b1 <= 0xbf,
        0x80 <= b2 <= 0xbf,
        0x80 <= b3 <= 0xbf,
        b0 >= 0xf5 || (b0 == 0xf4 && b1 >= 0x90),
    ensures
        !not_overlong_encoding(codepoint_width_4(b0, b1, b2, b3), 4),
{
}

// ---------------------------------------------------------------------------
// Derived facts about well-formed scalar encodings.
// ---------------------------------------------------------------------------

/// The first byte of a well-formed scalar encoding is never a continuation
/// byte.
pub proof fn lemma_valid_first_scalar_not_cont(s: Seq<u8>)
    requires
        valid_first_scalar(s),
    ensures
        !is_continuation_byte(s[0]),
{
}

/// The codepoint read off a well-formed scalar encoding is a Unicode scalar.
pub proof fn lemma_valid_first_scalar_is_scalar(s: Seq<u8>)
    requires
        valid_first_scalar(s),
    ensures
        is_scalar(decode_first_scalar(s)),
{
    let b0 = s[0];
    if is_leading_byte_width_1(b0) {
        lemma_scalar_w1(b0);
    } else if is_leading_byte_width_2(b0) {
        lemma_scalar_w2_bound(b0, s[1]);
    } else if is_leading_byte_width_3(b0) {
        lemma_scalar_w3_bound(b0, s[1], s[2]);
    } else {
        assert(is_leading_byte_width_4(b0));
    }
}

/// In a valid UTF-8 byte sequence there are never four continuation bytes in
/// a row: every scalar's encoding starts with a leading byte and spans at
/// most four bytes.
pub proof fn lemma_not_four_continuations(s: Seq<u8>, i: int)
    requires
        valid_utf8(s),
        3 <= i < s.len(),
    ensures
        !is_continuation_byte(s[i]) || !is_continuation_byte(s[i - 1]) || !is_continuation_byte(
            s[i - 2],
        ) || !is_continuation_byte(s[i - 3]),
    decreases s.len(),
{
    let w = length_of_first_scalar(s);
    assert(1 <= w <= 4);
    lemma_valid_first_scalar_not_cont(s);
    if i < w {
        assert(i == 3 && w == 4);
    } else {
        let rest = pop_first_scalar(s);
        assert(w <= s.len());
        assert(valid_utf8(rest));
        assert(forall|k: int| 0 <= k < rest.len() ==> rest[k] == s[w + k]);
        if i - w >= 3 {
            lemma_not_four_continuations(rest, i - w);
        } else {
            assert(rest.len() > 0);
            assert(valid_first_scalar(rest));
            lemma_valid_first_scalar_not_cont(rest);
            assert(rest[0] == s[w]);
            assert(i - 3 <= w <= i);
        }
    }
}

/// Structure of the last scalar in a valid UTF-8 byte sequence, given the
/// position `j` of its leading byte (the last non-continuation byte).
pub proof fn lemma_last_scalar_structure(s: Seq<u8>, j: int)
    requires
        valid_utf8(s),
        0 <= j < s.len(),
        !is_continuation_byte(s[j]),
        forall|k: int| j < k < s.len() ==> is_continuation_byte(#[trigger] s[k]),
    ensures
        s.len() - j <= 4,
        length_of_last_scalar(s) == s.len() - j,
        is_char_boundary(s, j),
        valid_utf8(s.subrange(0, j)),
        valid_first_scalar(s.subrange(j, s.len() as int)),
        is_scalar(decode_last_scalar(s)),
        decode_last_scalar(s) == decode_first_scalar(s.subrange(j, s.len() as int)),
        encode_scalar(decode_last_scalar(s)) =~= s.subrange(j, s.len() as int),
        decode_utf8(s) =~= decode_utf8(s.subrange(0, j)).push(decode_last_scalar(s) as char),
    decreases s.len(),
{
    let n = s.len() as int;
    is_char_boundary_iff_not_is_continuation_byte(s, j);
    valid_utf8_split(s, j);
    let prefix = s.subrange(0, j);
    let suffix = s.subrange(j, n);
    assert(valid_utf8(suffix));
    assert(suffix.len() > 0);
    assert(valid_first_scalar(suffix));
    let w = length_of_first_scalar(suffix);
    assert(forall|k: int| 0 <= k < suffix.len() ==> suffix[k] == s[j + k]);
    if w < suffix.len() {
        let rest = pop_first_scalar(suffix);
        assert(rest.len() > 0);
        assert(valid_utf8(rest));
        lemma_valid_first_scalar_not_cont(rest);
        assert(rest[0] == suffix[w]);
        assert(is_continuation_byte(s[j + w]));
        assert(false);
    }
    assert(w == n - j);
    assert(w <= 4);
    // The backward scan in `length_of_last_scalar` finds exactly `w` bytes.
    assert(length_of_last_scalar(s) == w && decode_last_scalar(s) == decode_first_scalar(suffix))
        by {
        if w == 1 {
            assert(!is_continuation_byte(s[n - 1]));
        } else if w == 2 {
            assert(is_continuation_byte(s[n - 1]));
            assert(!is_continuation_byte(s[n - 2]));
            assert(suffix[0] == s[n - 2] && suffix[1] == s[n - 1]);
        } else if w == 3 {
            assert(is_continuation_byte(s[n - 1]));
            assert(is_continuation_byte(s[n - 2]));
            assert(!is_continuation_byte(s[n - 3]));
        } else {
            assert(is_continuation_byte(s[n - 1]));
            assert(is_continuation_byte(s[n - 2]));
            assert(is_continuation_byte(s[n - 3]));
            assert(!is_continuation_byte(s[n - 4]));
        }
    }
    lemma_valid_first_scalar_is_scalar(suffix);
    decode_utf8_first_scalar(suffix);
    assert(take_first_scalar(suffix) =~= suffix);
    assert(encode_scalar(decode_last_scalar(s)) =~= suffix);
    decode_utf8_split(s, j);
    let tail = pop_first_scalar(suffix);
    assert(tail.len() == 0);
    assert(valid_utf8(tail));
    assert(decode_utf8(tail) =~= Seq::<char>::empty());
    assert(decode_utf8(suffix) =~= seq![decode_first_scalar(suffix) as char] + decode_utf8(tail));
    assert(decode_utf8(suffix) =~= seq![decode_first_scalar(suffix) as char]);
}

// ---------------------------------------------------------------------------
// Executable validation.
// ---------------------------------------------------------------------------

/// Classifies the scalar encoding that starts at position `i` of `s`:
/// returns its width when it is well formed, and `None` otherwise.
fn check_first_scalar(s: &[u8], i: usize) -> (r: Option<usize>)
    requires
        i < s@.len(),
    ensures
        ({
            let sub = s@.subrange(i as int, s@.len() as int);
            match r {
                Some(w) => valid_first_scalar(sub) && length_of_first_scalar(sub) == w && 1 <= w
                    <= sub.len(),
                None => !valid_first_scalar(sub),
            }
        }),
{
    let ghost sub = s@.subrange(i as int, s@.len() as int);
    let n = s.len();
    let b0 = s[i];
    assert(sub[0] == b0);
    if b0 < 0x80 {
        proof {
            lemma_scalar_w1(b0);
        }
        Some(1)
    } else if b0 < 0xc0 {
        None
    } else if b0 < 0xe0 {
        if n - i < 2 {
            return None;
        }
        let b1 = s[i + 1];
        assert(sub[1] == b1);
        if !(0x80 <= b1 && b1 < 0xc0) {
            None
        } else if b0 < 0xc2 {
            proof {
                lemma_scalar_w2_overlong(b0, b1);
            }
            None
        } else {
            proof {
                lemma_scalar_w2_ok(b0, b1);
            }
            Some(2)
        }
    } else if b0 < 0xf0 {
        if n - i < 3 {
            return None;
        }
        let b1 = s[i + 1];
        let b2 = s[i + 2];
        assert(sub[1] == b1 && sub[2] == b2);
        if !(0x80 <= b1 && b1 < 0xc0) || !(0x80 <= b2 && b2 < 0xc0) {
            None
        } else if b0 == 0xe0 && b1 < 0xa0 {
            proof {
                lemma_scalar_w3_overlong(b0, b1, b2);
            }
            None
        } else if b0 == 0xed && b1 >= 0xa0 {
            proof {
                lemma_scalar_w3_surrogate(b0, b1, b2);
            }
            None
        } else {
            proof {
                lemma_scalar_w3_ok(b0, b1, b2);
            }
            Some(3)
        }
    } else if b0 < 0xf8 {
        if n - i < 4 {
            return None;
        }
        let b1 = s[i + 1];
        let b2 = s[i + 2];
        let b3 = s[i + 3];
        assert(sub[1] == b1 && sub[2] == b2 && sub[3] == b3);
        if !(0x80 <= b1 && b1 < 0xc0) || !(0x80 <= b2 && b2 < 0xc0) || !(0x80 <= b3 && b3 < 0xc0) {
            None
        } else if b0 == 0xf0 && b1 < 0x90 {
            proof {
                lemma_scalar_w4_bad_low(b0, b1, b2, b3);
            }
            None
        } else if b0 >= 0xf5 || (b0 == 0xf4 && b1 >= 0x90) {
            proof {
                lemma_scalar_w4_bad_high(b0, b1, b2, b3);
            }
            None
        } else {
            proof {
                lemma_scalar_w4_ok(b0, b1, b2, b3);
            }
            Some(4)
        }
    } else {
        None
    }
}

/// Relies on `char::from_u32`: it returns `Some` exactly on Unicode scalar
/// values, and the returned `char` has the given numeric value.
#[verifier::external_body]
pub fn char_from_scalar(u: u32) -> (r: char)
    requires
        is_scalar(u),
    ensures
        r as u32 == u,
{
    match char::from_u32(u) {
        Some(c) => c,
        None => ' ',
    }
}

/// Number of bytes in the UTF-8 encoding of the scalar `u`.
pub fn scalar_width(u: u32) -> (w: usize)
    requires
        is_scalar(u),
    ensures
        w == encode_scalar(u).len(),
        1 <= w <= 4,
{
    if u < 0x80 {
        1
    } else if u < 0x800 {
        2
    } else if u < 0x10000 {
        3
    } else {
        4
    }
}

/// Decodes the scalar whose well-formed encoding starts at position `i` of
/// `s`, returning the scalar value and the width of its encoding.
pub fn decode_first(s: &[u8], i: usize) -> (r: (u32, usize))
    requires
        i < s@.len(),
        valid_first_scalar(s@.subrange(i as int, s@.len() as int)),
    ensures
        ({
            let sub = s@.subrange(i as int, s@.len() as int);
            &&& r.0 == decode_first_scalar(sub)
            &&& r.1 == length_of_first_scalar(sub)
            &&& is_scalar(r.0)
            &&& 1 <= r.1 <= sub.len()
        }),
{
    let ghost sub = s@.subrange(i as int, s@.len() as int);
    proof {
        lemma_valid_first_scalar_is_scalar(sub);
    }
    let b0 = s[i];
    assert(sub[0] == b0);
    if b0 < 0x80 {
        (((b0 & 0x7f) as u32), 1)
    } else if b0 < 0xe0 {
        assert(is_leading_byte_width_2(sub[0]) && sub.len() >= 2 && is_continuation_byte(sub[1]));
        let b1 = s[i + 1];
        assert(sub[1] == b1);
        (((((b0 & 0x1f) as u32) << 6) | ((b1 & 0x3f) as u32)), 2)
    } else if b0 < 0xf0 {
        assert(is_leading_byte_width_3(sub[0]) && sub.len() >= 3 && is_continuation_byte(sub[1])
            && is_continuation_byte(sub[2]));
        let b1 = s[i + 1];
        let b2 = s[i + 2];
        assert(sub[1] == b1 && sub[2] == b2);
        (((((b0 & 0x0f) as u32) << 12) | (((b1 & 0x3f) as u32) << 6) | ((b2 & 0x3f) as u32)), 3)
    } else {
        assert(is_leading_byte_width_4(sub[0]) && sub.len() >= 4 && is_continuation_byte(sub[1])
            && is_continuation_byte(sub[2]) && is_continuation_byte(sub[3]));
        let b1 = s[i + 1];
        let b2 = s[i + 2];
        let b3 = s[i + 3];
        assert(sub[1] == b1 && sub[2] == b2 && sub[3] == b3);
        (((((b0 & 0x07) as u32) << 18) | (((b1 & 0x3f) as u32) << 12) | (((b2 & 0x3f) as u32) << 6)
            | ((b3 & 0x3f) as u32)), 4)
    }
}

/// Checks whether `s` is a valid UTF-8 byte sequence.
pub fn validate_utf8(s: &[u8]) -> (r: bool)
    ensures
        r == valid_utf8(s@),
{
    let n = s.len();
    let mut i: usize = 0;
    while i < n
        invariant
            i <= n,
            n == s@.len(),
            partial_valid_utf8(s@, i as int),
        decreases n - i,
    {
        match check_first_scalar(s, i) {
            Some(w) => {
                proof {
                    partial_valid_utf8_extend(s@, i as int);
                }
                i = i + w;
            },
            None => {
                proof {
                    let suffix = s@.subrange(i as int, s@.len() as int);
                    assert(suffix.len() > 0);
                    assert(!valid_utf8(suffix));
                    partial_valid_partial_invalid_utf8(s@, i as int);
                }
                return false;
            },
        }
    }
    proof {
        assert(s@.subrange(0, n as int) =~= s@);
    }
    true
}

} // verus!
