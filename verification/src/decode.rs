//! UTF-8 validation of captured byte runs.
//!
//! A captured span is validated before conversion.  The validator is verified
//! against vstd's model of UTF-8: it returns the exact number of leading
//! bytes that form a valid encoding, which is also the quantity reported in
//! [`crate::errors::Error::PartialUtf8`].

use vstd::prelude::*;
use vstd::utf8::*;

verus! {

/// The number of leading bytes of `bytes` that form a valid UTF-8 encoding:
/// well-formed scalar encodings are consumed greedily from the front, and the
/// count stops at the first byte that does not begin one.
pub open spec fn utf8_prefix_len(bytes: Seq<u8>) -> nat
    decreases bytes.len(),
{
    if bytes.len() > 0 && valid_first_scalar(bytes) {
        (length_of_first_scalar(bytes) + utf8_prefix_len(pop_first_scalar(bytes))) as nat
    } else {
        0
    }
}

/// The length of the well-formed scalar encoding at the front of `s`, or 0 if
/// `s` does not begin with one.  States [`valid_first_scalar`] as plain byte
/// range tests, which is the shape the executable validator checks.
pub open spec fn scalar_len_at(s: Seq<u8>) -> nat {
    if s.len() >= 1 && s[0] < 0x80 {
        1
    } else if s.len() >= 2 && 0xc2 <= s[0] && s[0] <= 0xdf && is_continuation_byte(s[1]) {
        2
    } else if s.len() >= 3 && s[0] == 0xe0 && 0xa0 <= s[1] && s[1] <= 0xbf
        && is_continuation_byte(s[2]) {
        3
    } else if s.len() >= 3 && 0xe1 <= s[0] && s[0] <= 0xec && is_continuation_byte(s[1])
        && is_continuation_byte(s[2]) {
        3
    } else if s.len() >= 3 && s[0] == 0xed && 0x80 <= s[1] && s[1] <= 0x9f
        && is_continuation_byte(s[2]) {
        3
    } else if s.len() >= 3 && 0xee <= s[0] && s[0] <= 0xef && is_continuation_byte(s[1])
        && is_continuation_byte(s[2]) {
        3
    } else if s.len() >= 4 && s[0] == 0xf0 && 0x90 <= s[1] && s[1] <= 0xbf
        && is_continuation_byte(s[2]) && is_continuation_byte(s[3]) {
        4
    } else if s.len() >= 4 && 0xf1 <= s[0] && s[0] <= 0xf3 && is_continuation_byte(s[1])
        && is_continuation_byte(s[2]) && is_continuation_byte(s[3]) {
        4
    } else if s.len() >= 4 && s[0] == 0xf4 && 0x80 <= s[1] && s[1] <= 0x8f
        && is_continuation_byte(s[2]) && is_continuation_byte(s[3]) {
        4
    } else {
        0
    }
}

proof fn width2_codepoint_facts(b0: u8, b1: u8)
    by (bit_vector)
    requires
        0xc0 <= b0 <= 0xdf,
        0x80 <= b1 <= 0xbf,
    ensures
        codepoint_width_2(b0, b1) <= 0x7ff,
        0xc2 <= b0 ==> 0x80 <= codepoint_width_2(b0, b1),
        b0 <= 0xc1 ==> codepoint_width_2(b0, b1) < 0x80,
{
}

proof fn width3_codepoint_facts(b0: u8, b1: u8, b2: u8)
    by (bit_vector)
    requires
        0xe0 <= b0 <= 0xef,
        0x80 <= b1 <= 0xbf,
        0x80 <= b2 <= 0xbf,
    ensures
        codepoint_width_3(b0, b1, b2) <= 0xffff,
        b0 == 0xe0 && 0xa0 <= b1 ==> 0x800 <= codepoint_width_3(b0, b1, b2) <= 0xfff,
        b0 == 0xe0 && b1 < 0xa0 ==> codepoint_width_3(b0, b1, b2) < 0x800,
        0xe1 <= b0 <= 0xec ==> 0x1000 <= codepoint_width_3(b0, b1, b2) <= 0xcfff,
        b0 == 0xed && b1 <= 0x9f ==> 0xd000 <= codepoint_width_3(b0, b1, b2) <= 0xd7ff,
        b0 == 0xed && 0xa0 <= b1 ==> 0xd800 <= codepoint_width_3(b0, b1, b2) <= 0xdfff,
        0xee <= b0 ==> 0xe000 <= codepoint_width_3(b0, b1, b2),
{
}

proof fn width4_codepoint_facts(b0: u8, b1: u8, b2: u8, b3: u8)
    by (bit_vector)
    requires
        0xf0 <= b0 <= 0xf7,
        0x80 <= b1 <= 0xbf,
        0x80 <= b2 <= 0xbf,
        0x80 <= b3 <= 0xbf,
    ensures
        b0 == 0xf0 && 0x90 <= b1 ==> 0x10000 <= codepoint_width_4(b0, b1, b2, b3) <= 0x3ffff,
        b0 == 0xf0 && b1 < 0x90 ==> codepoint_width_4(b0, b1, b2, b3) < 0x10000,
        0xf1 <= b0 <= 0xf3 ==> 0x40000 <= codepoint_width_4(b0, b1, b2, b3) <= 0xfffff,
        b0 == 0xf4 && b1 <= 0x8f ==> 0x100000 <= codepoint_width_4(b0, b1, b2, b3) <= 0x10ffff,
        b0 == 0xf4 && 0x90 <= b1 ==> 0x110000 <= codepoint_width_4(b0, b1, b2, b3),
        0xf5 <= b0 ==> 0x140000 <= codepoint_width_4(b0, b1, b2, b3),
{
}

proof fn width1_codepoint_facts(b0: u8)
    by (bit_vector)
    requires
        b0 <= 0x7f,
    ensures
        codepoint_width_1(b0) == b0,
{
}

/// The byte-range classification agrees with vstd's notion of a well-formed
/// scalar encoding at the front of a byte sequence.
pub proof fn lemma_scalar_len_at_correct(s: Seq<u8>)
    ensures
        scalar_len_at(s) > 0 <==> (s.len() > 0 && valid_first_scalar(s)),
        scalar_len_at(s) > 0 ==> scalar_len_at(s) == length_of_first_scalar(s),
{
    if s.len() == 0 {
    } else {
        let b0 = s[0];
        if scalar_len_at(s) > 0 {
            if b0 < 0x80 {
                width1_codepoint_facts(b0);
            } else if 0xc2 <= b0 && b0 <= 0xdf {
                width2_codepoint_facts(b0, s[1]);
            } else if 0xe0 <= b0 && b0 <= 0xef {
                width3_codepoint_facts(b0, s[1], s[2]);
            } else {
                width4_codepoint_facts(b0, s[1], s[2], s[3]);
            }
        }
        if s.len() > 0 && valid_first_scalar(s) {
            if is_leading_byte_width_1(b0) {
                width1_codepoint_facts(b0);
            } else if is_leading_byte_width_2(b0) {
                width2_codepoint_facts(b0, s[1]);
            } else if is_leading_byte_width_3(b0) {
                width3_codepoint_facts(b0, s[1], s[2]);
            } else {
                width4_codepoint_facts(b0, s[1], s[2], s[3]);
            }
        }
    }
}

/// The valid prefix never exceeds the sequence itself.
pub proof fn lemma_utf8_prefix_len_le(s: Seq<u8>)
    ensures
        utf8_prefix_len(s) <= s.len(),
    decreases s.len(),
{
    if s.len() > 0 && valid_first_scalar(s) {
        lemma_utf8_prefix_len_le(pop_first_scalar(s));
    }
}

/// The whole sequence is its own valid prefix exactly when it is valid UTF-8.
pub proof fn lemma_utf8_prefix_len_whole(s: Seq<u8>)
    ensures
        utf8_prefix_len(s) == s.len() <==> valid_utf8(s),
    decreases s.len(),
{
    if s.len() == 0 {
    } else if valid_first_scalar(s) {
        lemma_utf8_prefix_len_whole(pop_first_scalar(s));
        lemma_utf8_prefix_len_le(pop_first_scalar(s));
    }
}

/// Computes how many leading bytes of `bytes` form valid UTF-8.
pub fn utf8_valid_up_to(bytes: &Vec<u8>) -> (r: usize)
    ensures
        r == utf8_prefix_len(bytes@),
        r <= bytes@.len(),
{
    let n = bytes.len();
    let mut i: usize = 0;
    proof {
        assert(bytes@.subrange(0int, n as int) =~= bytes@);
    }
    loop
        invariant
            i <= n,
            n == bytes@.len(),
            utf8_prefix_len(bytes@) == i + utf8_prefix_len(bytes@.subrange(i as int, n as int)),
        decreases n - i,
    {
        let ghost rest = bytes@.subrange(i as int, n as int);
        proof {
            lemma_scalar_len_at_correct(rest);
            lemma_utf8_prefix_len_le(rest);
        }
        let k = scalar_len(bytes, i);
        if k == 0 {
            proof {
                assert(utf8_prefix_len(rest) == 0);
            }
            return i;
        }
        proof {
            assert(valid_first_scalar(rest));
            assert(pop_first_scalar(rest) =~= bytes@.subrange(i + k, n as int));
            assert(utf8_prefix_len(rest) == k + utf8_prefix_len(
                bytes@.subrange(i + k, n as int),
            ));
        }
        i = i + k;
    }
}

/// The length of the well-formed scalar encoding starting at index `i`, or 0.
fn scalar_len(bytes: &Vec<u8>, i: usize) -> (k: usize)
    requires
        i <= bytes@.len(),
    ensures
        k == scalar_len_at(bytes@.subrange(i as int, bytes@.len() as int)),
        i + k <= bytes@.len(),
{
    let n = bytes.len();
    if i == n {
        return 0;
    }
    let b0 = bytes[i];
    if b0 < 0x80 {
        1
    } else if 0xc2 <= b0 && b0 <= 0xdf {
        if i + 1 < n && is_cont(bytes[i + 1]) {
            2
        } else {
            0
        }
    } else if b0 == 0xe0 {
        if n - i > 2 && 0xa0 <= bytes[i + 1] && bytes[i + 1] <= 0xbf && is_cont(bytes[i + 2]) {
            3
        } else {
            0
        }
    } else if 0xe1 <= b0 && b0 <= 0xec {
        if n - i > 2 && is_cont(bytes[i + 1]) && is_cont(bytes[i + 2]) {
            3
        } else {
            0
        }
    } else if b0 == 0xed {
        if n - i > 2 && 0x80 <= bytes[i + 1] && bytes[i + 1] <= 0x9f && is_cont(bytes[i + 2]) {
            3
        } else {
            0
        }
    } else if 0xee <= b0 && b0 <= 0xef {
        if n - i > 2 && is_cont(bytes[i + 1]) && is_cont(bytes[i + 2]) {
            3
        } else {
            0
        }
    } else if b0 == 0xf0 {
        if n - i > 3 && 0x90 <= bytes[i + 1] && bytes[i + 1] <= 0xbf && is_cont(bytes[i + 2])
            && is_cont(bytes[i + 3]) {
            4
        } else {
            0
        }
    } else if 0xf1 <= b0 && b0 <= 0xf3 {
        if n - i > 3 && is_cont(bytes[i + 1]) && is_cont(bytes[i + 2]) && is_cont(bytes[i + 3]) {
            4
        } else {
            0
        }
    } else if b0 == 0xf4 {
        if n - i > 3 && 0x80 <= bytes[i + 1] && bytes[i + 1] <= 0x8f && is_cont(bytes[i + 2])
            && is_cont(bytes[i + 3]) {
            4
        } else {
            0
        }
    } else {
        0
    }
}

/// Whether a byte has the form of a UTF-8 continuation byte.
fn is_cont(b: u8) -> (r: bool)
    ensures
        r == is_continuation_byte(b),
{
    0x80 <= b && b <= 0xbf
}

/// Relies on `String::from_utf8`: it succeeds exactly on valid UTF-8 input
/// and returns the string whose characters are the decoding of those bytes.
#[verifier::external_body]
fn string_from_utf8(bytes: Vec<u8>) -> (r: Option<String>)
    ensures
        r is Some <==> valid_utf8(bytes@),
        r matches Some(s) ==> s@ == decode_utf8(bytes@),
{
    String::from_utf8(bytes).ok()
}

/// Converts bytes known to be valid UTF-8 into the string they decode to.
pub fn utf8_to_string(bytes: Vec<u8>) -> (r: String)
    requires
        valid_utf8(bytes@),
    ensures
        r@ == decode_utf8(bytes@),
{
    match string_from_utf8(bytes) {
        Some(s) => s,
        None => vstd::pervasive::unreached(),
    }
}

} // verus!
