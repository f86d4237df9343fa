//! UTF-8 at the byte level: validation of untrusted bytes, and the encoding and
//! decoding of single scalar values.
//!
//! Well-formedness is that of [`vstd::utf8::valid_utf8`]. The byte ranges below
//! are those of the table of well-formed byte sequences in the Unicode
//! standard, and [`lemma_starts_with_scalar`] proves the two the same.

use vstd::prelude::*;
use vstd::utf8::*;

verus! {

/// Why bytes are not UTF-8, and where they stop being so.
#[derive(Clone, Copy, Debug, PartialEq, Eq)]
pub struct Utf8Error {
    /// Length of the longest prefix that is well-formed UTF-8.
    pub valid_up_to: usize,
    /// Length of the ill-formed sequence that follows the prefix, or `None`
    /// where the input ends inside a scalar.
    pub error_len: Option<u8>,
}

impl Utf8Error {
    /// Length of the longest prefix of the input that is well-formed UTF-8.
    pub fn valid_up_to(&self) -> (index: usize)
        ensures
            index == self.valid_up_to,
    {
        self.valid_up_to
    }

    /// Length of the ill-formed sequence that follows the well-formed
    /// prefix, from 1 to 3; `None` where the input ends inside a scalar.
    pub fn error_len(&self) -> (len: Option<usize>)
        ensures
            len is None <==> self.error_len is None,
            len matches Some(n) ==> self.error_len == Some(n as u8) && n <= u8::MAX,
    {
        match self.error_len {
            Some(n) => Some(n as usize),
            None => None,
        }
    }
}

/// Number of bytes in a scalar that starts with `first`; 0 where no scalar
/// starts with it.
pub open spec fn utf8_char_width(first: u8) -> int {
    if first <= 0x7F {
        1
    } else if 0xC2 <= first <= 0xDF {
        2
    } else if 0xE0 <= first <= 0xEF {
        3
    } else if 0xF0 <= first <= 0xF4 {
        4
    } else {
        0
    }
}

/// Whether `second` may follow `first` in a scalar of two or more bytes. The
/// narrowed ranges keep out overlong forms, surrogates and values above
/// `U+10FFFF`.
pub open spec fn valid_second_byte(first: u8, second: u8) -> bool {
    if first == 0xE0 {
        0xA0 <= second <= 0xBF
    } else if first == 0xED {
        0x80 <= second <= 0x9F
    } else if first == 0xF0 {
        0x90 <= second <= 0xBF
    } else if first == 0xF4 {
        0x80 <= second <= 0x8F
    } else {
        0x80 <= second <= 0xBF
    }
}

/// Whether `s` starts with one whole well-formed scalar, by byte ranges.
pub open spec fn starts_with_scalar(s: Seq<u8>) -> bool {
    let width = utf8_char_width(s[0]);
    &&& 1 <= width <= s.len()
    &&& (width >= 2 ==> valid_second_byte(s[0], s[1]))
    &&& (width >= 3 ==> is_continuation_byte(s[2]))
    &&& (width >= 4 ==> is_continuation_byte(s[3]))
}

/// Length of the longest prefix of `bytes` that is made of whole scalars.
pub open spec fn valid_up_to(bytes: Seq<u8>) -> int
    decreases bytes.len(),
{
    if bytes.len() > 0 && valid_first_scalar(bytes) {
        length_of_first_scalar(bytes) + valid_up_to(pop_first_scalar(bytes))
    } else {
        0
    }
}

/// Length of the ill-formed sequence at the start of `rest`: the longest
/// prefix that could still begin a scalar, and at least one byte. `None` where
/// `rest` ends before the scalar is complete.
pub open spec fn invalid_sequence_len(rest: Seq<u8>) -> Option<u8>
    recommends
        rest.len() > 0,
        !valid_first_scalar(rest),
{
    if utf8_char_width(rest[0]) < 2 {
        Some(1u8)
    } else if rest.len() < 2 {
        None
    } else if !valid_second_byte(rest[0], rest[1]) {
        Some(1u8)
    } else if rest.len() < 3 {
        None
    } else if !is_continuation_byte(rest[2]) {
        Some(2u8)
    } else if rest.len() < 4 {
        None
    } else {
        Some(3u8)
    }
}

/// What validation reports of `bytes`.
pub open spec fn validation(bytes: Seq<u8>) -> Result<(), Utf8Error> {
    if valid_utf8(bytes) {
        Ok(())
    } else {
        Err(
            Utf8Error {
                valid_up_to: valid_up_to(bytes) as usize,
                error_len: invalid_sequence_len(
                    bytes.subrange(valid_up_to(bytes), bytes.len() as int),
                ),
            },
        )
    }
}

proof fn lemma_width_2(b0: u8, b1: u8)
    by (bit_vector)
    requires
        0xC0 <= b0 <= 0xDF,
        0x80 <= b1 <= 0xBF,
    ensures
        0x80 <= codepoint_width_2(b0, b1) <==> 0xC2 <= b0,
        codepoint_width_2(b0, b1) <= 0x7FF,
{
}

proof fn lemma_width_3(b0: u8, b1: u8, b2: u8)
    by (bit_vector)
    requires
        0xE0 <= b0 <= 0xEF,
        0x80 <= b1 <= 0xBF,
        0x80 <= b2 <= 0xBF,
    ensures
        (0x800 <= codepoint_width_3(b0, b1, b2) && !(0xD800 <= codepoint_width_3(b0, b1, b2)
            <= 0xDFFF)) <==> valid_second_byte(b0, b1),
{
}

proof fn lemma_width_4(b0: u8, b1: u8, b2: u8, b3: u8)
    by (bit_vector)
    requires
        0xF0 <= b0 <= 0xF7,
        0x80 <= b1 <= 0xBF,
        0x80 <= b2 <= 0xBF,
        0x80 <= b3 <= 0xBF,
    ensures
        (0x10000 <= codepoint_width_4(b0, b1, b2, b3) <= 0x10FFFF) <==> (b0 <= 0xF4
            && valid_second_byte(b0, b1)),
        0x10000 <= codepoint_width_4(b0, b1, b2, b3) ==> !(0xD800 <= codepoint_width_4(
            b0,
            b1,
            b2,
            b3,
        ) <= 0xDFFF),
{
}

/// The byte ranges describe exactly the scalars that `vstd` calls well-formed,
/// and the first byte alone gives the length.
pub proof fn lemma_starts_with_scalar(s: Seq<u8>)
    requires
        s.len() > 0,
    ensures
        valid_first_scalar(s) <==> starts_with_scalar(s),
        valid_first_scalar(s) ==> length_of_first_scalar(s) == utf8_char_width(s[0]),
{
    let b0 = s[0];
    if is_leading_byte_width_2(b0) {
        if s.len() >= 2 && is_continuation_byte(s[1]) {
            lemma_width_2(b0, s[1]);
        }
    } else if is_leading_byte_width_3(b0) {
        if s.len() >= 3 && is_continuation_byte(s[1]) && is_continuation_byte(s[2]) {
            lemma_width_3(b0, s[1], s[2]);
        }
    } else if is_leading_byte_width_4(b0) {
        if s.len() >= 4 && is_continuation_byte(s[1]) && is_continuation_byte(s[2])
            && is_continuation_byte(s[3]) {
            lemma_width_4(b0, s[1], s[2], s[3]);
        }
    }
}

/// Whether a scalar starts a sequence depends on its own bytes alone: it
/// starts every sequence that begins with the same bytes.
pub proof fn lemma_first_scalar_of_prefix(whole: Seq<u8>, n: int)
    requires
        0 < n <= whole.len(),
        valid_first_scalar(whole.subrange(0, n)),
    ensures
        valid_first_scalar(whole),
        length_of_first_scalar(whole) == length_of_first_scalar(whole.subrange(0, n)),
        length_of_first_scalar(whole) <= n,
{
    let p = whole.subrange(0, n);
    assert(p[0] == whole[0]);
    if p.len() >= 2 {
        assert(p[1] == whole[1]);
    }
    if p.len() >= 3 {
        assert(p[2] == whole[2]);
    }
    if p.len() >= 4 {
        assert(p[3] == whole[3]);
    }
}

/// The prefix counted by [`valid_up_to`] lies within the bytes and is
/// well-formed; the bytes are well-formed when it is all of them.
pub proof fn lemma_valid_up_to(bytes: Seq<u8>)
    ensures
        0 <= valid_up_to(bytes) <= bytes.len(),
        valid_utf8(bytes.subrange(0, valid_up_to(bytes))),
        valid_utf8(bytes) <==> valid_up_to(bytes) == bytes.len(),
        valid_up_to(bytes) < bytes.len() ==> !valid_first_scalar(
            bytes.subrange(valid_up_to(bytes), bytes.len() as int),
        ),
    decreases bytes.len(),
{
    if bytes.len() > 0 && valid_first_scalar(bytes) {
        let n = length_of_first_scalar(bytes);
        let rest = pop_first_scalar(bytes);
        lemma_valid_up_to(rest);
        let k = valid_up_to(rest);
        let prefix = bytes.subrange(0, n + k);
        assert(valid_first_scalar(prefix)) by {
            assert(prefix[0] == bytes[0]);
            if n >= 2 {
                assert(prefix[1] == bytes[1]);
            }
            if n >= 3 {
                assert(prefix[2] == bytes[2]);
            }
            if n >= 4 {
                assert(prefix[3] == bytes[3]);
            }
        }
        assert(pop_first_scalar(prefix) =~= rest.subrange(0, k));
        assert(bytes.subrange(n + k, bytes.len() as int) =~= rest.subrange(k, rest.len() as int));
    } else {
        assert(bytes.subrange(0, 0) =~= Seq::<u8>::empty());
        assert(bytes.subrange(0, bytes.len() as int) =~= bytes);
    }
}

/// No longer prefix is well-formed: [`valid_up_to`] is the largest `i` for
/// which the first `i` bytes are UTF-8.
pub proof fn lemma_valid_up_to_is_maximal(bytes: Seq<u8>, i: int)
    requires
        valid_up_to(bytes) < i <= bytes.len(),
    ensures
        !valid_utf8(bytes.subrange(0, i)),
    decreases bytes.len(),
{
    lemma_valid_up_to(bytes);
    let p = bytes.subrange(0, i);
    if valid_utf8(p) {
        lemma_first_scalar_of_prefix(bytes, i);
        let n = length_of_first_scalar(bytes);
        let rest = pop_first_scalar(bytes);
        assert(pop_first_scalar(p) =~= rest.subrange(0, i - n));
        lemma_valid_up_to(rest);
        if i - n > valid_up_to(rest) {
            lemma_valid_up_to_is_maximal(rest, i - n);
        }
    }
}

/// Number of bytes in a scalar that starts with `first`, 0 where none does.
pub fn char_width(first: u8) -> (width: usize)
    ensures
        width == utf8_char_width(first),
{
    if first <= 0x7F {
        1
    } else if 0xC2 <= first && first <= 0xDF {
        2
    } else if 0xE0 <= first && first <= 0xEF {
        3
    } else if 0xF0 <= first && first <= 0xF4 {
        4
    } else {
        0
    }
}

/// Whether `byte` continues a scalar: `10xxxxxx`.
pub fn is_continuation(byte: u8) -> (b: bool)
    ensures
        b == is_continuation_byte(byte),
{
    0x80 <= byte && byte <= 0xBF
}

fn second_byte_fits(first: u8, second: u8) -> (b: bool)
    ensures
        b == valid_second_byte(first, second),
{
    if first == 0xE0 {
        0xA0 <= second && second <= 0xBF
    } else if first == 0xED {
        0x80 <= second && second <= 0x9F
    } else if first == 0xF0 {
        0x90 <= second && second <= 0xBF
    } else if first == 0xF4 {
        0x80 <= second && second <= 0x8F
    } else {
        0x80 <= second && second <= 0xBF
    }
}

/// Checks the first `len` bytes of `bytes` in one pass. On failure the error
/// gives the length of the longest well-formed prefix and of the ill-formed
/// sequence after it.
pub fn validate_prefix(bytes: &[u8], len: usize) -> (res: Result<(), Utf8Error>)
    requires
        len <= bytes@.len(),
    ensures
        res == validation(bytes@.subrange(0, len as int)),
        res is Ok <==> valid_utf8(bytes@.subrange(0, len as int)),
        res matches Err(e) ==> e.valid_up_to == valid_up_to(bytes@.subrange(0, len as int))
            && e.valid_up_to < len,
{
    let ghost text = bytes@.subrange(0, len as int);
    let mut index: usize = 0;
    proof {
        assert(text.subrange(0, 0) =~= Seq::<u8>::empty());
        assert(text.subrange(0, text.len() as int) =~= text);
    }
    while index < len
        invariant
            index <= len,
            len <= bytes@.len(),
            text == bytes@.subrange(0, len as int),
            partial_valid_utf8(text, index as int),
            valid_up_to(text) == index + valid_up_to(text.subrange(index as int, len as int)),
        decreases len - index,
    {
        let first = bytes[index];
        let width = char_width(first);
        let ghost rest = text.subrange(index as int, len as int);
        let mut bad: Option<Option<u8>> = None;
        proof {
            lemma_starts_with_scalar(rest);
            assert(rest[0] == first);
        }
        if width == 0 {
            bad = Some(Some(1u8));
        } else if width >= 2 {
            if len - index < 2 {
                bad = Some(None);
            } else if !second_byte_fits(first, bytes[index + 1]) {
                assert(rest[1] == bytes[index + 1]);
                bad = Some(Some(1u8));
            } else if width >= 3 {
                assert(rest[1] == bytes[index + 1]);
                if len - index < 3 {
                    bad = Some(None);
                } else if !is_continuation(bytes[index + 2]) {
                    assert(rest[2] == bytes[index + 2]);
                    bad = Some(Some(2u8));
                } else if width >= 4 {
                    assert(rest[2] == bytes[index + 2]);
                    if len - index < 4 {
                        bad = Some(None);
                    } else if !is_continuation(bytes[index + 3]) {
                        assert(rest[3] == bytes[index + 3]);
                        bad = Some(Some(3u8));
                    } else {
                        assert(rest[3] == bytes[index + 3]);
                    }
                } else {
                    assert(rest[2] == bytes[index + 2]);
                }
            } else {
                assert(rest[1] == bytes[index + 1]);
            }
        }
        match bad {
            Some(error_len) => {
                proof {
                    assert(!valid_first_scalar(rest));
                    assert(valid_up_to(rest) == 0);
                    lemma_valid_up_to(text);
                    assert(error_len == invalid_sequence_len(rest));
                }
                return Err(Utf8Error { valid_up_to: index, error_len });
            },
            None => {
                proof {
                    assert(valid_first_scalar(rest));
                    assert(length_of_first_scalar(rest) == width);
                    partial_valid_utf8_extend(text, index as int);
                    assert(pop_first_scalar(rest) =~= text.subrange(
                        index + width,
                        len as int,
                    ));
                }
                index = index + width;
            },
        }
    }
    proof {
        assert(text.subrange(0, len as int) =~= text);
    }
    Ok(())
}

/// Checks that `bytes` are well-formed UTF-8.
pub fn validate(bytes: &[u8]) -> (res: Result<(), Utf8Error>)
    ensures
        res == validation(bytes@),
        res is Ok <==> valid_utf8(bytes@),
        res matches Err(e) ==> e.valid_up_to == valid_up_to(bytes@) && e.valid_up_to
            < bytes@.len(),
{
    proof {
        assert(bytes@.subrange(0, bytes@.len() as int) =~= bytes@);
    }
    validate_prefix(bytes, bytes.len())
}

} // verus!
